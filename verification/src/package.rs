//! Where a package's source comes from: embedded, a file, or memory.

use vstd::prelude::*;

use crate::error::HostError;
use crate::text::{chars_of, concat_chars, extend_chars, string_of};

verus! {

/// A package's source: embedded under a name, a file, or memory under a
/// key.
pub enum PackageSource<'a> {
    Embedded { name: &'a str, source: &'a str },
    File { path: &'a str },
    Memory { key: &'a str, source: &'a str },
}

/// A package's key (for diagnostics) and source text.
pub struct ResolvedPackage {
    pub source_key: String,
    pub source: String,
}

impl<'a> PackageSource<'a> {
    /// The key and source text: an embedded package is keyed `<name>`, a
    /// file by its path (its text read by `read_file`; a failed read is
    /// an I/O error naming the path), memory by its key.
    pub fn resolve<F: Fn(&str) -> Result<String, String>>(self, read_file: &F) -> (r: Result<ResolvedPackage, HostError>)
        requires
            forall|p: &str| #[trigger] read_file.requires((p,)),
        ensures
            match self {
                PackageSource::Embedded { name, source } => r matches Ok(p)
                    && p.source_key@ == "<"@ + name@ + ">"@ && p.source@ == source@,
                PackageSource::Memory { key, source } => r matches Ok(p)
                    && p.source_key@ == key@ && p.source@ == source@,
                PackageSource::File { path } => match r {
                    Ok(p) => p.source_key@ == path@ && read_file.ensures((path,), Ok::<String, String>(p.source)),
                    Err(HostError::Io(m)) => exists|e: String| read_file.ensures((path,), Err::<String, String>(e))
                        && m@ == "read '"@ + path@ + "': "@ + e@,
                    Err(_) => false,
                },
            },
    {
        match self {
            PackageSource::Embedded { name, source } => {
                let mut key = concat_chars(&chars_of("<"), &chars_of(name));
                extend_chars(&mut key, &chars_of(">"));
                Ok(ResolvedPackage { source_key: string_of(key.as_slice()), source: string_of(chars_of(source).as_slice()) })
            },
            PackageSource::File { path } => {
                match read_file(path) {
                    Ok(text) => Ok(ResolvedPackage { source_key: string_of(chars_of(path).as_slice()), source: text }),
                    Err(e) => {
                        let mut m = concat_chars(&chars_of("read '"), &chars_of(path));
                        extend_chars(&mut m, &chars_of("': "));
                        extend_chars(&mut m, &chars_of(e.as_str()));
                        Err(HostError::Io(string_of(m.as_slice())))
                    },
                }
            },
            PackageSource::Memory { key, source } => Ok(ResolvedPackage {
                source_key: string_of(chars_of(key).as_slice()),
                source: string_of(chars_of(source).as_slice()),
            }),
        }
    }
}

} // verus!
