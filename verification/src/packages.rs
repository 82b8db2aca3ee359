//! Package sources and their install locations.
//!
//! A package source is `npm:name[@version]`, a Git URL or shorthand with
//! an optional `#ref` or `@ref`, or a local path. Install roots live under
//! the project's `.pi` folder or the agent folder; temporary installs go
//! to a folder named by a short SHA-256 digest.

use vstd::prelude::*;

use sha2::Digest;

use crate::text::{
    chars_eq, chars_of, concat_chars, contains_char, copy_range, extend_chars, find_char, find_chars,
    first_index, first_occurrence, last_index, lemma_first_index_from, lemma_last_index_before,
    rfind_char, spec_trim, starts_with, starts_with_str, string_of, trim_chars,
};

verus! {

/// The project's configuration folder name.
pub const CONFIG_DIR_NAME: &'static str = ".pi";

/// Where a package is installed.
#[derive(Debug, Clone, Copy, PartialEq, Eq, Structural)]
pub enum Scope {
    User,
    Project,
    Temporary,
}

/// The name of a scope.
pub open spec fn scope_name(s: Scope) -> Seq<char> {
    match s {
        Scope::User => "user"@,
        Scope::Project => "project"@,
        Scope::Temporary => "temporary"@,
    }
}

impl Scope {
    pub fn name(self) -> (r: &'static str)
        ensures
            r@ == scope_name(self),
    {
        match self {
            Scope::User => "user",
            Scope::Project => "project",
            Scope::Temporary => "temporary",
        }
    }
}

/// An npm source: the spec after `npm:`, the package name, and whether a
/// version pins it.
pub struct NpmSource {
    pub spec: String,
    pub name: String,
    pub pinned: bool,
}

/// A Git source: the repository URL, host, path (without `.git`), the
/// ref if any, and whether a ref pins it.
pub struct GitSource {
    pub repo: String,
    pub host: String,
    pub path: String,
    pub reference: Option<String>,
    pub pinned: bool,
}

/// A local source: its path as written.
pub struct LocalSource {
    pub path: String,
}

/// A parsed package source.
pub enum ParsedSource {
    Npm(NpmSource),
    Git(GitSource),
    Local(LocalSource),
}

/// One configured package entry.
pub struct ConfiguredPackage {
    pub source: String,
    pub scope: Scope,
    pub filtered: bool,
    pub installed_path: Option<String>,
}

/// Where the package name of an npm spec ends: a scoped name
/// (`@scope/name`) ends at the first `@` after its `/`, any other name at
/// its first `@`; without one the whole spec is the name.
pub open spec fn npm_name_end(spec: Seq<char>) -> int {
    if spec.len() > 0 && spec[0] == '@' {
        let rest = spec.skip(1);
        match first_index(rest, '/') {
            Some(slash) => match first_index(rest.skip(slash + 1), '@') {
                Some(at) => slash + at + 2,
                None => spec.len() as int,
            },
            None => spec.len() as int,
        }
    } else {
        match first_index(spec, '@') {
            Some(at) => at,
            None => spec.len() as int,
        }
    }
}

/// An npm spec split into its name and optional version; a spec whose
/// name would be empty or end with `/`, or whose `@` has no version
/// after it, is kept whole, unversioned.
pub open spec fn spec_parse_npm(spec: Seq<char>) -> (Seq<char>, Option<Seq<char>>) {
    let e = npm_name_end(spec);
    let name = spec.take(e);
    if name.len() == 0 || name.last() == '/' || e + 1 == spec.len() {
        (spec, None)
    } else if e < spec.len() {
        (name, Some(spec.skip(e + 1)))
    } else {
        (name, None)
    }
}

proof fn lemma_npm_name_end(spec: Seq<char>)
    ensures
        0 <= npm_name_end(spec) <= spec.len(),
{
    if spec.len() > 0 && spec[0] == '@' {
        let rest = spec.skip(1);
        lemma_first_index_from(rest, '/', 0);
        if let Some(slash) = first_index(rest, '/') {
            lemma_first_index_from(rest.skip(slash + 1), '@', 0);
        }
    } else {
        lemma_first_index_from(spec, '@', 0);
    }
}

fn parse_npm_spec(spec: &Vec<char>) -> (r: (Vec<char>, Option<Vec<char>>))
    ensures
        r.0@ == spec_parse_npm(spec@).0,
        match (r.1, spec_parse_npm(spec@).1) {
            (Some(v), Some(w)) => v@ == w,
            (None, None) => true,
            _ => false,
        },
{
    proof {
        lemma_npm_name_end(spec@);
    }
    let name_end: usize = if spec.len() > 0 && spec[0] == '@' {
        let rest = copy_range(spec, 1, spec.len());
        assert(rest@ =~= spec@.skip(1));
        match find_char(&rest, '/') {
            Some(slash) => {
                let after = copy_range(&rest, slash + 1, rest.len());
                assert(after@ =~= rest@.skip(slash + 1));
                match find_char(&after, '@') {
                    Some(at) => slash + at + 2,
                    None => spec.len(),
                }
            },
            None => spec.len(),
        }
    } else {
        match find_char(spec, '@') {
            Some(at) => at,
            None => spec.len(),
        }
    };
    let name = copy_range(spec, 0, name_end);
    assert(name@ =~= spec@.take(name_end as int));
    if name.len() == 0 || name[name.len() - 1] == '/' || (name_end < spec.len() && name_end == spec.len() - 1) {
        return (spec.clone(), None);
    }
    if name_end < spec.len() {
        let version = copy_range(spec, name_end + 1, spec.len());
        assert(version@ =~= spec@.skip(name_end + 1));
        (name, Some(version))
    } else {
        (name, None)
    }
}

/// Whether a source is a local path: it starts (after trimming) with
/// none of `npm:`, `git:`, `github:`, `http:`, `https:`, `ssh:`.
pub open spec fn spec_is_local_path(value: Seq<char>) -> bool {
    let t = spec_trim(value);
    !(starts_with(t, "npm:"@) || starts_with(t, "git:"@) || starts_with(t, "github:"@)
        || starts_with(t, "http:"@) || starts_with(t, "https:"@) || starts_with(t, "ssh:"@))
}

pub fn is_local_path(value: &str) -> (r: bool)
    ensures
        r == spec_is_local_path(value@),
{
    let t = trim_chars(&chars_of(value));
    !(starts_with_str(&t, "npm:") || starts_with_str(&t, "git:") || starts_with_str(&t, "github:")
        || starts_with_str(&t, "http:") || starts_with_str(&t, "https:") || starts_with_str(&t, "ssh:"))
}

/// A repository path and ref split at an `@` (the last for scp-style and
/// host/path shorthands, the first after the authority for URLs); both
/// sides must be non-empty, else the URL is kept whole.
pub open spec fn spec_split_ref(url: Seq<char>) -> (Seq<char>, Option<Seq<char>>) {
    let scp = url.skip(4);
    let sep = "://"@;
    if starts_with(url, "git@"@) && first_index(scp, ':') is Some {
        let colon = first_index(scp, ':')->0;
        let host = scp.take(colon);
        let pwr = scp.skip(colon + 1);
        match last_index(pwr, '@') {
            Some(at) => if at > 0 && at + 1 < pwr.len() {
                ("git@"@ + host + ":"@ + pwr.take(at), Some(pwr.skip(at + 1)))
            } else {
                (url, None)
            },
            None => (url, None),
        }
    } else if first_occurrence(url, sep, 0) is Some {
        let k = first_occurrence(url, sep, 0)->0;
        let scheme = url.take(k);
        let after = url.skip(k + 3);
        let rest = match first_occurrence(after, sep, 0) {
            Some(j) => after.take(j),
            None => after,
        };
        match first_index(rest, '/') {
            Some(slash) => {
                let pwr = rest.skip(slash + 1);
                match first_index(pwr, '@') {
                    Some(at) => if at > 0 && at + 1 < pwr.len() {
                        (scheme + sep + rest.take(slash) + "/"@ + pwr.take(at), Some(pwr.skip(at + 1)))
                    } else {
                        (url, None)
                    },
                    None => (url, None),
                }
            },
            None => (url, None),
        }
    } else {
        match first_index(url, '/') {
            Some(slash) => {
                let host = url.take(slash);
                let pwr = url.skip(slash + 1);
                match last_index(pwr, '@') {
                    Some(at) => if at > 0 && at + 1 < pwr.len() {
                        (host + "/"@ + pwr.take(at), Some(pwr.skip(at + 1)))
                    } else {
                        (url, None)
                    },
                    None => (url, None),
                }
            },
            None => (url, None),
        }
    }
}

fn split_ref(url: &Vec<char>) -> (r: (Vec<char>, Option<Vec<char>>))
    ensures
        r.0@ == spec_split_ref(url@).0,
        match (r.1, spec_split_ref(url@).1) {
            (Some(v), Some(w)) => v@ == w,
            (None, None) => true,
            _ => false,
        },
{
    let n = url.len();
    let sep = chars_of("://");
    proof {
        reveal_strlit("git@");
        reveal_strlit("://");
    }
    assert(sep@.len() == 3);
    if starts_with_str(url, "git@") {
        let scp = copy_range(url, 4, url.len());
        assert(scp@ =~= url@.skip(4));
        if let Some(colon) = find_char(&scp, ':') {
            let host = copy_range(&scp, 0, colon);
            let pwr = copy_range(&scp, colon + 1, scp.len());
            assert(host@ =~= scp@.take(colon as int));
            assert(pwr@ =~= scp@.skip(colon + 1));
            if let Some(at) = rfind_char(&pwr, '@') {
                if at > 0 && at + 1 < pwr.len() {
                    let mut repo = chars_of("git@");
                    extend_chars(&mut repo, &host);
                    repo.push(':');
                    let head = copy_range(&pwr, 0, at);
                    assert(head@ =~= pwr@.take(at as int));
                    extend_chars(&mut repo, &head);
                    let reference = copy_range(&pwr, at + 1, pwr.len());
                    assert(reference@ =~= pwr@.skip(at + 1));
                    assert(repo@ =~= "git@"@ + host@ + ":"@ + pwr@.take(at as int)) by {
                        reveal_strlit(":");
                    }
                    return (repo, Some(reference));
                }
            }
            return (url.clone(), None);
        }
    }
    if let Some(k) = find_chars(url, &sep) {
        let scheme = copy_range(url, 0, k);
        assert(scheme@ =~= url@.take(k as int));
        let after = copy_range(url, k + 3, n);
        assert(after@ =~= url@.skip(k + 3));
        let rest = match find_chars(&after, &sep) {
            Some(j) => {
                let r = copy_range(&after, 0, j);
                assert(r@ =~= after@.take(j as int));
                r
            },
            None => after,
        };
        if let Some(slash) = find_char(&rest, '/') {
            let pwr = copy_range(&rest, slash + 1, rest.len());
            assert(pwr@ =~= rest@.skip(slash + 1));
            if let Some(at) = find_char(&pwr, '@') {
                if at > 0 && at + 1 < pwr.len() {
                    let mut repo = scheme;
                    extend_chars(&mut repo, &sep);
                    let auth = copy_range(&rest, 0, slash);
                    assert(auth@ =~= rest@.take(slash as int));
                    extend_chars(&mut repo, &auth);
                    repo.push('/');
                    let head = copy_range(&pwr, 0, at);
                    assert(head@ =~= pwr@.take(at as int));
                    extend_chars(&mut repo, &head);
                    let reference = copy_range(&pwr, at + 1, pwr.len());
                    assert(reference@ =~= pwr@.skip(at + 1));
                    assert(repo@ =~= url@.take(k as int) + "://"@ + rest@.take(slash as int) + "/"@ + pwr@.take(at as int)) by {
                        reveal_strlit("/");
                    }
                    return (repo, Some(reference));
                }
            }
        }
        return (url.clone(), None);
    }
    if let Some(slash) = find_char(url, '/') {
        let host = copy_range(url, 0, slash);
        assert(host@ =~= url@.take(slash as int));
        let pwr = copy_range(url, slash + 1, n);
        assert(pwr@ =~= url@.skip(slash + 1));
        if let Some(at) = rfind_char(&pwr, '@') {
            if at > 0 && at + 1 < pwr.len() {
                let mut repo = host;
                repo.push('/');
                let head = copy_range(&pwr, 0, at);
                assert(head@ =~= pwr@.take(at as int));
                extend_chars(&mut repo, &head);
                let reference = copy_range(&pwr, at + 1, pwr.len());
                assert(reference@ =~= pwr@.skip(at + 1));
                assert(repo@ =~= url@.take(slash as int) + "/"@ + pwr@.take(at as int)) by {
                    reveal_strlit("/");
                }
                return (repo, Some(reference));
            }
        }
    }
    (url.clone(), None)
}


/// The value of a hexadecimal digit byte.
pub open spec fn hex_digit(b: u8) -> Option<u8> {
    if 48 <= b <= 57 {
        Some((b - 48) as u8)
    } else if 97 <= b <= 102 {
        Some((b - 97 + 10) as u8)
    } else if 65 <= b <= 70 {
        Some((b - 65 + 10) as u8)
    } else {
        None
    }
}

fn hex_value(byte: u8) -> (r: Option<u8>)
    ensures
        r == hex_digit(byte),
{
    if 48 <= byte && byte <= 57 {
        Some(byte - 48)
    } else if 97 <= byte && byte <= 102 {
        Some(byte - 97 + 10)
    } else if 65 <= byte && byte <= 70 {
        Some(byte - 65 + 10)
    } else {
        None
    }
}

/// Percent-decoding of `b[i..]`: `%XY` becomes the byte `0xXY`; a `%`
/// without two hexadecimal digits after it fails.
pub open spec fn percent_decode(b: Seq<u8>, i: int) -> Option<Seq<u8>>
    decreases b.len() - i,
{
    if i < 0 || i >= b.len() {
        Some(Seq::<u8>::empty())
    } else if b[i] == 37 {
        if i + 2 >= b.len() {
            None
        } else {
            match (hex_digit(b[i + 1]), hex_digit(b[i + 2])) {
                (Some(h), Some(l)) => match percent_decode(b, i + 3) {
                    Some(r) => Some(seq![(h * 16 + l) as u8] + r),
                    None => None,
                },
                _ => None,
            }
        }
    } else {
        match percent_decode(b, i + 1) {
            Some(r) => Some(seq![b[i]] + r),
            None => None,
        }
    }
}

/// A value percent-decoded for validation: `None` when the escapes are
/// malformed or the decoded bytes are not UTF-8.
pub open spec fn spec_decode_for_validation(value: Seq<char>) -> Option<Seq<char>> {
    match percent_decode(vstd::utf8::encode_utf8(value), 0) {
        Some(d) => if vstd::utf8::valid_utf8(d) { Some(vstd::utf8::decode_utf8(d)) } else { None },
        None => None,
    }
}

/// The text encoded by `bytes`, when they are UTF-8; std's
/// `String::from_utf8`, which accepts exactly the UTF-8 byte sequences.
#[verifier::external_body]
fn utf8_string(bytes: Vec<u8>) -> (r: Option<String>)
    ensures
        r is Some <==> vstd::utf8::valid_utf8(bytes@),
        r matches Some(s) ==> s@ == vstd::utf8::decode_utf8(bytes@),
{
    String::from_utf8(bytes).ok()
}

fn decode_for_validation(value: &str) -> (r: Option<String>)
    ensures
        match (r, spec_decode_for_validation(value@)) {
            (Some(s), Some(t)) => s@ == t,
            (None, None) => true,
            _ => false,
        },
{
    let bytes = value.as_bytes();
    let ghost b = bytes@;
    let mut out: Vec<u8> = Vec::new();
    let mut index: usize = 0;
    while index < bytes.len()
        invariant
            b == bytes@,
            b == vstd::utf8::encode_utf8(value@),
            index <= b.len(),
            percent_decode(b, 0) == match percent_decode(b, index as int) {
                Some(r) => Some(out@ + r),
                None => None,
            },
        decreases b.len() - index,
    {
        if bytes[index] == 37 {
            if bytes.len() - index <= 2 {
                assert(percent_decode(b, index as int) is None);
                return None;
            }
            let high = match hex_value(bytes[index + 1]) {
                Some(h) => h,
                None => {
                    assert(percent_decode(b, index as int) is None);
                    return None;
                },
            };
            let low = match hex_value(bytes[index + 2]) {
                Some(l) => l,
                None => {
                    assert(percent_decode(b, index as int) is None);
                    return None;
                },
            };
            let ghost before = out@;
            out.push(high * 16 + low);
            proof {
                match percent_decode(b, index + 3) {
                    Some(r) => {
                        assert(before + (seq![(high * 16 + low) as u8] + r) =~= out@ + r);
                    },
                    None => {},
                }
            }
            index += 3;
        } else {
            let ghost before = out@;
            out.push(bytes[index]);
            proof {
                match percent_decode(b, index + 1) {
                    Some(r) => {
                        assert(before + (seq![b[index as int]] + r) =~= out@ + r);
                    },
                    None => {},
                }
            }
            index += 1;
        }
    }
    assert(out@ + Seq::<u8>::empty() =~= out@);
    utf8_string(out)
}

/// A path part that could escape its install folder: a NUL or backslash,
/// a leading `/`, a `/` where none is allowed, or a `..` segment.
pub open spec fn unsafe_candidate(c: Seq<char>, allow_slash: bool) -> bool {
    c.contains('\0') || c.contains('\\') || (c.len() > 0 && c[0] == '/')
        || (!allow_slash && c.contains('/'))
        || crate::text::split_on(c, '/').contains(seq!['.', '.'])
}

/// Whether a Git host or path part is unsafe, as written or decoded (an
/// undecodable part is unsafe).
pub open spec fn spec_has_unsafe_part(value: Seq<char>, allow_slash: bool) -> bool {
    match spec_decode_for_validation(value) {
        None => true,
        Some(d) => unsafe_candidate(value, allow_slash) || unsafe_candidate(d, allow_slash),
    }
}

pub(crate) fn unsafe_chars(c: &Vec<char>, allow_slash: bool) -> (r: bool)
    ensures
        r == unsafe_candidate(c@, allow_slash),
{
    if contains_char(c, '\0') || contains_char(c, '\\') || (c.len() > 0 && c[0] == '/') {
        return true;
    }
    if !allow_slash && contains_char(c, '/') {
        return true;
    }
    let parts = crate::text::split_chars(c, '/');
    let dd = vec!['.', '.'];
    assert(dd@ =~= seq!['.', '.']);
    let mut i: usize = 0;
    while i < parts.len()
        invariant
            i <= parts@.len(),
            crate::text::seqs_of(parts@) == crate::text::split_on(c@, '/'),
            dd@ == seq!['.', '.'],
            forall|k: int| 0 <= k < i ==> parts@[k]@ != seq!['.', '.'],
        decreases parts@.len() - i,
    {
        if chars_eq(&parts[i], &dd) {
            assert(crate::text::split_on(c@, '/')[i as int] == seq!['.', '.']);
            return true;
        }
        i += 1;
    }
    assert(!crate::text::split_on(c@, '/').contains(seq!['.', '.'])) by {
        if crate::text::split_on(c@, '/').contains(seq!['.', '.']) {
            let k = choose|k: int| 0 <= k < crate::text::split_on(c@, '/').len() && crate::text::split_on(c@, '/')[k] == seq!['.', '.'];
            assert(parts@[k]@ == seq!['.', '.']);
        }
    }
    false
}

fn has_unsafe_git_install_part(value: &str, allow_slash: bool) -> (r: bool)
    ensures
        r == spec_has_unsafe_part(value@, allow_slash),
{
    let decoded = match decode_for_validation(value) {
        Some(d) => d,
        None => return true,
    };
    unsafe_chars(&chars_of(value), allow_slash) || unsafe_chars(&chars_of(decoded.as_str()), allow_slash)
}

/// What a Git source holds: repository, host, path and ref.
pub type GitView = (Seq<char>, Seq<char>, Seq<char>, Option<Seq<char>>);

/// The view of a Git source (its `pinned` flag is `reference is Some`).
pub open spec fn git_view(g: GitSource) -> GitView {
    (g.repo@, g.host@, g.path@, match g.reference { Some(r) => Some(r@), None => None })
}

/// `s` without leading `/`s.
pub open spec fn trim_leading_slashes(s: Seq<char>) -> Seq<char>
    decreases s.len(),
{
    if s.len() > 0 && s[0] == '/' { trim_leading_slashes(s.drop_first()) } else { s }
}

/// A Git source from its parts: the path loses a trailing `.git` and
/// leading `/`s and needs at least two segments; host and path must be
/// non-empty and safe. A path that starts with `/` is refused.
pub open spec fn spec_build_git(repo: Seq<char>, host: Seq<char>, path: Seq<char>, reference: Option<Seq<char>>) -> Option<GitView> {
    if starts_with(path, "/"@) {
        None
    } else {
        let stripped = if crate::path::ends_with(path, ".git"@) { path.take(path.len() - 4) } else { path };
        let normalized = trim_leading_slashes(stripped);
        if host.len() == 0 || normalized.len() == 0 || crate::text::split_on(normalized, '/').len() < 2 {
            None
        } else if spec_has_unsafe_part(host, false) || spec_has_unsafe_part(normalized, true) {
            None
        } else {
            Some((repo, host, normalized, reference))
        }
    }
}

fn opt_string(o: &Option<Vec<char>>) -> (r: Option<String>)
    ensures
        match (r, *o) {
            (Some(a), Some(b)) => a@ == b@,
            (None, None) => true,
            _ => false,
        },
{
    match o {
        Some(v) => Some(string_of(v.as_slice())),
        None => None,
    }
}

fn build_git_source(repo: Vec<char>, host: Vec<char>, path: Vec<char>, reference: Option<Vec<char>>) -> (r: Option<GitSource>)
    ensures
        match (r, spec_build_git(repo@, host@, path@, match reference { Some(v) => Some(v@), None => None })) {
            (Some(g), Some(v)) => git_view(g) == v && g.pinned == (g.reference is Some),
            (None, None) => true,
            _ => false,
        },
{
    proof {
        reveal_strlit("/");
        reveal_strlit(".git");
        assert("/"@.len() == 1 && "/"@[0] == '/');
        assert(".git"@.len() == 4 && ".git"@[0] == '.' && ".git"@[1] == 'g' && ".git"@[2] == 'i' && ".git"@[3] == 't');
        assert(".git"@ =~= seq!['.', 'g', 'i', 't']);
        assert("/"@ =~= seq!['/']);
    }
    if path.len() > 0 && path[0] == '/' {
        assert(starts_with(path@, "/"@)) by {
            assert(path@.take(1) =~= seq!['/']);
        }
        return None;
    }
    assert(!starts_with(path@, "/"@)) by {
        if starts_with(path@, "/"@) {
            assert(path@.take(1)[0] == path@[0]);
        }
    }
    let n = path.len();
    let has_git = n >= 4 && path[n - 4] == '.' && path[n - 3] == 'g' && path[n - 2] == 'i' && path[n - 1] == 't';
    assert(has_git == crate::path::ends_with(path@, ".git"@)) by {
        if n >= 4 {
            assert(path@.skip(n - 4) =~= seq![path@[n - 4], path@[n - 3], path@[n - 2], path@[n - 1]]);
        }
    }
    let stripped = if has_git { copy_range(&path, 0, n - 4) } else { path.clone() };
    assert(has_git ==> stripped@ =~= path@.take(n - 4));
    let mut start: usize = 0;
    assert(stripped@.skip(0) =~= stripped@);
    while start < stripped.len() && stripped[start] == '/'
        invariant
            start <= stripped@.len(),
            trim_leading_slashes(stripped@.skip(start as int)) == trim_leading_slashes(if has_git { path@.take(n - 4) } else { path@ }),
        decreases stripped@.len() - start,
    {
        assert(stripped@.skip(start as int).drop_first() =~= stripped@.skip(start + 1));
        start += 1;
    }
    let normalized = copy_range(&stripped, start, stripped.len());
    assert(normalized@ =~= stripped@.skip(start as int));
    let segments = crate::text::split_chars(&normalized, '/');
    if host.len() == 0 || normalized.len() == 0 || segments.len() < 2 {
        return None;
    }
    let host_s = string_of(host.as_slice());
    let path_s = string_of(normalized.as_slice());
    if has_unsafe_git_install_part(host_s.as_str(), false) || has_unsafe_git_install_part(path_s.as_str(), true) {
        return None;
    }
    let r = opt_string(&reference);
    let pinned = r.is_some();
    Some(GitSource { repo: string_of(repo.as_slice()), host: host_s, path: path_s, reference: r, pinned })
}

/// Whether a text starts with one of the URL schemes a Git source may
/// use.
pub open spec fn has_git_scheme(s: Seq<char>) -> bool {
    starts_with(s, "https://"@) || starts_with(s, "http://"@) || starts_with(s, "ssh://"@) || starts_with(s, "git://"@)
}

/// A Git source from a URL (`https`, `http`, `ssh`, `git` schemes), a
/// `git@host:path` form, or a `git:`-prefixed host/path shorthand whose
/// host has a dot or is `localhost`; `#ref` or `@ref` gives the ref (the
/// `#` one first).
pub open spec fn spec_parse_git_url(source: Seq<char>) -> Option<GitView> {
    let trimmed = spec_trim(source);
    let has_prefix = starts_with(trimmed, "git:"@);
    let url = if has_prefix { spec_trim(trimmed.skip(4)) } else { trimmed };
    if !has_prefix && !has_git_scheme(url) {
        None
    } else {
        let (rwr, from_hash) = match first_index(url, '#') {
            Some(h) => (url.take(h), Some(url.skip(h + 1))),
            None => (url, None),
        };
        let (repo, from_at) = spec_split_ref(rwr);
        let reference = if from_hash is Some { from_hash } else { from_at };
        let scp = repo.skip(4);
        if starts_with(repo, "git@"@) && first_index(scp, ':') is Some {
            let colon = first_index(scp, ':')->0;
            spec_build_git(repo, scp.take(colon), scp.skip(colon + 1), reference)
        } else if has_git_scheme(repo) {
            let after = repo.skip(first_occurrence(repo, "://"@, 0)->0 + 3);
            let (host, path) = match first_index(after, '/') {
                Some(sl) => (after.take(sl), after.skip(sl + 1)),
                None => (after, Seq::<char>::empty()),
            };
            let host = match last_index(host, '@') {
                Some(a) => host.skip(a + 1),
                None => host,
            };
            spec_build_git(repo, host, path, reference)
        } else {
            match first_index(repo, '/') {
                Some(sl) => {
                    let host = repo.take(sl);
                    if !host.contains('.') && host != "localhost"@ {
                        None
                    } else {
                        spec_build_git("https://"@ + repo, host, repo.skip(sl + 1), reference)
                    }
                },
                None => None,
            }
        }
    }
}

fn starts_with_scheme(v: &Vec<char>) -> (r: bool)
    ensures
        r == has_git_scheme(v@),
{
    starts_with_str(v, "https://") || starts_with_str(v, "http://") || starts_with_str(v, "ssh://") || starts_with_str(v, "git://")
}


/// The Git source of a URL with a scheme: host after the `://` (without
/// userinfo), path after the host's `/`.
fn git_from_scheme_url(repo: Vec<char>, reference: Option<Vec<char>>) -> (r: Option<GitSource>)
    requires
        has_git_scheme(repo@),
    ensures
        ({
            let after = repo@.skip(first_occurrence(repo@, "://"@, 0)->0 + 3);
            let (host, path) = match first_index(after, '/') {
                Some(sl) => (after.take(sl), after.skip(sl + 1)),
                None => (after, Seq::<char>::empty()),
            };
            let host = match last_index(host, '@') {
                Some(a) => host.skip(a + 1),
                None => host,
            };
            match (r, spec_build_git(repo@, host, path, match reference { Some(v) => Some(v@), None => None })) {
                (Some(g), Some(v)) => git_view(g) == v && g.pinned == (g.reference is Some),
                (None, None) => true,
                _ => false,
            }
        }),
{
    let n = repo.len();
    let sep = chars_of("://");
    proof {
        reveal_strlit("://");
        reveal_strlit("https://");
        reveal_strlit("http://");
        reveal_strlit("ssh://");
        reveal_strlit("git://");
        assert("://"@ =~= seq![':', '/', '/']);
        assert("https://"@.len() == 8);
        assert("http://"@.len() == 7);
        assert("ssh://"@.len() == 6);
        assert("git://"@.len() == 6);
        let t = if starts_with(repo@, "https://"@) { 5int } else if starts_with(repo@, "http://"@) { 4int } else { 3int };
        if starts_with(repo@, "https://"@) {
            assert(repo@.take(8) == "https://"@);
            assert(repo@[5] == "https://"@[5] && repo@[6] == "https://"@[6] && repo@[7] == "https://"@[7]);
        } else if starts_with(repo@, "http://"@) {
            assert(repo@.take(7) == "http://"@);
            assert(repo@[4] == "http://"@[4] && repo@[5] == "http://"@[5] && repo@[6] == "http://"@[6]);
        } else if starts_with(repo@, "ssh://"@) {
            assert(repo@.take(6) == "ssh://"@);
            assert(repo@[3] == "ssh://"@[3] && repo@[4] == "ssh://"@[4] && repo@[5] == "ssh://"@[5]);
        } else {
            assert(repo@.take(6) == "git://"@);
            assert(repo@[3] == "git://"@[3] && repo@[4] == "git://"@[4] && repo@[5] == "git://"@[5]);
        }
        assert(repo@.subrange(t, t + 3) =~= "://"@);
        crate::text::lemma_first_occurrence_complete(repo@, "://"@, 0, t);
    }
    let k = match find_chars(&repo, &sep) {
        Some(k) => k,
        None => return None,
    };
    let after = copy_range(&repo, k + 3, n);
    assert(after@ =~= repo@.skip(k + 3));
    let (host0, path) = match find_char(&after, '/') {
        Some(sl) => {
            let h = copy_range(&after, 0, sl);
            let p = copy_range(&after, sl + 1, after.len());
            assert(h@ =~= after@.take(sl as int));
            assert(p@ =~= after@.skip(sl + 1));
            (h, p)
        },
        None => {
            let e: Vec<char> = Vec::new();
            assert(e@ =~= Seq::<char>::empty());
            (after.clone(), e)
        },
    };
    let host = match rfind_char(&host0, '@') {
        Some(a) => {
            let h = copy_range(&host0, a + 1, host0.len());
            assert(h@ =~= host0@.skip(a + 1));
            h
        },
        None => host0,
    };
    build_git_source(repo, host, path, reference)
}

/// Parses a Git source.
#[verifier::rlimit(50)]
pub fn parse_git_url(source: &str) -> (r: Option<GitSource>)
    ensures
        match (r, spec_parse_git_url(source@)) {
            (Some(g), Some(v)) => git_view(g) == v && g.pinned == (g.reference is Some),
            (None, None) => true,
            _ => false,
        },
{
    proof {
        reveal_strlit("git:");
        reveal_strlit("git@");
        assert("git:"@.len() == 4);
        assert("git@"@.len() == 4);
    }
    let trimmed = trim_chars(&chars_of(source));
    let has_prefix = starts_with_str(&trimmed, "git:");
    let url = if has_prefix {
        let rest = copy_range(&trimmed, 4, trimmed.len());
        assert(rest@ =~= trimmed@.skip(4));
        trim_chars(&rest)
    } else {
        trimmed
    };
    if !has_prefix && !starts_with_scheme(&url) {
        return None;
    }
    let un = url.len();
    let (rwr, from_hash) = match find_char(&url, '#') {
        Some(h) => {
            let a = copy_range(&url, 0, h);
            let b = copy_range(&url, h + 1, un);
            assert(a@ =~= url@.take(h as int));
            assert(b@ =~= url@.skip(h + 1));
            (a, Some(b))
        },
        None => (url.clone(), None),
    };
    let (repo, from_at) = split_ref(&rwr);
    let reference = if from_hash.is_some() { from_hash } else { from_at };
    let n = repo.len();
    if starts_with_str(&repo, "git@") {
        let scp = copy_range(&repo, 4, n);
        assert(scp@ =~= repo@.skip(4));
        if let Some(colon) = find_char(&scp, ':') {
            let host = copy_range(&scp, 0, colon);
            let path = copy_range(&scp, colon + 1, scp.len());
            assert(host@ =~= scp@.take(colon as int));
            assert(path@ =~= scp@.skip(colon + 1));
            return build_git_source(repo, host, path, reference);
        }
    }
    if starts_with_scheme(&repo) {
        return git_from_scheme_url(repo, reference);
    }
    if let Some(sl) = find_char(&repo, '/') {
        let host = copy_range(&repo, 0, sl);
        assert(host@ =~= repo@.take(sl as int));
        let path = copy_range(&repo, sl + 1, n);
        assert(path@ =~= repo@.skip(sl + 1));
        let localhost = chars_of("localhost");
        if !contains_char(&host, '.') && !chars_eq(&host, &localhost) {
            return None;
        }
        let mut full = chars_of("https://");
        extend_chars(&mut full, &repo);
        return build_git_source(full, host, path, reference);
    }
    None
}

/// What a parsed source is: npm (spec, name, pinned), Git, or local.
pub open spec fn spec_parse_source_kind(source: Seq<char>) -> int {
    if starts_with(source, "npm:"@) {
        0
    } else if spec_is_local_path(source) {
        2
    } else if spec_parse_git_url(source) is Some {
        1
    } else {
        2
    }
}

/// Parses a package source: `npm:` first, then local paths, then Git;
/// anything else is a local path.
pub fn parse_source(source: &str) -> (r: ParsedSource)
    ensures
        spec_parse_source_kind(source@) == 0 ==> (r matches ParsedSource::Npm(n)
            && n.spec@ == spec_trim(source@.skip(4))
            && n.name@ == spec_parse_npm(spec_trim(source@.skip(4))).0
            && n.pinned == spec_parse_npm(spec_trim(source@.skip(4))).1 is Some),
        spec_parse_source_kind(source@) == 1 ==> (r matches ParsedSource::Git(g)
            && Some(git_view(g)) == spec_parse_git_url(source@) && g.pinned == (g.reference is Some)),
        spec_parse_source_kind(source@) == 2 ==> (r matches ParsedSource::Local(l) && l.path@ == source@),
{
    let s = chars_of(source);
    if starts_with_str(&s, "npm:") {
        proof {
            reveal_strlit("npm:");
        }
        let rest = copy_range(&s, 4, s.len());
        assert(rest@ =~= source@.skip(4));
        let spec = trim_chars(&rest);
        let (name, version) = parse_npm_spec(&spec);
        return ParsedSource::Npm(NpmSource {
            spec: string_of(spec.as_slice()),
            name: string_of(name.as_slice()),
            pinned: version.is_some(),
        });
    }
    if is_local_path(source) {
        return ParsedSource::Local(LocalSource { path: source.to_owned() });
    }
    match parse_git_url(source) {
        Some(g) => ParsedSource::Git(g),
        None => ParsedSource::Local(LocalSource { path: source.to_owned() }),
    }
}

// ---------------------------------------------------------------------------
// Install locations
// ---------------------------------------------------------------------------

/// `PathBuf::join`: an absolute part replaces the base; otherwise the
/// part is appended after a `/` unless the base is empty or already ends
/// with one.
pub open spec fn path_push(base: Seq<char>, part: Seq<char>) -> Seq<char> {
    if part.len() > 0 && part[0] == '/' {
        part
    } else if base.len() > 0 && base.last() != '/' {
        base + seq!['/'] + part
    } else {
        base + part
    }
}

/// Joins a part onto a base path as `PathBuf::join` does.
pub fn path_join(base: &str, part: &str) -> (r: String)
    ensures
        r@ == path_push(base@, part@),
{
    let b = chars_of(base);
    let p = chars_of(part);
    if p.len() > 0 && p[0] == '/' {
        return part.to_owned();
    }
    let mut out = b.clone();
    if b.len() > 0 && b[b.len() - 1] != '/' {
        out.push('/');
    }
    extend_chars(&mut out, &p);
    string_of(out.as_slice())
}

/// The components `lexical_normalize` acts on: the parts between `/`s,
/// without empty and `.` parts.
pub open spec fn path_components(s: Seq<char>) -> Seq<Seq<char>> {
    keep_components(crate::text::split_on(s, '/'))
}

/// The parts that are neither empty nor `.`.
pub open spec fn keep_components(parts: Seq<Seq<char>>) -> Seq<Seq<char>>
    decreases parts.len(),
{
    if parts.len() == 0 {
        Seq::empty()
    } else {
        let r = keep_components(parts.drop_last());
        let c = parts.last();
        if c.len() > 0 && c != seq!['.'] { r.push(c) } else { r }
    }
}

/// The component stack after folding, as Node's `path.resolve` folds:
/// `..` drops the last component when that is a name; at the root of an
/// `absolute` path it is dropped itself, and on a relative path with
/// nothing left to drop it is kept.
pub open spec fn lexical_fold(comps: Seq<Seq<char>>, absolute: bool) -> Seq<Seq<char>>
    decreases comps.len(),
{
    if comps.len() == 0 {
        Seq::empty()
    } else {
        let st = lexical_fold(comps.drop_last(), absolute);
        let c = comps.last();
        if c == seq!['.', '.'] {
            if st.len() > 0 && st.last() != seq!['.', '.'] {
                st.drop_last()
            } else if absolute {
                st
            } else {
                st.push(c)
            }
        } else {
            st.push(c)
        }
    }
}

/// A path with `.` and `..` resolved lexically, as Node's `path.resolve`
/// does it: `..` never climbs above the root.
pub open spec fn spec_lexical_normalize(s: Seq<char>) -> Seq<char> {
    let absolute = s.len() > 0 && s[0] == '/';
    let body = crate::text::join_with(lexical_fold(path_components(s), absolute), '/');
    if absolute { seq!['/'] + body } else { body }
}

fn lexical_normalize(path: &Vec<char>) -> (out: Vec<char>)
    ensures
        out@ == spec_lexical_normalize(path@),
{
    let parts = crate::text::split_chars(path, '/');
    let ghost all = crate::text::seqs_of(parts@);
    let absolute = path.len() > 0 && path[0] == '/';
    let mut stack: Vec<Vec<char>> = Vec::new();
    let mut i: usize = 0;
    while i < parts.len()
        invariant
            i <= parts@.len(),
            all == crate::text::seqs_of(parts@),
            all == crate::text::split_on(path@, '/'),
            absolute == (path@.len() > 0 && path@[0] == '/'),
            crate::text::seqs_of(stack@) == lexical_fold(keep_components(all.take(i as int)), absolute),
        decreases parts@.len() - i,
    {
        let ghost pre = all.take(i as int);
        assert(all.take(i + 1) =~= pre.push(all[i as int]));
        assert(pre.push(all[i as int]).drop_last() =~= pre);
        let ghost before = crate::text::seqs_of(stack@);
        let part = &parts[i];
        let is_empty = part.len() == 0;
        let is_dot = part.len() == 1 && part[0] == '.';
        let is_dotdot = part.len() == 2 && part[0] == '.' && part[1] == '.';
        assert(is_dot == (part@ == seq!['.'])) by {
            if part@.len() == 1 {
                assert(part@ =~= seq![part@[0]]);
            }
        }
        assert(is_dotdot == (part@ == seq!['.', '.'])) by {
            if part@.len() == 2 {
                assert(part@ =~= seq![part@[0], part@[1]]);
            }
        }
        assert(all[i as int] == part@);
        let ghost kc = keep_components(pre);
        assert(keep_components(all.take(i + 1)) == if part@.len() > 0 && part@ != seq!['.'] { kc.push(part@) } else { kc });
        assert(kc.push(part@).drop_last() =~= kc);
        assert(before == lexical_fold(kc, absolute));
        if is_empty || is_dot {
        } else if is_dotdot {
            let top_is_name = stack.len() > 0 && {
                let top = &stack[stack.len() - 1];
                !(top.len() == 2 && top[0] == '.' && top[1] == '.')
            };
            proof {
                if stack@.len() > 0 {
                    let top = stack@[stack@.len() - 1]@;
                    assert(before.last() == top);
                    if top.len() == 2 {
                        assert(top == seq!['.', '.'] <==> (top[0] == '.' && top[1] == '.')) by {
                            if top[0] == '.' && top[1] == '.' {
                                assert(top =~= seq!['.', '.']);
                            }
                        }
                    }
                }
            }
            if top_is_name {
                stack.pop();
                assert(crate::text::seqs_of(stack@) =~= before.drop_last());
            } else if absolute {
            } else {
                stack.push(part.clone());
                assert(crate::text::seqs_of(stack@) =~= before.push(part@));
            }
        } else {
            stack.push(part.clone());
            assert(crate::text::seqs_of(stack@) =~= before.push(part@));
        }
        i += 1;
    }
    assert(all.take(all.len() as int) =~= all);
    let body = crate::text::join_chars(&stack, '/');
    if absolute {
        let mut out = vec!['/'];
        assert(out@ =~= seq!['/']);
        extend_chars(&mut out, &body);
        out
    } else {
        body
    }
}

/// `~`, `~/rest` and `file://` expanded, the result made absolute against
/// `base`, then `.` and `..` resolved lexically.
pub open spec fn spec_resolve_path_from_base(input: Seq<char>, base: Seq<char>, home: Seq<char>) -> Seq<char> {
    let t = spec_trim(input);
    let expanded = if t == seq!['~'] {
        home
    } else if starts_with(t, "~/"@) {
        path_push(home, t.skip(2))
    } else if starts_with(t, "file://"@) {
        t.skip(7)
    } else {
        t
    };
    let joined = if expanded.len() > 0 && expanded[0] == '/' { expanded } else { path_push(base, expanded) };
    spec_lexical_normalize(joined)
}

/// Resolves a configured path against `base`; `home` stands for `~`.
pub fn resolve_path_from_base(input: &str, base: &str, home: &str) -> (r: String)
    ensures
        r@ == spec_resolve_path_from_base(input@, base@, home@),
{
    proof {
        reveal_strlit("~/");
        reveal_strlit("file://");
        assert("~/"@.len() == 2);
        assert("file://"@.len() == 7);
    }
    let t = trim_chars(&chars_of(input));
    let expanded: String = if t.len() == 1 && t[0] == '~' {
        assert(t@ =~= seq!['~']);
        home.to_owned()
    } else if starts_with_str(&t, "~/") {
        assert(t@ != seq!['~']);
        let rest = copy_range(&t, 2, t.len());
        assert(rest@ =~= t@.skip(2));
        path_join(home, string_of(rest.as_slice()).as_str())
    } else if starts_with_str(&t, "file://") {
        assert(t@ != seq!['~']);
        let rest = copy_range(&t, 7, t.len());
        assert(rest@ =~= t@.skip(7));
        string_of(rest.as_slice())
    } else {
        assert(t@ == seq!['~'] ==> t@.len() == 1);
        string_of(t.as_slice())
    };
    let e = chars_of(expanded.as_str());
    let joined = if e.len() > 0 && e[0] == '/' { expanded } else { path_join(base, expanded.as_str()) };
    string_of(lexical_normalize(&chars_of(joined.as_str())).as_slice())
}

/// SHA-256 of a byte string.
pub uninterp spec fn sha256_digest(data: Seq<u8>) -> Seq<u8>;

/// `sha2::Sha256::digest`: the 32-byte SHA-256 digest of `data`.
#[verifier::external_body]
pub(crate) fn sha256(data: &[u8]) -> (r: Vec<u8>)
    ensures
        r@ == sha256_digest(data@),
        r@.len() == 32,
{
    sha2::Sha256::digest(data).to_vec()
}

/// The lowercase hexadecimal digit for `d < 16`.
pub open spec fn hex_char(d: int) -> char {
    if d < 10 { ((d + 48) as u8) as char } else { ((d - 10 + 97) as u8) as char }
}

pub(crate) fn hex_digit_char(d: u8) -> (c: char)
    requires
        d < 16,
    ensures
        c == hex_char(d as int),
{
    if d < 10 { (d + 48) as char } else { (d - 10 + 97) as char }
}

/// The lowercase hexadecimal digits of the first four bytes of `b`.
pub open spec fn hex8(b: Seq<u8>) -> Seq<char> {
    Seq::new(8, |i: int| if i % 2 == 0 { hex_char((b[i / 2] / 16) as int) } else { hex_char((b[i / 2] % 16) as int) })
}

/// The temporary folder for `prefix` and `suffix`:
/// `agent_dir/tmp/extensions/prefix/<8 hex digits of SHA-256 of
/// "prefix-suffix">/suffix`.
pub open spec fn spec_temporary_dir(agent_dir: Seq<char>, prefix: Seq<char>, suffix: Seq<char>) -> Seq<char> {
    let root = path_push(path_push(path_push(agent_dir, "tmp"@), "extensions"@), prefix);
    let digest = hex8(sha256_digest(vstd::utf8::encode_utf8(prefix + "-"@ + suffix)));
    path_push(path_push(root, digest), suffix)
}

pub fn temporary_dir(agent_dir: &str, prefix: &str, suffix: Option<&str>) -> (r: String)
    ensures
        r@ == spec_temporary_dir(agent_dir@, prefix@, match suffix { Some(s) => s@, None => Seq::<char>::empty() }),
{
    let sfx: &str = match suffix {
        Some(s) => s,
        None => "",
    };
    proof {
        reveal_strlit("");
    }
    let root = path_join(path_join(path_join(agent_dir, "tmp").as_str(), "extensions").as_str(), prefix);
    let mut text = chars_of(prefix);
    text.push('-');
    extend_chars(&mut text, &chars_of(sfx));
    let text_s = string_of(text.as_slice());
    proof {
        reveal_strlit("-");
        assert(text_s@ =~= prefix@ + "-"@ + sfx@);
    }
    let bytes = text_s.as_str().as_bytes();
    let hash = sha256(bytes);
    let mut digest: Vec<char> = Vec::new();
    let mut k: usize = 0;
    while k < 4
        invariant
            k <= 4,
            hash@.len() == 32,
            digest@.len() == 2 * k,
            forall|j: int| 0 <= j < 2 * k ==> digest@[j] == hex8(hash@)[j],
        decreases 4 - k,
    {
        let byte = hash[k];
        digest.push(hex_digit_char(byte / 16));
        digest.push(hex_digit_char(byte % 16));
        k += 1;
    }
    assert(digest@ =~= hex8(hash@));
    path_join(path_join(root.as_str(), string_of(digest.as_slice()).as_str()).as_str(), sfx)
}

/// The npm install root of a scope (a temporary one when asked).
pub fn npm_install_root(scope: Scope, temporary: bool, cwd: &str, agent_dir: &str) -> (r: String)
    ensures
        r@ == (if temporary || scope == Scope::Temporary {
            spec_temporary_dir(agent_dir@, "npm"@, Seq::<char>::empty())
        } else if scope == Scope::Project {
            path_push(path_push(cwd@, ".pi"@), "npm"@)
        } else {
            path_push(agent_dir@, "npm"@)
        }),
{
    if temporary {
        return temporary_dir(agent_dir, "npm", None);
    }
    match scope {
        Scope::Project => path_join(path_join(cwd, CONFIG_DIR_NAME).as_str(), "npm"),
        Scope::User => path_join(agent_dir, "npm"),
        Scope::Temporary => temporary_dir(agent_dir, "npm", None),
    }
}

/// The Git install root of a scope; temporary installs have none.
pub fn git_install_root(scope: Scope, cwd: &str, agent_dir: &str) -> (r: Option<String>)
    ensures
        scope == Scope::Temporary ==> r is None,
        scope == Scope::Project ==> (r matches Some(p) && p@ == path_push(path_push(cwd@, ".pi"@), "git"@)),
        scope == Scope::User ==> (r matches Some(p) && p@ == path_push(agent_dir@, "git"@)),
{
    match scope {
        Scope::Temporary => None,
        Scope::Project => Some(path_join(path_join(cwd, CONFIG_DIR_NAME).as_str(), "git")),
        Scope::User => Some(path_join(agent_dir, "git")),
    }
}

/// The folder a scope's local paths are relative to.
pub fn base_dir_for_scope(scope: Scope, cwd: &str, agent_dir: &str) -> (r: String)
    ensures
        scope == Scope::Project ==> r@ == path_push(cwd@, ".pi"@),
        scope == Scope::User ==> r@ == agent_dir@,
        scope == Scope::Temporary ==> r@ == cwd@,
{
    match scope {
        Scope::Project => path_join(cwd, CONFIG_DIR_NAME),
        Scope::User => agent_dir.to_owned(),
        Scope::Temporary => cwd.to_owned(),
    }
}

/// Where an npm package of a scope is installed:
/// `<npm root>/node_modules/<name>`.
pub fn managed_npm_install_path(source: &NpmSource, scope: Scope, cwd: &str, agent_dir: &str) -> (r: String)
    ensures
        r@ == path_push(path_push(
            (if scope == Scope::Temporary {
                spec_temporary_dir(agent_dir@, "npm"@, Seq::<char>::empty())
            } else if scope == Scope::Project {
                path_push(path_push(cwd@, ".pi"@), "npm"@)
            } else {
                path_push(agent_dir@, "npm"@)
            }), "node_modules"@), source.name@),
{
    let root = npm_install_root(scope, scope == Scope::Temporary, cwd, agent_dir);
    path_join(path_join(root.as_str(), "node_modules").as_str(), source.name.as_str())
}

/// The identity of a source, which ignores versions and refs:
/// `npm:<name>`, `git:<host>/<path>`, or `local:<resolved path>` (against
/// the scope's base folder).
pub fn package_identity(source: &ParsedSource, scope: Scope, cwd: &str, agent_dir: &str, home: &str) -> (r: String)
    ensures
        source matches ParsedSource::Npm(n) ==> r@ == "npm:"@ + n.name@,
        source matches ParsedSource::Git(g) ==> r@ == "git:"@ + g.host@ + "/"@ + g.path@,
        source matches ParsedSource::Local(l) ==> r@ == "local:"@ + spec_resolve_path_from_base(l.path@,
            (if scope == Scope::Project { path_push(cwd@, ".pi"@) } else if scope == Scope::User { agent_dir@ } else { cwd@ }), home@),
{
    let mut out: Vec<char>;
    match source {
        ParsedSource::Npm(n) => {
            out = chars_of("npm:");
            extend_chars(&mut out, &chars_of(n.name.as_str()));
        },
        ParsedSource::Git(g) => {
            out = chars_of("git:");
            extend_chars(&mut out, &chars_of(g.host.as_str()));
            extend_chars(&mut out, &chars_of("/"));
            extend_chars(&mut out, &chars_of(g.path.as_str()));
        },
        ParsedSource::Local(l) => {
            let base = base_dir_for_scope(scope, cwd, agent_dir);
            let resolved = resolve_path_from_base(l.path.as_str(), base.as_str(), home);
            out = chars_of("local:");
            extend_chars(&mut out, &chars_of(resolved.as_str()));
        },
    }
    string_of(out.as_slice())
}
} // verus!
