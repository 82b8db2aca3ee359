//! Host-side path helpers: `~` expansion, optional normalization of
//! Unicode spaces, and resolution against a base folder. The home folder
//! and the process's working folder come from the environment and are
//! passed in.

use vstd::prelude::*;

use crate::path::{resolve, spec_join, spec_resolve, strings_view};
use crate::text::{chars_of, string_of};

verus! {

/// The Unicode spaces that path input may hold in place of a plain space.
pub open spec fn spec_unicode_space(c: char) -> bool {
    c == '\u{A0}' || ('\u{2000}' <= c && c <= '\u{200A}') || c == '\u{202F}' || c == '\u{205F}' || c == '\u{3000}'
}

pub fn is_unicode_space(c: char) -> (r: bool)
    ensures
        r == spec_unicode_space(c),
{
    c == '\u{A0}' || ('\u{2000}' <= c && c <= '\u{200A}') || c == '\u{202F}' || c == '\u{205F}' || c == '\u{3000}'
}

/// `s` with every Unicode space replaced by a plain space.
pub open spec fn spaces_normalized(s: Seq<char>) -> Seq<char> {
    Seq::new(s.len(), |i: int| if spec_unicode_space(s[i]) { ' ' } else { s[i] })
}

/// Path input normalized: Unicode spaces optionally made plain, then `~`
/// is the home folder and `~/rest` lies under it.
pub open spec fn spec_normalize_path(input: Seq<char>, unicode_spaces: bool, home: Seq<char>) -> Seq<char> {
    let n = if unicode_spaces { spaces_normalized(input) } else { input };
    if n == seq!['~'] {
        home
    } else if n.len() >= 2 && n[0] == '~' && n[1] == '/' {
        spec_join(seq![home, n.skip(2)])
    } else {
        n
    }
}

pub fn normalize_path(input: &str, normalize_unicode_spaces: bool, home: &str) -> (r: String)
    ensures
        r@ == spec_normalize_path(input@, normalize_unicode_spaces, home@),
{
    let v = chars_of(input);
    let mut n: Vec<char> = Vec::new();
    let mut i: usize = 0;
    while i < v.len()
        invariant
            i <= v@.len(),
            n@.len() == i,
            forall|k: int| 0 <= k < i ==> n@[k] == (if normalize_unicode_spaces && spec_unicode_space(v@[k]) { ' ' } else { v@[k] }),
        decreases v@.len() - i,
    {
        let c = v[i];
        if normalize_unicode_spaces && is_unicode_space(c) {
            n.push(' ');
        } else {
            n.push(c);
        }
        i += 1;
    }
    let ghost want = if normalize_unicode_spaces { spaces_normalized(input@) } else { input@ };
    assert(n@ =~= want);
    if n.len() == 1 && n[0] == '~' {
        assert(n@ =~= seq!['~']);
        return home.to_owned();
    }
    if n.len() >= 2 && n[0] == '~' && n[1] == '/' {
        assert(n@ != seq!['~']);
        let mut rest: Vec<char> = Vec::new();
        let mut j: usize = 2;
        while j < n.len()
            invariant
                2 <= j <= n@.len(),
                rest@ == n@.subrange(2, j as int),
            decreases n@.len() - j,
        {
            rest.push(n[j]);
            assert(n@.subrange(2, j + 1) =~= n@.subrange(2, j as int).push(n@[j as int]));
            j += 1;
        }
        let parts = vec![home.to_owned(), string_of(rest.as_slice())];
        assert(strings_view(parts@) =~= seq![home@, n@.skip(2)]);
        return crate::path::join(parts.as_slice());
    }
    proof {
        if n@ == seq!['~'] {
            assert(n@.len() == 1);
        }
    }
    string_of(n.as_slice())
}

/// Input resolved against a base folder: both normalized, then Node's
/// `path.resolve(base, input)` (an absolute input wins).
pub open spec fn spec_resolve_path(input: Seq<char>, base: Seq<char>, unicode_spaces: bool, home: Seq<char>, cwd: Seq<char>) -> Seq<char> {
    spec_resolve(seq![spec_normalize_path(base, false, home), spec_normalize_path(input, unicode_spaces, home)], cwd)
}

pub fn resolve_path(input: &str, base_dir: &str, normalize_unicode_spaces: bool, home: &str, cwd: &str) -> (r: String)
    ensures
        r@ == spec_resolve_path(input@, base_dir@, normalize_unicode_spaces, home@, cwd@),
{
    let normalized = normalize_path(input, normalize_unicode_spaces, home);
    let base = normalize_path(base_dir, false, home);
    let parts = vec![base, normalized];
    proof {
        assert(strings_view(parts@) =~= seq![spec_normalize_path(base_dir@, false, home@), spec_normalize_path(input@, normalize_unicode_spaces, home@)]);
    }
    resolve(parts.as_slice(), cwd)
}

} // verus!
