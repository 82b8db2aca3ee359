//! Resource discovery rules: resource kinds, provenance and precedence,
//! glob and gitignore-style matching, pattern overrides and selectors.
//!
//! Walking directories and resolving symbolic links are the file
//! system's part; functions that need them take the answers as
//! arguments or as a callback.

use vstd::prelude::*;

use crate::packages::{keep_components, Scope};
use crate::text::{chars_eq, chars_of, concat_chars, copy_range, extend_chars, spec_trim, starts_with, string_of, trim_chars};

verus! {

/// The four kinds of resources, in their fixed order.
#[derive(Debug, Clone, Copy, PartialEq, Eq, Structural, PartialOrd, Ord, Hash)]
pub enum ResourceType {
    Extensions,
    Skills,
    Prompts,
    Themes,
}

/// The name of a resource kind.
pub open spec fn resource_type_name(k: ResourceType) -> Seq<char> {
    match k {
        ResourceType::Extensions => "extensions"@,
        ResourceType::Skills => "skills"@,
        ResourceType::Prompts => "prompts"@,
        ResourceType::Themes => "themes"@,
    }
}

impl ResourceType {
    pub fn name(self) -> (r: &'static str)
        ensures
            r@ == resource_type_name(self),
    {
        match self {
            ResourceType::Extensions => "extensions",
            ResourceType::Skills => "skills",
            ResourceType::Prompts => "prompts",
            ResourceType::Themes => "themes",
        }
    }

    /// Every kind, in order.
    pub fn all() -> (r: [ResourceType; 4])
        ensures
            r@ == seq![ResourceType::Extensions, ResourceType::Skills, ResourceType::Prompts, ResourceType::Themes],
    {
        let r = [ResourceType::Extensions, ResourceType::Skills, ResourceType::Prompts, ResourceType::Themes];
        assert(r@ =~= seq![ResourceType::Extensions, ResourceType::Skills, ResourceType::Prompts, ResourceType::Themes]);
        r
    }
}

/// Where a resource comes from: a package, or a top-level root.
#[derive(Debug, Clone, Copy, PartialEq, Eq, Structural)]
pub enum Origin {
    Package,
    TopLevel,
}

/// A resource's provenance: its source (`"local"`, `"auto"` or a package
/// source), scope, origin and the folder its patterns are relative to.
pub struct PathMetadata {
    pub source: String,
    pub scope: Scope,
    pub origin: Origin,
    pub base_dir: Option<String>,
}

/// A resolved resource file and whether it is enabled.
pub struct ResolvedResource {
    pub path: String,
    pub enabled: bool,
    pub metadata: PathMetadata,
}

/// The resolved resources of every kind.
pub struct ResolvedPaths {
    pub extensions: Vec<ResolvedResource>,
    pub skills: Vec<ResolvedResource>,
    pub prompts: Vec<ResolvedResource>,
    pub themes: Vec<ResolvedResource>,
}

impl ResolvedPaths {
    /// The resources of one kind.
    pub fn for_type(&self, kind: ResourceType) -> (r: &[ResolvedResource])
        ensures
            r@ == match kind {
                ResourceType::Extensions => self.extensions@,
                ResourceType::Skills => self.skills@,
                ResourceType::Prompts => self.prompts@,
                ResourceType::Themes => self.themes@,
            },
    {
        match kind {
            ResourceType::Extensions => self.extensions.as_slice(),
            ResourceType::Skills => self.skills.as_slice(),
            ResourceType::Prompts => self.prompts.as_slice(),
            ResourceType::Themes => self.themes.as_slice(),
        }
    }
}

/// Precedence rank (lower wins): project local 0, project auto 1, user
/// local 2, user auto 3, package resources 4.
pub open spec fn spec_precedence_rank(origin: Origin, scope: Scope, source: Seq<char>) -> u8 {
    if origin == Origin::Package {
        4
    } else {
        let scope_base: u8 = if scope == Scope::Project { 0 } else { 2 };
        (scope_base + if source == "local"@ { 0u8 } else { 1u8 }) as u8
    }
}

pub fn precedence_rank(metadata: &PathMetadata) -> (r: u8)
    ensures
        r == spec_precedence_rank(metadata.origin, metadata.scope, metadata.source@),
{
    if metadata.origin == Origin::Package {
        return 4;
    }
    let scope_base: u8 = if metadata.scope == Scope::Project { 0 } else { 2 };
    scope_base + if chars_eq(&chars_of(metadata.source.as_str()), &chars_of("local")) { 0 } else { 1 }
}

// ---------------------------------------------------------------------------
// Globs
// ---------------------------------------------------------------------------

/// The index of the first pattern character at or after `i` that is not
/// `*`.
pub open spec fn skip_stars(pat: Seq<char>, i: int) -> int
    decreases pat.len() - i,
{
    if 0 <= i < pat.len() && pat[i] == '*' { skip_stars(pat, i + 1) } else { i }
}

/// The index of the first `/` at or after `t`, or the end.
pub open spec fn segment_end(text: Seq<char>, t: int) -> int
    decreases text.len() - t,
{
    if 0 <= t < text.len() && text[t] != '/' { segment_end(text, t + 1) } else { t }
}

/// Whether `pat[p..]` matches `text[t..]`: `*` matches within a path
/// segment, `**` across segments (and `**/` also stands for no leading
/// folder at all), `?` one character other than `/`, any other character
/// itself.
pub open spec fn glob(pat: Seq<char>, p: int, text: Seq<char>, t: int) -> bool
    decreases pat.len() - p, 0int, 0int,
{
    if p < 0 || p >= pat.len() {
        t == text.len()
    } else if pat[p] == '*' {
        if p + 1 < pat.len() && pat[p + 1] == '*' {
            proof {
                lemma_skip_stars(pat, p + 2);
            }
            let q = skip_stars(pat, p + 2);
            star_any(pat, q, text, t, text.len() as int)
                || (q < pat.len() && pat[q] == '/' && glob(pat, q + 1, text, t))
        } else {
            star_any(pat, p + 1, text, t, segment_end(text, t))
        }
    } else if pat[p] == '?' {
        0 <= t < text.len() && text[t] != '/' && glob(pat, p + 1, text, t + 1)
    } else {
        0 <= t < text.len() && text[t] == pat[p] && glob(pat, p + 1, text, t + 1)
    }
}

/// Whether `pat[q..]` matches `text[at..]` for some `at` in
/// `from..=to`.
pub open spec fn star_any(pat: Seq<char>, q: int, text: Seq<char>, from: int, to: int) -> bool
    decreases pat.len() - q, 1int, to - from,
{
    if from > to {
        false
    } else {
        glob(pat, q, text, from) || (from < to && star_any(pat, q, text, from + 1, to))
    }
}

pub proof fn lemma_skip_stars(pat: Seq<char>, i: int)
    requires
        0 <= i,
    ensures
        i <= skip_stars(pat, i),
        skip_stars(pat, i) <= pat.len() || skip_stars(pat, i) == i,
    decreases pat.len() - i,
{
    if 0 <= i < pat.len() && pat[i] == '*' {
        lemma_skip_stars(pat, i + 1);
    }
}

proof fn lemma_segment_end(text: Seq<char>, t: int)
    requires
        0 <= t <= text.len(),
    ensures
        t <= segment_end(text, t) <= text.len(),
    decreases text.len() - t,
{
    if t < text.len() && text[t] != '/' {
        lemma_segment_end(text, t + 1);
    }
}

fn glob_match_rec(pattern: &Vec<char>, p: usize, text: &Vec<char>, t: usize) -> (r: bool)
    requires
        p <= pattern@.len(),
        t <= text@.len(),
    ensures
        r == glob(pattern@, p as int, text@, t as int),
    decreases pattern@.len() - p,
{
    let plen = pattern.len();
    let tlen = text.len();
    if p == plen {
        return t == tlen;
    }
    let ch = pattern[p];
    if ch == '*' {
        if p + 1 < plen && pattern[p + 1] == '*' {
            let mut next = p + 2;
            while next < plen && pattern[next] == '*'
                invariant
                    plen == pattern@.len(),
                    p + 2 <= next <= pattern@.len(),
                    skip_stars(pattern@, p + 2) == skip_stars(pattern@, next as int),
                decreases pattern@.len() - next,
            {
                next += 1;
            }
            assert(skip_stars(pattern@, next as int) == next as int);
            if next < plen && pattern[next] == '/' && glob_match_rec(pattern, next + 1, text, t) {
                return true;
            }
            assert(glob(pattern@, p as int, text@, t as int) == star_any(pattern@, next as int, text@, t as int, text@.len() as int));
            let ghost goal = star_any(pattern@, next as int, text@, t as int, text@.len() as int);
            let mut at = t;
            loop
                invariant
                    plen == pattern@.len(),
                    tlen == text@.len(),
                    t <= at <= text@.len(),
                    p + 2 <= next <= pattern@.len(),
                    goal == glob(pattern@, p as int, text@, t as int),
                    goal == star_any(pattern@, next as int, text@, at as int, text@.len() as int),
                decreases text@.len() - at,
            {
                if glob_match_rec(pattern, next, text, at) {
                    return true;
                }
                if at >= tlen {
                    return false;
                }
                at += 1;
            }
        }
        proof {
            lemma_segment_end(text@, t as int);
        }
        let ghost e = segment_end(text@, t as int);
        assert(glob(pattern@, p as int, text@, t as int) == star_any(pattern@, p + 1, text@, t as int, e));
        let ghost goal = star_any(pattern@, p + 1, text@, t as int, e);
        let mut at = t;
        loop
            invariant
                plen == pattern@.len(),
                tlen == text@.len(),
                t <= at <= e,
                e <= text@.len(),
                e == segment_end(text@, at as int),
                p < pattern@.len(),
                goal == glob(pattern@, p as int, text@, t as int),
                goal == star_any(pattern@, p + 1, text@, at as int, e),
            decreases text@.len() - at,
        {
            if glob_match_rec(pattern, p + 1, text, at) {
                return true;
            }
            if at >= tlen || text[at] == '/' {
                return false;
            }
            proof {
                lemma_segment_end(text@, at + 1);
            }
            at += 1;
        }
    } else if ch == '?' {
        if t < tlen && text[t] != '/' {
            glob_match_rec(pattern, p + 1, text, t + 1)
        } else {
            false
        }
    } else {
        t < tlen && text[t] == ch && glob_match_rec(pattern, p + 1, text, t + 1)
    }
}

/// Whether a glob pattern matches a whole text.
pub fn glob_match(pattern: &str, text: &str) -> (r: bool)
    ensures
        r == glob(pattern@, 0, text@, 0),
{
    glob_match_rec(&chars_of(pattern), 0, &chars_of(text), 0)
}


// ---------------------------------------------------------------------------
// Paths as component lists
// ---------------------------------------------------------------------------

/// The root component, written `/`.
pub open spec fn root_comp() -> Seq<char> {
    seq!['/']
}

/// The components of a path: the root (as `/`) when it is absolute,
/// then its parts without empty and `.` parts.
pub open spec fn all_comps(s: Seq<char>) -> Seq<Seq<char>> {
    let parts = keep_components(crate::text::split_on(s, '/'));
    if s.len() > 0 && s[0] == '/' { seq![root_comp()] + parts } else { parts }
}

/// A path written from its components.
pub open spec fn render(cs: Seq<Seq<char>>) -> Seq<char> {
    if cs.len() > 0 && cs[0] == root_comp() {
        seq!['/'] + crate::text::join_with(cs.skip(1), '/')
    } else {
        crate::text::join_with(cs, '/')
    }
}

/// `Path::strip_prefix`: the rest of `file` after the components of
/// `base`, when they lead it.
pub open spec fn strip_prefix(file: Seq<char>, base: Seq<char>) -> Option<Seq<char>> {
    let f = all_comps(file);
    let b = all_comps(base);
    if b.len() <= f.len() && f.take(b.len() as int) == b { Some(render(f.skip(b.len() as int))) } else { None }
}

/// `Path::file_name`: the last component unless it is the root or `..`.
pub open spec fn file_name(s: Seq<char>) -> Option<Seq<char>> {
    let c = all_comps(s);
    if c.len() > 0 && c.last() != root_comp() && c.last() != seq!['.', '.'] { Some(c.last()) } else { None }
}

/// `Path::parent`: the path without its last component, unless it is
/// empty or just the root.
pub open spec fn parent(s: Seq<char>) -> Option<Seq<char>> {
    let c = all_comps(s);
    if c.len() == 0 || c.last() == root_comp() { None } else { Some(render(c.drop_last())) }
}

/// `s` with `\` replaced by `/`.
pub open spec fn slashes(s: Seq<char>) -> Seq<char> {
    Seq::new(s.len(), |i: int| if s[i] == '\\' { '/' } else { s[i] })
}

fn slashes_chars(v: &Vec<char>) -> (out: Vec<char>)
    ensures
        out@ == slashes(v@),
{
    let mut out: Vec<char> = Vec::new();
    let mut i: usize = 0;
    while i < v.len()
        invariant
            i <= v@.len(),
            out@.len() == i,
            forall|k: int| 0 <= k < i ==> out@[k] == (if v@[k] == '\\' { '/' } else { v@[k] }),
        decreases v@.len() - i,
    {
        out.push(if v[i] == '\\' { '/' } else { v[i] });
        i += 1;
    }
    assert(out@ =~= slashes(v@));
    out
}

fn dup(v: &Vec<char>) -> (out: Vec<char>)
    ensures
        out@ == v@,
{
    copy_range(v, 0, v.len())
}

fn components(s: &Vec<char>) -> (out: Vec<Vec<char>>)
    ensures
        crate::text::seqs_of(out@) == all_comps(s@),
{
    let parts = crate::text::split_chars(s, '/');
    let ghost all = crate::text::seqs_of(parts@);
    let mut out: Vec<Vec<char>> = Vec::new();
    if s.len() > 0 && s[0] == '/' {
        let r = vec!['/'];
        assert(r@ =~= root_comp());
        out.push(r);
        assert(crate::text::seqs_of(out@) =~= seq![root_comp()]);
    }
    let ghost lead = crate::text::seqs_of(out@);
    let mut i: usize = 0;
    assert(all.take(0) =~= Seq::<Seq<char>>::empty());
    assert(lead + keep_components(all.take(0)) =~= lead);
    while i < parts.len()
        invariant
            i <= parts@.len(),
            all == crate::text::seqs_of(parts@),
            crate::text::seqs_of(out@) == lead + keep_components(all.take(i as int)),
        decreases parts@.len() - i,
    {
        let ghost pre = all.take(i as int);
        assert(all.take(i + 1) =~= pre.push(all[i as int]));
        assert(pre.push(all[i as int]).drop_last() =~= pre);
        let part = &parts[i];
        let keep = !(part.len() == 0 || (part.len() == 1 && part[0] == '.'));
        assert(keep == (part@.len() > 0 && part@ != seq!['.'])) by {
            if part@.len() == 1 {
                assert(part@ =~= seq![part@[0]]);
            }
        }
        let ghost before = crate::text::seqs_of(out@);
        if keep {
            out.push(dup(part));
            assert(crate::text::seqs_of(out@) =~= before.push(part@));
        }
        i += 1;
    }
    assert(all.take(all.len() as int) =~= all);
    out
}

fn render_chars(cs: &Vec<Vec<char>>, from: usize) -> (out: Vec<char>)
    requires
        from <= cs@.len(),
    ensures
        out@ == render(crate::text::seqs_of(cs@).skip(from as int)),
{
    let mut rest: Vec<Vec<char>> = Vec::new();
    let mut i = from;
    while i < cs.len()
        invariant
            from <= i <= cs@.len(),
            crate::text::seqs_of(rest@) == crate::text::seqs_of(cs@).subrange(from as int, i as int),
        decreases cs@.len() - i,
    {
        let ghost before = crate::text::seqs_of(rest@);
        let d = dup(&cs[i]);
        rest.push(d);
        assert(crate::text::seqs_of(rest@) =~= before.push(cs@[i as int]@));
        assert(crate::text::seqs_of(cs@).subrange(from as int, i + 1) =~= crate::text::seqs_of(cs@).subrange(from as int, i as int).push(cs@[i as int]@));
        i += 1;
    }
    let ghost r = crate::text::seqs_of(rest@);
    assert(r =~= crate::text::seqs_of(cs@).skip(from as int));
    if rest.len() > 0 && rest[0].len() == 1 && rest[0][0] == '/' {
        assert(r[0] =~= root_comp());
        let mut tail: Vec<Vec<char>> = Vec::new();
        let mut j: usize = 1;
        while j < rest.len()
            invariant
                1 <= j <= rest@.len(),
                crate::text::seqs_of(tail@) == r.subrange(1, j as int),
                r == crate::text::seqs_of(rest@),
            decreases rest@.len() - j,
        {
            let ghost before = crate::text::seqs_of(tail@);
            let d = dup(&rest[j]);
            tail.push(d);
            assert(crate::text::seqs_of(tail@) =~= before.push(rest@[j as int]@));
            assert(r.subrange(1, j + 1) =~= r.subrange(1, j as int).push(rest@[j as int]@));
            j += 1;
        }
        assert(r.skip(1) =~= r.subrange(1, rest@.len() as int));
        let mut out = vec!['/'];
        extend_chars(&mut out, &crate::text::join_chars(&tail, '/'));
        assert(out@ =~= seq!['/'] + crate::text::join_with(r.skip(1), '/'));
        out
    } else {
        assert(rest@.len() > 0 ==> (r[0] == root_comp() ==> rest@[0]@.len() == 1 && rest@[0]@[0] == '/'));
        crate::text::join_chars(&rest, '/')
    }
}

/// The path relative to `base` (`\` made `/`), or the whole path when
/// `base` does not lead it.
pub open spec fn spec_rel_path(base: Seq<char>, file: Seq<char>) -> Seq<char> {
    slashes(match strip_prefix(file, base) {
        Some(r) => r,
        None => file,
    })
}

fn strip_prefix_chars(file: &Vec<char>, base: &Vec<char>) -> (r: Option<Vec<char>>)
    ensures
        match (r, strip_prefix(file@, base@)) {
            (Some(a), Some(b)) => a@ == b,
            (None, None) => true,
            _ => false,
        },
{
    let f = components(file);
    let b = components(base);
    if b.len() > f.len() {
        assert(strip_prefix(file@, base@) is None);
        return None;
    }
    let mut i: usize = 0;
    while i < b.len()
        invariant
            b@.len() <= f@.len(),
            i <= b@.len(),
            crate::text::seqs_of(f@) == all_comps(file@),
            crate::text::seqs_of(b@) == all_comps(base@),
            forall|k: int| 0 <= k < i ==> f@[k]@ == b@[k]@,
        decreases b@.len() - i,
    {
        if !chars_eq(&f[i], &b[i]) {
            assert(crate::text::seqs_of(f@).take(b@.len() as int)[i as int] != crate::text::seqs_of(b@)[i as int]);
            assert(crate::text::seqs_of(f@).take(b@.len() as int) != crate::text::seqs_of(b@));
            assert(strip_prefix(file@, base@) is None);
            return None;
        }
        i += 1;
    }
    assert(crate::text::seqs_of(f@).take(b@.len() as int) =~= crate::text::seqs_of(b@));
    Some(render_chars(&f, b.len()))
}

pub fn rel_path(base: &str, file: &str) -> (r: String)
    ensures
        r@ == spec_rel_path(base@, file@),
{
    let f = chars_of(file);
    let picked = match strip_prefix_chars(&f, &chars_of(base)) {
        Some(rest) => rest,
        None => f,
    };
    string_of(slashes_chars(&picked).as_slice())
}

fn file_name_chars(s: &Vec<char>) -> (r: Vec<char>)
    ensures
        r@ == match file_name(s@) { Some(n) => n, None => Seq::<char>::empty() },
{
    let c = components(s);
    let n = c.len();
    if n > 0 {
        let last = &c[n - 1];
        let is_root = last.len() == 1 && last[0] == '/';
        let is_up = last.len() == 2 && last[0] == '.' && last[1] == '.';
        assert(is_root == (last@ == root_comp())) by {
            if last@.len() == 1 {
                assert(last@ =~= seq![last@[0]]);
            }
        }
        assert(is_up == (last@ == seq!['.', '.'])) by {
            if last@.len() == 2 {
                assert(last@ =~= seq![last@[0], last@[1]]);
            }
        }
        assert(crate::text::seqs_of(c@).last() == last@);
        if !is_root && !is_up {
            return dup(last);
        }
    }
    Vec::new()
}

fn parent_chars(s: &Vec<char>) -> (r: Option<Vec<char>>)
    ensures
        match (r, parent(s@)) {
            (Some(a), Some(b)) => a@ == b,
            (None, None) => true,
            _ => false,
        },
{
    let c = components(s);
    let n = c.len();
    if n == 0 {
        return None;
    }
    let last = &c[n - 1];
    let is_root = last.len() == 1 && last[0] == '/';
    assert(is_root == (last@ == root_comp())) by {
        if last@.len() == 1 {
            assert(last@ =~= seq![last@[0]]);
        }
    }
    assert(crate::text::seqs_of(c@).last() == last@);
    if is_root {
        return None;
    }
    let mut init: Vec<Vec<char>> = Vec::new();
    let mut i: usize = 0;
    while i < n - 1
        invariant
            n == c@.len(),
            n >= 1,
            i <= n - 1,
            crate::text::seqs_of(init@) == crate::text::seqs_of(c@).take(i as int),
        decreases n - 1 - i,
    {
        let ghost before = crate::text::seqs_of(init@);
        let d = dup(&c[i]);
        init.push(d);
        assert(crate::text::seqs_of(init@) =~= before.push(c@[i as int]@));
        assert(crate::text::seqs_of(c@).take(i + 1) =~= crate::text::seqs_of(c@).take(i as int).push(c@[i as int]@));
        i += 1;
    }
    assert(crate::text::seqs_of(c@).take((n - 1) as int) =~= crate::text::seqs_of(c@).drop_last());
    assert(crate::text::seqs_of(init@).skip(0) =~= crate::text::seqs_of(init@));
    Some(render_chars(&init, 0))
}

// ---------------------------------------------------------------------------
// Patterns
// ---------------------------------------------------------------------------

/// The file suffix of each kind: `.lua` extensions, `.md` skills and
/// prompts, `.json` themes.
pub open spec fn spec_file_pattern(k: ResourceType) -> Seq<char> {
    match k {
        ResourceType::Extensions => ".lua"@,
        ResourceType::Skills => ".md"@,
        ResourceType::Prompts => ".md"@,
        ResourceType::Themes => ".json"@,
    }
}

pub fn file_pattern(kind: ResourceType) -> (r: &'static str)
    ensures
        r@ == spec_file_pattern(kind),
{
    match kind {
        ResourceType::Extensions => ".lua",
        ResourceType::Skills => ".md",
        ResourceType::Prompts => ".md",
        ResourceType::Themes => ".json",
    }
}

/// Whether a file name ends with the suffix.
pub fn simple_suffix_match(pattern: &str, name: &str) -> (r: bool)
    ensures
        r == crate::path::ends_with(name@, pattern@),
{
    let n = chars_of(name);
    let p = chars_of(pattern);
    if p.len() > n.len() {
        return false;
    }
    let tail = copy_range(&n, n.len() - p.len(), n.len());
    assert(tail@ =~= n@.skip(n@.len() - p@.len()));
    chars_eq(&tail, &p)
}

/// Whether an entry is an override (`!`, `+` or `-` first).
pub open spec fn spec_is_override(e: Seq<char>) -> bool {
    e.len() > 0 && (e[0] == '!' || e[0] == '+' || e[0] == '-')
}

/// Whether an entry is a pattern: an override or one holding `*` or `?`.
pub open spec fn spec_is_pattern(e: Seq<char>) -> bool {
    spec_is_override(e) || e.contains('*') || e.contains('?')
}

pub fn is_override_pattern(entry: &str) -> (r: bool)
    ensures
        r == spec_is_override(entry@),
{
    let e = chars_of(entry);
    e.len() > 0 && (e[0] == '!' || e[0] == '+' || e[0] == '-')
}

pub fn is_pattern(entry: &str) -> (r: bool)
    ensures
        r == spec_is_pattern(entry@),
{
    let e = chars_of(entry);
    is_override_pattern(entry) || crate::text::contains_char(&e, '*') || crate::text::contains_char(&e, '?')
}

fn copy_string(s: &String) -> (r: String)
    ensures
        r@ == s@,
{
    string_of(chars_of(s.as_str()).as_slice())
}

/// Splits entries into plain entries and patterns, each in order.
pub fn split_patterns(entries: &Vec<String>) -> (r: (Vec<String>, Vec<String>))
    ensures
        crate::path::strings_view(r.0@) == crate::path::strings_view(entries@).filter(|e: Seq<char>| !spec_is_pattern(e)),
        crate::path::strings_view(r.1@) == crate::path::strings_view(entries@).filter(|e: Seq<char>| spec_is_pattern(e)),
{
    let ghost all = crate::path::strings_view(entries@);
    let mut plain: Vec<String> = Vec::new();
    let mut patterns: Vec<String> = Vec::new();
    let mut i: usize = 0;
    while i < entries.len()
        invariant
            i <= entries@.len(),
            all == crate::path::strings_view(entries@),
            crate::path::strings_view(plain@) == all.take(i as int).filter(|e: Seq<char>| !spec_is_pattern(e)),
            crate::path::strings_view(patterns@) == all.take(i as int).filter(|e: Seq<char>| spec_is_pattern(e)),
        decreases entries@.len() - i,
    {
        let ghost pre = all.take(i as int);
        assert(all.take(i + 1) =~= pre.push(all[i as int]));
        proof {
            pre.lemma_filter_push(all[i as int], |e: Seq<char>| !spec_is_pattern(e));
            pre.lemma_filter_push(all[i as int], |e: Seq<char>| spec_is_pattern(e));
        }
        let ghost bp = crate::path::strings_view(plain@);
        let ghost bq = crate::path::strings_view(patterns@);
        if is_pattern(entries[i].as_str()) {
            patterns.push(copy_string(&entries[i]));
            assert(crate::path::strings_view(patterns@) =~= bq.push(all[i as int]));
        } else {
            plain.push(copy_string(&entries[i]));
            assert(crate::path::strings_view(plain@) =~= bp.push(all[i as int]));
        }
        i += 1;
    }
    assert(all.take(all.len() as int) =~= all);
    (plain, patterns)
}

// ---------------------------------------------------------------------------
// Matching files against patterns
// ---------------------------------------------------------------------------

/// `o`'s string, or the empty string.
pub open spec fn or_empty(o: Option<Seq<char>>) -> Seq<char> {
    match o {
        Some(s) => s,
        None => Seq::empty(),
    }
}

/// A file's name, or empty when it has none.
pub open spec fn spec_name(file: Seq<char>) -> Seq<char> {
    or_empty(file_name(file))
}

/// Whether a file is a skill's `SKILL.md`.
pub open spec fn spec_is_skill(file: Seq<char>) -> bool {
    spec_name(file) == "SKILL.md"@
}

/// The file's folder relative to `base` (`\` made `/`), or empty when
/// there is no folder or `base` does not lead it.
pub open spec fn spec_parent_rel(file: Seq<char>, base: Seq<char>) -> Seq<char> {
    match parent(file) {
        Some(p) => match strip_prefix(p, base) {
            Some(r) => slashes(r),
            None => Seq::empty(),
        },
        None => Seq::empty(),
    }
}

/// The name of the file's folder, or empty.
pub open spec fn spec_parent_name(file: Seq<char>) -> Seq<char> {
    match parent(file) {
        Some(p) => or_empty(file_name(p)),
        None => Seq::empty(),
    }
}

/// Whether a glob pattern hits a file: its path relative to `base`, its
/// name or its whole path; for a `SKILL.md` also its folder, relative or
/// by name.
pub open spec fn pattern_hits(p: Seq<char>, file: Seq<char>, base: Seq<char>) -> bool {
    ||| glob(p, 0, spec_rel_path(base, file), 0)
    ||| glob(p, 0, spec_name(file), 0)
    ||| glob(p, 0, slashes(file), 0)
    ||| spec_is_skill(file) && (glob(p, 0, spec_parent_rel(file, base), 0) || glob(p, 0, spec_parent_name(file), 0))
}

/// An exact pattern without a leading `./`, with `\` made `/`.
pub open spec fn spec_normalize_exact(p: Seq<char>) -> Seq<char> {
    slashes(if p.len() >= 2 && p[0] == '.' && p[1] == '/' { p.skip(2) } else { p })
}

/// Whether an exact pattern names a file: its relative or whole path, or
/// for a `SKILL.md` its folder (relative, or any path ending in
/// `/` and the folder's name).
pub open spec fn exact_hits(p: Seq<char>, file: Seq<char>, base: Seq<char>) -> bool {
    let n = spec_normalize_exact(p);
    ||| n == spec_rel_path(base, file)
    ||| n == slashes(file)
    ||| spec_is_skill(file) && (n == spec_parent_rel(file, base) || crate::path::ends_with(n, seq!['/'] + spec_parent_name(file)))
}

/// Whether any of the glob patterns hits the file.
pub open spec fn spec_matches_any(file: Seq<char>, patterns: Seq<Seq<char>>, base: Seq<char>) -> bool {
    exists|i: int| 0 <= i < patterns.len() && pattern_hits(#[trigger] patterns[i], file, base)
}

/// Whether any of the exact patterns names the file.
pub open spec fn spec_matches_any_exact(file: Seq<char>, patterns: Seq<Seq<char>>, base: Seq<char>) -> bool {
    exists|i: int| 0 <= i < patterns.len() && exact_hits(#[trigger] patterns[i], file, base)
}

/// What is known of a file once, for matching it against many patterns.
struct FileKeys {
    rel: Vec<char>,
    name: Vec<char>,
    abs: Vec<char>,
    parent_rel: Vec<char>,
    parent_name: Vec<char>,
    is_skill: bool,
}

spec fn keys_of(k: FileKeys, file: Seq<char>, base: Seq<char>) -> bool {
    &&& k.rel@ == spec_rel_path(base, file)
    &&& k.name@ == spec_name(file)
    &&& k.abs@ == slashes(file)
    &&& k.parent_rel@ == spec_parent_rel(file, base)
    &&& k.parent_name@ == spec_parent_name(file)
    &&& k.is_skill == spec_is_skill(file)
}

fn file_keys(file: &str, base: &str) -> (k: FileKeys)
    ensures
        keys_of(k, file@, base@),
{
    let f = chars_of(file);
    let b = chars_of(base);
    let name = file_name_chars(&f);
    let is_skill = chars_eq(&name, &chars_of("SKILL.md"));
    let parent_rel = match parent_chars(&f) {
        Some(p) => match strip_prefix_chars(&p, &b) {
            Some(r) => slashes_chars(&r),
            None => Vec::new(),
        },
        None => Vec::new(),
    };
    let parent_name = match parent_chars(&f) {
        Some(p) => file_name_chars(&p),
        None => Vec::new(),
    };
    let rel = chars_of(rel_path(base, file).as_str());
    let abs = slashes_chars(&f);
    FileKeys { rel, name, abs, parent_rel, parent_name, is_skill }
}

fn glob_chars(pattern: &Vec<char>, text: &Vec<char>) -> (r: bool)
    ensures
        r == glob(pattern@, 0, text@, 0),
{
    glob_match_rec(pattern, 0, text, 0)
}

fn hits(p: &Vec<char>, k: &FileKeys, Ghost(file): Ghost<Seq<char>>, Ghost(base): Ghost<Seq<char>>) -> (r: bool)
    requires
        keys_of(*k, file, base),
    ensures
        r == pattern_hits(p@, file, base),
{
    if glob_chars(p, &k.rel) || glob_chars(p, &k.name) || glob_chars(p, &k.abs) {
        return true;
    }
    k.is_skill && (glob_chars(p, &k.parent_rel) || glob_chars(p, &k.parent_name))
}

fn normalize_chars(p: &Vec<char>) -> (r: Vec<char>)
    ensures
        r@ == spec_normalize_exact(p@),
{
    if p.len() >= 2 && p[0] == '.' && p[1] == '/' {
        let rest = copy_range(p, 2, p.len());
        assert(rest@ =~= p@.skip(2));
        slashes_chars(&rest)
    } else {
        slashes_chars(p)
    }
}

fn exact(p: &Vec<char>, k: &FileKeys, Ghost(file): Ghost<Seq<char>>, Ghost(base): Ghost<Seq<char>>) -> (r: bool)
    requires
        keys_of(*k, file, base),
    ensures
        r == exact_hits(p@, file, base),
{
    let n = normalize_chars(p);
    if chars_eq(&n, &k.rel) || chars_eq(&n, &k.abs) {
        return true;
    }
    if !k.is_skill {
        return false;
    }
    if chars_eq(&n, &k.parent_rel) {
        return true;
    }
    let mut suffix = vec!['/'];
    extend_chars(&mut suffix, &k.parent_name);
    assert(suffix@ =~= seq!['/'] + spec_parent_name(file));
    if suffix.len() > n.len() {
        return false;
    }
    let tail = copy_range(&n, n.len() - suffix.len(), n.len());
    assert(tail@ =~= n@.skip(n@.len() - suffix@.len()));
    chars_eq(&tail, &suffix)
}

/// Whether any glob pattern hits the file (see `pattern_hits`).
pub fn matches_any_pattern(file: &str, patterns: &Vec<String>, base_dir: &str) -> (r: bool)
    ensures
        r == spec_matches_any(file@, crate::path::strings_view(patterns@), base_dir@),
{
    let ghost ps = crate::path::strings_view(patterns@);
    let k = file_keys(file, base_dir);
    let mut i: usize = 0;
    while i < patterns.len()
        invariant
            i <= patterns@.len(),
            ps == crate::path::strings_view(patterns@),
            keys_of(k, file@, base_dir@),
            forall|j: int| 0 <= j < i ==> !pattern_hits(#[trigger] ps[j], file@, base_dir@),
        decreases patterns@.len() - i,
    {
        assert(ps[i as int] == patterns@[i as int]@);
        if hits(&chars_of(patterns[i].as_str()), &k, Ghost(file@), Ghost(base_dir@)) {
            return true;
        }
        i += 1;
    }
    false
}

/// An exact pattern without a leading `./`, with `\` made `/`.
pub fn normalize_exact_pattern(pattern: &str) -> (r: String)
    ensures
        r@ == spec_normalize_exact(pattern@),
{
    string_of(normalize_chars(&chars_of(pattern)).as_slice())
}

/// Whether any exact pattern names the file (see `exact_hits`).
pub fn matches_any_exact_pattern(file: &str, patterns: &Vec<String>, base_dir: &str) -> (r: bool)
    ensures
        r == spec_matches_any_exact(file@, crate::path::strings_view(patterns@), base_dir@),
{
    let ghost ps = crate::path::strings_view(patterns@);
    if patterns.len() == 0 {
        return false;
    }
    let k = file_keys(file, base_dir);
    let mut i: usize = 0;
    while i < patterns.len()
        invariant
            i <= patterns@.len(),
            ps == crate::path::strings_view(patterns@),
            keys_of(k, file@, base_dir@),
            forall|j: int| 0 <= j < i ==> !exact_hits(#[trigger] ps[j], file@, base_dir@),
        decreases patterns@.len() - i,
    {
        assert(ps[i as int] == patterns@[i as int]@);
        if exact(&chars_of(patterns[i].as_str()), &k, Ghost(file@), Ghost(base_dir@)) {
            return true;
        }
        i += 1;
    }
    false
}

/// The four kinds of entries in a pattern list: plain globs that
/// include, `!` globs that exclude, `+` exact paths that force a file
/// in and `-` exact paths that force it out.
#[derive(Clone, Copy, PartialEq, Eq, Structural)]
pub enum PatternClass {
    Include,
    Exclude,
    ForceInclude,
    ForceExclude,
}

/// Whether an entry begins with `c`.
pub open spec fn leads(p: Seq<char>, c: char) -> bool {
    p.len() > 0 && p[0] == c
}

/// Whether an entry of the given class hits the file.
pub open spec fn class_hit(c: PatternClass, p: Seq<char>, file: Seq<char>, base: Seq<char>) -> bool {
    match c {
        PatternClass::Include => !spec_is_override(p) && pattern_hits(p, file, base),
        PatternClass::Exclude => leads(p, '!') && pattern_hits(p.skip(1), file, base),
        PatternClass::ForceInclude => leads(p, '+') && exact_hits(p.skip(1), file, base),
        PatternClass::ForceExclude => leads(p, '-') && exact_hits(p.skip(1), file, base),
    }
}

/// Whether some entry of the class hits the file.
pub open spec fn any_class_hit(c: PatternClass, ps: Seq<Seq<char>>, file: Seq<char>, base: Seq<char>) -> bool {
    exists|i: int| 0 <= i < ps.len() && class_hit(c, #[trigger] ps[i], file, base)
}

/// Whether the list holds a plain (including) glob.
pub open spec fn has_includes(ps: Seq<Seq<char>>) -> bool {
    exists|i: int| 0 <= i < ps.len() && !spec_is_override(#[trigger] ps[i])
}

/// Whether a pattern list keeps a file: it is included (every file when
/// there are no plain globs) and not excluded, or forced in; and it is
/// not forced out.
pub open spec fn spec_applied(ps: Seq<Seq<char>>, file: Seq<char>, base: Seq<char>) -> bool {
    &&& ((!has_includes(ps) || any_class_hit(PatternClass::Include, ps, file, base))
        && !any_class_hit(PatternClass::Exclude, ps, file, base))
        || any_class_hit(PatternClass::ForceInclude, ps, file, base)
    &&& !any_class_hit(PatternClass::ForceExclude, ps, file, base)
}

/// Whether the override entries (`!`, `+`, `-`) leave a file enabled:
/// forced out wins, then forced in, then not excluded.
pub open spec fn spec_enabled_by_overrides(ps: Seq<Seq<char>>, file: Seq<char>, base: Seq<char>) -> bool {
    if any_class_hit(PatternClass::ForceExclude, ps, file, base) {
        false
    } else if any_class_hit(PatternClass::ForceInclude, ps, file, base) {
        true
    } else {
        !any_class_hit(PatternClass::Exclude, ps, file, base)
    }
}

/// The entries that begin with `c`, in order, each without that first character.
pub open spec fn stripped_entries(ps: Seq<Seq<char>>, c: char) -> Seq<Seq<char>>
    decreases ps.len(),
{
    if ps.len() == 0 {
        Seq::<Seq<char>>::empty()
    } else {
        let r = stripped_entries(ps.drop_last(), c);
        if leads(ps.last(), c) { r.push(ps.last().skip(1)) } else { r }
    }
}

proof fn lemma_stripped_entries(ps: Seq<Seq<char>>, c: char)
    ensures
        forall|q: Seq<char>| #[trigger] stripped_entries(ps, c).contains(q)
            <==> exists|i: int| 0 <= i < ps.len() && leads(#[trigger] ps[i], c) && ps[i].skip(1) == q,
    decreases ps.len(),
{
    if ps.len() > 0 {
        let init = ps.drop_last();
        lemma_stripped_entries(init, c);
        let r = stripped_entries(init, c);
        let s = stripped_entries(ps, c);
        assert forall|q: Seq<char>| #[trigger] s.contains(q)
            <==> exists|i: int| 0 <= i < ps.len() && leads(#[trigger] ps[i], c) && ps[i].skip(1) == q by {
            if s.contains(q) {
                let j = choose|j: int| 0 <= j < s.len() && s[j] == q;
                if j < r.len() {
                    assert(r.contains(q));
                    let i = choose|i: int| 0 <= i < init.len() && leads(#[trigger] init[i], c) && init[i].skip(1) == q;
                    assert(ps[i] == init[i]);
                } else {
                    assert(leads(ps[ps.len() - 1], c));
                }
            }
            if exists|i: int| 0 <= i < ps.len() && leads(#[trigger] ps[i], c) && ps[i].skip(1) == q {
                let i = choose|i: int| 0 <= i < ps.len() && leads(#[trigger] ps[i], c) && ps[i].skip(1) == q;
                if i < init.len() {
                    assert(init[i] == ps[i]);
                    assert(r.contains(q));
                    let j = choose|j: int| 0 <= j < r.len() && r[j] == q;
                    assert(s[j] == q);
                } else {
                    assert(s[s.len() - 1] == q);
                }
            }
        }
    }
}

/// An override class read as a plain list: entries that begin with `!`
/// hit as globs, entries that begin with `+` or `-` as exact paths, each
/// without its first character.
pub proof fn lemma_class_hits_as_lists(ps: Seq<Seq<char>>, file: Seq<char>, base: Seq<char>)
    ensures
        any_class_hit(PatternClass::Exclude, ps, file, base) == spec_matches_any(file, stripped_entries(ps, '!'), base),
        any_class_hit(PatternClass::ForceInclude, ps, file, base) == spec_matches_any_exact(file, stripped_entries(ps, '+'), base),
        any_class_hit(PatternClass::ForceExclude, ps, file, base) == spec_matches_any_exact(file, stripped_entries(ps, '-'), base),
{
    lemma_stripped_entries(ps, '!');
    lemma_stripped_entries(ps, '+');
    lemma_stripped_entries(ps, '-');
    let ex = stripped_entries(ps, '!');
    let fi = stripped_entries(ps, '+');
    let fx = stripped_entries(ps, '-');
    if any_class_hit(PatternClass::Exclude, ps, file, base) {
        let i = choose|i: int| 0 <= i < ps.len() && class_hit(PatternClass::Exclude, #[trigger] ps[i], file, base);
        assert(ex.contains(ps[i].skip(1)));
        let j = choose|j: int| 0 <= j < ex.len() && ex[j] == ps[i].skip(1);
        assert(pattern_hits(ex[j], file, base));
    }
    if spec_matches_any(file, ex, base) {
        let j = choose|j: int| 0 <= j < ex.len() && pattern_hits(#[trigger] ex[j], file, base);
        assert(ex.contains(ex[j]));
        let i = choose|i: int| 0 <= i < ps.len() && leads(#[trigger] ps[i], '!') && ps[i].skip(1) == ex[j];
        assert(class_hit(PatternClass::Exclude, ps[i], file, base));
    }
    if any_class_hit(PatternClass::ForceInclude, ps, file, base) {
        let i = choose|i: int| 0 <= i < ps.len() && class_hit(PatternClass::ForceInclude, #[trigger] ps[i], file, base);
        assert(fi.contains(ps[i].skip(1)));
        let j = choose|j: int| 0 <= j < fi.len() && fi[j] == ps[i].skip(1);
        assert(exact_hits(fi[j], file, base));
    }
    if spec_matches_any_exact(file, fi, base) {
        let j = choose|j: int| 0 <= j < fi.len() && exact_hits(#[trigger] fi[j], file, base);
        assert(fi.contains(fi[j]));
        let i = choose|i: int| 0 <= i < ps.len() && leads(#[trigger] ps[i], '+') && ps[i].skip(1) == fi[j];
        assert(class_hit(PatternClass::ForceInclude, ps[i], file, base));
    }
    if any_class_hit(PatternClass::ForceExclude, ps, file, base) {
        let i = choose|i: int| 0 <= i < ps.len() && class_hit(PatternClass::ForceExclude, #[trigger] ps[i], file, base);
        assert(fx.contains(ps[i].skip(1)));
        let j = choose|j: int| 0 <= j < fx.len() && fx[j] == ps[i].skip(1);
        assert(exact_hits(fx[j], file, base));
    }
    if spec_matches_any_exact(file, fx, base) {
        let j = choose|j: int| 0 <= j < fx.len() && exact_hits(#[trigger] fx[j], file, base);
        assert(fx.contains(fx[j]));
        let i = choose|i: int| 0 <= i < ps.len() && leads(#[trigger] ps[i], '-') && ps[i].skip(1) == fx[j];
        assert(class_hit(PatternClass::ForceExclude, ps[i], file, base));
    }
}

/// The override rule over the stripped lists: a file is enabled unless an
/// exact `-` entry names it, and then when an exact `+` entry names it or
/// no `!` glob hits it; entries without one of these marks have no effect.
pub proof fn law_overrides_by_stripped_lists(ps: Seq<Seq<char>>, file: Seq<char>, base: Seq<char>)
    ensures
        spec_enabled_by_overrides(ps, file, base) == (
            !spec_matches_any_exact(file, stripped_entries(ps, '-'), base)
            && (spec_matches_any_exact(file, stripped_entries(ps, '+'), base)
                || !spec_matches_any(file, stripped_entries(ps, '!'), base))),
{
    lemma_class_hits_as_lists(ps, file, base);
}

fn class_hit_exec(c: PatternClass, p: &Vec<char>, k: &FileKeys, Ghost(file): Ghost<Seq<char>>, Ghost(base): Ghost<Seq<char>>) -> (r: bool)
    requires
        keys_of(*k, file, base),
    ensures
        r == class_hit(c, p@, file, base),
{
    let lead = match c {
        PatternClass::Include => {
            let is_override = p.len() > 0 && (p[0] == '!' || p[0] == '+' || p[0] == '-');
            return !is_override && hits(p, k, Ghost(file), Ghost(base));
        },
        PatternClass::Exclude => '!',
        PatternClass::ForceInclude => '+',
        PatternClass::ForceExclude => '-',
    };
    if p.len() == 0 || p[0] != lead {
        return false;
    }
    let rest = copy_range(p, 1, p.len());
    assert(rest@ =~= p@.skip(1));
    match c {
        PatternClass::Exclude => hits(&rest, k, Ghost(file), Ghost(base)),
        _ => exact(&rest, k, Ghost(file), Ghost(base)),
    }
}

fn any_class_hit_exec(c: PatternClass, patterns: &Vec<String>, k: &FileKeys, Ghost(file): Ghost<Seq<char>>, Ghost(base): Ghost<Seq<char>>) -> (r: bool)
    requires
        keys_of(*k, file, base),
    ensures
        r == any_class_hit(c, crate::path::strings_view(patterns@), file, base),
{
    let ghost ps = crate::path::strings_view(patterns@);
    let mut i: usize = 0;
    while i < patterns.len()
        invariant
            i <= patterns@.len(),
            ps == crate::path::strings_view(patterns@),
            keys_of(*k, file, base),
            forall|j: int| 0 <= j < i ==> !class_hit(c, #[trigger] ps[j], file, base),
        decreases patterns@.len() - i,
    {
        assert(ps[i as int] == patterns@[i as int]@);
        if class_hit_exec(c, &chars_of(patterns[i].as_str()), k, Ghost(file), Ghost(base)) {
            return true;
        }
        i += 1;
    }
    false
}

fn has_includes_exec(patterns: &Vec<String>) -> (r: bool)
    ensures
        r == has_includes(crate::path::strings_view(patterns@)),
{
    let ghost ps = crate::path::strings_view(patterns@);
    let mut i: usize = 0;
    while i < patterns.len()
        invariant
            i <= patterns@.len(),
            ps == crate::path::strings_view(patterns@),
            forall|j: int| 0 <= j < i ==> spec_is_override(#[trigger] ps[j]),
        decreases patterns@.len() - i,
    {
        assert(ps[i as int] == patterns@[i as int]@);
        if !is_override_pattern(patterns[i].as_str()) {
            return true;
        }
        i += 1;
    }
    false
}

fn contains_string(v: &Vec<String>, s: &str) -> (r: bool)
    ensures
        r == crate::path::strings_view(v@).contains(s@),
{
    let ghost vs = crate::path::strings_view(v@);
    let target = chars_of(s);
    let mut i: usize = 0;
    while i < v.len()
        invariant
            i <= v@.len(),
            vs == crate::path::strings_view(v@),
            target@ == s@,
            forall|j: int| 0 <= j < i ==> #[trigger] vs[j] != s@,
        decreases v@.len() - i,
    {
        assert(vs[i as int] == v@[i as int]@);
        if chars_eq(&chars_of(v[i].as_str()), &target) {
            return true;
        }
        i += 1;
    }
    false
}

/// The files of `all_paths` that the pattern list keeps, each once.
pub fn apply_patterns(all_paths: &Vec<String>, patterns: &Vec<String>, base_dir: &str) -> (r: Vec<String>)
    ensures
        crate::path::strings_view(r@).no_duplicates(),
        forall|f: Seq<char>| #[trigger] crate::path::strings_view(r@).contains(f) <==>
            (crate::path::strings_view(all_paths@).contains(f)
                && spec_applied(crate::path::strings_view(patterns@), f, base_dir@)),
{
    let ghost ps = crate::path::strings_view(patterns@);
    let ghost all = crate::path::strings_view(all_paths@);
    let includes = has_includes_exec(patterns);
    let mut out: Vec<String> = Vec::new();
    let mut i: usize = 0;
    while i < all_paths.len()
        invariant
            i <= all_paths@.len(),
            ps == crate::path::strings_view(patterns@),
            all == crate::path::strings_view(all_paths@),
            includes == has_includes(ps),
            crate::path::strings_view(out@).no_duplicates(),
            forall|f: Seq<char>| #[trigger] crate::path::strings_view(out@).contains(f) <==>
                (all.take(i as int).contains(f) && spec_applied(ps, f, base_dir@)),
        decreases all_paths@.len() - i,
    {
        let file = all_paths[i].as_str();
        assert(all[i as int] == file@);
        let k = file_keys(file, base_dir);
        let included = (!includes || any_class_hit_exec(PatternClass::Include, patterns, &k, Ghost(file@), Ghost(base_dir@)))
            && !any_class_hit_exec(PatternClass::Exclude, patterns, &k, Ghost(file@), Ghost(base_dir@));
        let kept = (included || any_class_hit_exec(PatternClass::ForceInclude, patterns, &k, Ghost(file@), Ghost(base_dir@)))
            && !any_class_hit_exec(PatternClass::ForceExclude, patterns, &k, Ghost(file@), Ghost(base_dir@));
        assert(kept == spec_applied(ps, file@, base_dir@));
        let ghost before = crate::path::strings_view(out@);
        let ghost t0 = all.take(i as int);
        let ghost t1 = all.take(i + 1);
        assert(t1 =~= t0.push(file@));
        if kept && !contains_string(&out, file) {
            out.push(copy_string(&all_paths[i]));
            assert(crate::path::strings_view(out@) =~= before.push(file@));
            let ghost after = crate::path::strings_view(out@);
            assert forall|f: Seq<char>| #[trigger] after.contains(f) <==>
                (t1.contains(f) && spec_applied(ps, f, base_dir@)) by {
                if after.contains(f) {
                    let j = choose|j: int| 0 <= j < after.len() && after[j] == f;
                    if j < before.len() {
                        assert(before[j] == f);
                        assert(before.contains(f));
                        assert(t0.contains(f));
                        let m = choose|m: int| 0 <= m < t0.len() && t0[m] == f;
                        assert(t1[m] == f);
                    } else {
                        assert(f == file@);
                        assert(t1[i as int] == f);
                    }
                }
                if t1.contains(f) && spec_applied(ps, f, base_dir@) {
                    let j = choose|j: int| 0 <= j < t1.len() && t1[j] == f;
                    if j < i {
                        assert(t0[j] == f);
                        assert(t0.contains(f));
                        assert(before.contains(f));
                        let m = choose|m: int| 0 <= m < before.len() && before[m] == f;
                        assert(after[m] == f);
                    } else {
                        assert(after[before.len() as int] == f);
                    }
                }
            }
            assert(crate::path::strings_view(out@).no_duplicates()) by {
                assert forall|a: int, b: int| 0 <= a < after.len() && 0 <= b < after.len() && a != b implies after[a] != after[b] by {
                    if a == before.len() {
                        assert(before[b] == after[b]);
                    } else if b == before.len() {
                        assert(before[a] == after[a]);
                    }
                }
            }
        } else {
            assert forall|f: Seq<char>| #[trigger] crate::path::strings_view(out@).contains(f) <==>
                (t1.contains(f) && spec_applied(ps, f, base_dir@)) by {
                if t1.contains(f) && f != file@ {
                    let j = choose|j: int| 0 <= j < t1.len() && t1[j] == f;
                    assert(t0[j] == f);
                }
                if t0.contains(f) {
                    let j = choose|j: int| 0 <= j < t0.len() && t0[j] == f;
                    assert(t1[j] == f);
                }
            }
        }
        i += 1;
    }
    assert(all.take(all.len() as int) =~= all);
    out
}

/// Whether the override entries leave a file enabled (see
/// `spec_enabled_by_overrides`).
pub fn is_enabled_by_overrides(file: &str, patterns: &Vec<String>, base_dir: &str) -> (r: bool)
    ensures
        r == spec_enabled_by_overrides(crate::path::strings_view(patterns@), file@, base_dir@),
{
    let k = file_keys(file, base_dir);
    if any_class_hit_exec(PatternClass::ForceExclude, patterns, &k, Ghost(file@), Ghost(base_dir@)) {
        false
    } else if any_class_hit_exec(PatternClass::ForceInclude, patterns, &k, Ghost(file@), Ghost(base_dir@)) {
        true
    } else {
        !any_class_hit_exec(PatternClass::Exclude, patterns, &k, Ghost(file@), Ghost(base_dir@))
    }
}

// ---------------------------------------------------------------------------
// Ignore files
// ---------------------------------------------------------------------------

/// `s` without its trailing `/`s.
pub open spec fn trim_trailing_slashes(s: Seq<char>) -> Seq<char>
    decreases s.len(),
{
    if s.len() > 0 && s.last() == '/' { trim_trailing_slashes(s.drop_last()) } else { s }
}

/// The rule an ignore-file line gives, as (glob, negated, directories
/// only), or none for a blank or comment line. A leading `!` negates
/// (`\!` is a literal `!`), a leading `/` anchors and is dropped, and a
/// trailing `/` restricts the rule to directories; the glob is prefixed
/// with the folder the file sits in.
pub open spec fn spec_rule_of(line: Seq<char>, prefix: Seq<char>) -> Option<(Seq<char>, bool, bool)> {
    let t = spec_trim(line);
    if t.len() == 0 || t[0] == '#' {
        None
    } else {
        let negated = leads(line, '!');
        let p1 = if negated {
            line.skip(1)
        } else if starts_with(line, seq!['\\', '!']) {
            line.skip(2)
        } else {
            line
        };
        let p2 = if leads(p1, '/') { p1.skip(1) } else { p1 };
        let dir_only = p2.len() > 0 && p2.last() == '/';
        Some((prefix + trim_trailing_slashes(p2), negated, dir_only))
    }
}

/// The rules of a sequence of lines, in order.
pub open spec fn spec_rules_of_lines(lines: Seq<Seq<char>>, prefix: Seq<char>) -> Seq<(Seq<char>, bool, bool)>
    decreases lines.len(),
{
    if lines.len() == 0 {
        Seq::empty()
    } else {
        let before = spec_rules_of_lines(lines.drop_last(), prefix);
        match spec_rule_of(lines.last(), prefix) {
            Some(r) => before.push(r),
            None => before,
        }
    }
}

/// The rules of several ignore files' contents, in order.
pub open spec fn spec_rules_of_files(contents: Seq<Seq<char>>, prefix: Seq<char>) -> Seq<(Seq<char>, bool, bool)>
    decreases contents.len(),
{
    if contents.len() == 0 {
        Seq::empty()
    } else {
        spec_rules_of_files(contents.drop_last(), prefix) + spec_rules_of_lines(crate::text::spec_lines(contents.last()), prefix)
    }
}

/// The prefix of the rules of a folder's ignore files: its path relative
/// to the root followed by `/`, or nothing for the root itself.
pub open spec fn spec_ignore_prefix(dir: Seq<char>, root: Seq<char>) -> Seq<char> {
    let r = spec_rel_path(root, dir);
    if r.len() == 0 { r } else { r.push('/') }
}

/// Whether the rules ignore a path: the last rule that applies decides
/// (a negated rule un-ignores); directory rules skip files.
pub open spec fn spec_ignores(rules: Seq<(Seq<char>, bool, bool)>, rel: Seq<char>, is_dir: bool) -> bool
    decreases rules.len(),
{
    if rules.len() == 0 {
        false
    } else {
        let (p, negated, dir_only) = rules.last();
        if (dir_only && !is_dir) || !glob(p, 0, rel, 0) {
            spec_ignores(rules.drop_last(), rel, is_dir)
        } else {
            !negated
        }
    }
}

/// gitignore-style rules gathered from `.gitignore`, `.ignore` and
/// `.fdignore` files.
pub struct IgnoreMatcher {
    rules: Vec<(String, bool, bool)>,
}

impl View for IgnoreMatcher {
    type V = Seq<(Seq<char>, bool, bool)>;

    closed spec fn view(&self) -> Seq<(Seq<char>, bool, bool)> {
        Seq::new(self.rules@.len(), |i: int| (self.rules@[i].0@, self.rules@[i].1, self.rules@[i].2))
    }
}

fn trim_slashes_chars(v: &Vec<char>) -> (r: Vec<char>)
    ensures
        r@ == trim_trailing_slashes(v@),
{
    let mut n = v.len();
    assert(v@.take(n as int) =~= v@);
    while n > 0 && v[n - 1] == '/'
        invariant
            n <= v@.len(),
            trim_trailing_slashes(v@) == trim_trailing_slashes(v@.take(n as int)),
        decreases n,
    {
        assert(v@.take(n as int).drop_last() =~= v@.take(n - 1));
        n -= 1;
    }
    copy_range(v, 0, n)
}

fn rule_of(line: &Vec<char>, prefix: &Vec<char>) -> (r: Option<(String, bool, bool)>)
    ensures
        match (r, spec_rule_of(line@, prefix@)) {
            (Some(a), Some(b)) => a.0@ == b.0 && a.1 == b.1 && a.2 == b.2,
            (None, None) => true,
            _ => false,
        },
{
    let t = trim_chars(line);
    if t.len() == 0 || t[0] == '#' {
        return None;
    }
    let negated = line.len() > 0 && line[0] == '!';
    let p1 = if negated {
        copy_range(line, 1, line.len())
    } else if line.len() >= 2 && line[0] == '\\' && line[1] == '!' {
        assert(starts_with(line@, seq!['\\', '!'])) by {
            assert(line@.take(2) =~= seq!['\\', '!']);
        }
        copy_range(line, 2, line.len())
    } else {
        assert(!starts_with(line@, seq!['\\', '!'])) by {
            if line@.len() >= 2 {
                assert(line@.take(2)[0] == line@[0]);
                assert(line@.take(2)[1] == line@[1]);
            }
        }
        copy_range(line, 0, line.len())
    };
    assert(p1@ =~= (if negated { line@.skip(1) } else if starts_with(line@, seq!['\\', '!']) { line@.skip(2) } else { line@ }));
    let p2 = if p1.len() > 0 && p1[0] == '/' { copy_range(&p1, 1, p1.len()) } else { copy_range(&p1, 0, p1.len()) };
    assert(p2@ =~= (if leads(p1@, '/') { p1@.skip(1) } else { p1@ }));
    let dir_only = p2.len() > 0 && p2[p2.len() - 1] == '/';
    let body = concat_chars(prefix, &trim_slashes_chars(&p2));
    Some((string_of(body.as_slice()), negated, dir_only))
}

impl IgnoreMatcher {
    /// A matcher without rules.
    pub fn new() -> (r: Self)
        ensures
            r@ == Seq::<(Seq<char>, bool, bool)>::empty(),
    {
        let r = IgnoreMatcher { rules: Vec::new() };
        assert(r@ =~= Seq::<(Seq<char>, bool, bool)>::empty());
        r
    }

    fn add_rules(&mut self, lines: &Vec<Vec<char>>, prefix: &Vec<char>)
        ensures
            final(self)@ == old(self)@ + spec_rules_of_lines(crate::text::seqs_of(lines@), prefix@),
    {
        let ghost start = self@;
        let ghost ls = crate::text::seqs_of(lines@);
        let mut i: usize = 0;
        assert(ls.take(0) =~= Seq::<Seq<char>>::empty());
        assert(start + spec_rules_of_lines(ls.take(0), prefix@) =~= start);
        while i < lines.len()
            invariant
                i <= lines@.len(),
                ls == crate::text::seqs_of(lines@),
                self@ == start + spec_rules_of_lines(ls.take(i as int), prefix@),
            decreases lines@.len() - i,
        {
            assert(ls.take(i + 1).drop_last() =~= ls.take(i as int));
            assert(ls.take(i + 1).last() == lines@[i as int]@);
            let ghost before = self@;
            match rule_of(&lines[i], prefix) {
                Some(r) => {
                    let ghost rv = (r.0@, r.1, r.2);
                    self.rules.push(r);
                    assert(self@ =~= before.push(rv));
                    assert(start + spec_rules_of_lines(ls.take(i + 1), prefix@) =~= (start + spec_rules_of_lines(ls.take(i as int), prefix@)).push(rv));
                },
                None => {},
            }
            i += 1;
        }
        assert(ls.take(ls.len() as int) =~= ls);
    }

    /// Adds the rules of a folder's ignore files, given their contents in
    /// the order `.gitignore`, `.ignore`, `.fdignore` (those that exist);
    /// their globs are prefixed with the folder's path relative to the
    /// root.
    pub fn add_file(&mut self, dir: &str, root: &str, contents: &Vec<String>)
        ensures
            final(self)@ == old(self)@ + spec_rules_of_files(crate::path::strings_view(contents@), spec_ignore_prefix(dir@, root@)),
    {
        let rel = chars_of(rel_path(root, dir).as_str());
        let mut prefix = copy_range(&rel, 0, rel.len());
        if prefix.len() > 0 {
            prefix.push('/');
        }
        assert(prefix@ =~= spec_ignore_prefix(dir@, root@));
        let ghost start = self@;
        let ghost cs = crate::path::strings_view(contents@);
        let mut i: usize = 0;
        assert(cs.take(0) =~= Seq::<Seq<char>>::empty());
        assert(start + spec_rules_of_files(cs.take(0), prefix@) =~= start);
        while i < contents.len()
            invariant
                i <= contents@.len(),
                cs == crate::path::strings_view(contents@),
                prefix@ == spec_ignore_prefix(dir@, root@),
                self@ == start + spec_rules_of_files(cs.take(i as int), prefix@),
            decreases contents@.len() - i,
        {
            assert(cs.take(i + 1).drop_last() =~= cs.take(i as int));
            assert(cs.take(i + 1).last() == contents@[i as int]@);
            let lines = crate::text::lines_chars(&chars_of(contents[i].as_str()));
            self.add_rules(&lines, &prefix);
            assert(start + spec_rules_of_files(cs.take(i + 1), prefix@) =~= start + spec_rules_of_files(cs.take(i as int), prefix@) + spec_rules_of_lines(crate::text::spec_lines(contents@[i as int]@), prefix@));
            i += 1;
        }
        assert(cs.take(cs.len() as int) =~= cs);
    }

    /// Whether the rules ignore a path relative to the root.
    pub fn ignores(&self, rel_path: &str, is_dir: bool) -> (r: bool)
        ensures
            r == spec_ignores(self@, rel_path@, is_dir),
    {
        let text = chars_of(rel_path);
        let ghost rs = self@;
        let mut i = self.rules.len();
        assert(rs.take(i as int) =~= rs);
        while i > 0
            invariant
                i <= self.rules@.len(),
                rs == self@,
                text@ == rel_path@,
                spec_ignores(rs, rel_path@, is_dir) == spec_ignores(rs.take(i as int), rel_path@, is_dir),
            decreases i,
        {
            let rule = &self.rules[i - 1];
            let ghost sub = rs.take(i as int);
            assert(sub.last() == rs[i - 1]);
            assert(sub.drop_last() =~= rs.take(i - 1));
            if !(rule.2 && !is_dir) && glob_chars(&chars_of(rule.0.as_str()), &text) {
                return !rule.1;
            }
            i -= 1;
        }
        assert(rs.take(0) =~= Seq::<(Seq<char>, bool, bool)>::empty());
        false
    }
}

// ---------------------------------------------------------------------------
// Precedence and de-duplication
// ---------------------------------------------------------------------------

/// A resource's base folder, as a plain value.
pub open spec fn metadata_base(m: PathMetadata) -> Option<Seq<char>> {
    match m.base_dir {
        Some(b) => Some(b@),
        None => None,
    }
}

/// A resolved resource as plain values: path, enabled, source, scope,
/// origin and base folder.
pub open spec fn resource_view(r: ResolvedResource) -> (Seq<char>, bool, Seq<char>, Scope, Origin, Option<Seq<char>>) {
    (r.path@, r.enabled, r.metadata.source@, r.metadata.scope, r.metadata.origin, metadata_base(r.metadata))
}

/// The precedence rank of a resource.
pub open spec fn resource_rank(r: ResolvedResource) -> u8 {
    spec_precedence_rank(r.metadata.origin, r.metadata.scope, r.metadata.source@)
}

fn clone_resource(r: &ResolvedResource) -> (c: ResolvedResource)
    ensures
        resource_view(c) == resource_view(*r),
{
    let base_dir = match &r.metadata.base_dir {
        Some(b) => Some(copy_string(b)),
        None => None,
    };
    ResolvedResource {
        path: copy_string(&r.path),
        enabled: r.enabled,
        metadata: PathMetadata {
            source: copy_string(&r.metadata.source),
            scope: r.metadata.scope,
            origin: r.metadata.origin,
            base_dir,
        },
    }
}

/// The indices below `n` whose rank is `k`, in order.
pub open spec fn rank_indices(ranks: Seq<u8>, k: u8, n: nat) -> Seq<int>
    decreases n,
{
    if n == 0 {
        Seq::empty()
    } else {
        let before = rank_indices(ranks, k, (n - 1) as nat);
        if ranks[n - 1] == k { before.push(n - 1) } else { before }
    }
}

/// The indices below `n` of rank below `k`: by rank, then in order.
pub open spec fn ranked_below(ranks: Seq<u8>, k: nat, n: nat) -> Seq<int>
    decreases k,
{
    if k == 0 {
        Seq::empty()
    } else {
        ranked_below(ranks, (k - 1) as nat, n) + rank_indices(ranks, (k - 1) as u8, n)
    }
}

/// All indices ordered by rank (the five ranks), stably.
pub open spec fn precedence_order(ranks: Seq<u8>) -> Seq<int> {
    ranked_below(ranks, 5, ranks.len())
}

/// The indices of `order` whose key no earlier kept index has.
pub open spec fn first_by_key(order: Seq<int>, keys: Seq<Seq<char>>) -> Seq<int>
    decreases order.len(),
{
    if order.len() == 0 {
        Seq::empty()
    } else {
        let d = first_by_key(order.drop_last(), keys);
        if exists|j: int| 0 <= j < d.len() && keys[#[trigger] d[j]] == keys[order.last()] {
            d
        } else {
            d.push(order.last())
        }
    }
}

/// The precedence ranks of resources.
pub open spec fn resource_ranks(resources: Seq<ResolvedResource>) -> Seq<u8> {
    Seq::new(resources.len(), |i: int| resource_rank(resources[i]))
}

/// Which resources `to_resolved` keeps, by index: ordered by precedence
/// rank (stably), and of those with the same canonical path the first.
pub open spec fn resolved_indices(resources: Seq<ResolvedResource>, canonical: Seq<Seq<char>>) -> Seq<int> {
    first_by_key(precedence_order(resource_ranks(resources)), canonical)
}

/// Whether `r` holds the resources `to_resolved` keeps of `resources`,
/// in its order.
pub open spec fn resolved_from(r: Seq<ResolvedResource>, resources: Seq<ResolvedResource>, canonical: Seq<Seq<char>>) -> bool {
    &&& r.len() == resolved_indices(resources, canonical).len()
    &&& forall|j: int| 0 <= j < r.len() ==> {
        let i = #[trigger] resolved_indices(resources, canonical)[j];
        0 <= i < resources.len() && resource_view(r[j]) == resource_view(resources[i])
    }
}

pub open spec fn as_ints(v: Seq<usize>) -> Seq<int> {
    Seq::new(v.len(), |j: int| v[j] as int)
}

/// Orders resources by precedence rank (stably) and keeps the first of
/// each canonical path; `canonical[i]` is the canonical path of
/// `resources[i]`.
pub fn to_resolved(resources: Vec<ResolvedResource>, canonical: &Vec<String>) -> (r: Vec<ResolvedResource>)
    requires
        canonical@.len() == resources@.len(),
    ensures
        resolved_from(r@, resources@, crate::path::strings_view(canonical@)),
{
    let n = resources.len();
    let ghost rk = resource_ranks(resources@);
    let ghost ks = crate::path::strings_view(canonical@);
    let mut ranks: Vec<u8> = Vec::new();
    let mut i: usize = 0;
    while i < n
        invariant
            n == resources@.len(),
            i <= n,
            ranks@ == rk.take(i as int),
            rk == resource_ranks(resources@),
        decreases n - i,
    {
        ranks.push(precedence_rank(&resources[i].metadata));
        assert(rk.take(i + 1) =~= rk.take(i as int).push(rk[i as int]));
        i += 1;
    }
    assert(rk.take(n as int) =~= rk);
    let mut order: Vec<usize> = Vec::new();
    let mut k: u8 = 0;
    while k < 5
        invariant
            k <= 5,
            n == resources@.len(),
            ranks@ == rk,
            rk.len() == n,
            as_ints(order@) == ranked_below(rk, k as nat, n as nat),
            forall|j: int| 0 <= j < order@.len() ==> order@[j] < n,
        decreases 5 - k,
    {
        let mut i: usize = 0;
        let ghost base = ranked_below(rk, k as nat, n as nat);
        assert(rank_indices(rk, k, 0) =~= Seq::<int>::empty());
        assert(base + rank_indices(rk, k, 0) =~= base);
        while i < n
            invariant
                i <= n,
                n == resources@.len(),
                ranks@ == rk,
                rk.len() == n,
                as_ints(order@) == base + rank_indices(rk, k, i as nat),
                forall|j: int| 0 <= j < order@.len() ==> order@[j] < n,
            decreases n - i,
        {
            let ghost before = as_ints(order@);
            if ranks[i] == k {
                order.push(i);
                assert(as_ints(order@) =~= before.push(i as int));
            } else {
                assert(as_ints(order@) =~= before);
            }
            assert(base + rank_indices(rk, k, (i + 1) as nat) =~= before + rank_indices(rk, k, (i + 1) as nat).subrange(rank_indices(rk, k, i as nat).len() as int, rank_indices(rk, k, (i + 1) as nat).len() as int)) by {
                assert(rank_indices(rk, k, (i + 1) as nat) == (if rk[i as int] == k { rank_indices(rk, k, i as nat).push(i as int) } else { rank_indices(rk, k, i as nat) }));
            }
            i += 1;
        }
        assert(((k + 1) as nat - 1) as u8 == k);
        assert(ranked_below(rk, (k + 1) as nat, n as nat) == base + rank_indices(rk, k, n as nat));
        k += 1;
    }
    let ghost ord = as_ints(order@);
    assert(ord == precedence_order(rk));
    let mut out: Vec<ResolvedResource> = Vec::new();
    let mut seen: Vec<String> = Vec::new();
    let ghost mut kept: Seq<int> = Seq::empty();
    let mut j: usize = 0;
    assert(ord.take(0) =~= Seq::<int>::empty());
    while j < order.len()
        invariant
            j <= order@.len(),
            n == resources@.len(),
            canonical@.len() == n,
            ks == crate::path::strings_view(canonical@),
            ord == as_ints(order@),
            forall|m: int| 0 <= m < order@.len() ==> order@[m] < n,
            kept == first_by_key(ord.take(j as int), ks),
            out@.len() == kept.len(),
            crate::path::strings_view(seen@) == Seq::new(kept.len(), |m: int| ks[kept[m]]),
            forall|m: int| 0 <= m < kept.len() ==> 0 <= #[trigger] kept[m] < n && resource_view(out@[m]) == resource_view(resources@[kept[m]]),
        decreases order@.len() - j,
    {
        let idx = order[j];
        let ghost t1 = ord.take(j + 1);
        assert(t1.drop_last() =~= ord.take(j as int));
        assert(t1.last() == idx as int);
        assert(ks[idx as int] == canonical@[idx as int]@);
        let ghost sv = crate::path::strings_view(seen@);
        let dup_key = contains_string(&seen, canonical[idx].as_str());
        assert(dup_key == exists|q: int| 0 <= q < kept.len() && ks[#[trigger] kept[q]] == ks[t1.last()]) by {
            if dup_key {
                let q = choose|q: int| 0 <= q < sv.len() && sv[q] == canonical@[idx as int]@;
                assert(ks[kept[q]] == ks[t1.last()]);
            }
            if exists|q: int| 0 <= q < kept.len() && ks[#[trigger] kept[q]] == ks[t1.last()] {
                let q = choose|q: int| 0 <= q < kept.len() && ks[#[trigger] kept[q]] == ks[t1.last()];
                assert(sv[q] == ks[kept[q]]);
            }
        }
        if !dup_key {
            let ghost old_out = out@;
            let ghost old_kept = kept;
            seen.push(copy_string(&canonical[idx]));
            out.push(clone_resource(&resources[idx]));
            proof {
                kept = kept.push(idx as int);
            }
            assert(crate::path::strings_view(seen@) =~= sv.push(ks[idx as int]));
            assert(Seq::new(kept.len(), |m: int| ks[kept[m]]) =~= Seq::new(old_kept.len(), |m: int| ks[old_kept[m]]).push(ks[idx as int]));
            assert forall|m: int| 0 <= m < kept.len() implies 0 <= #[trigger] kept[m] < n && resource_view(out@[m]) == resource_view(resources@[kept[m]]) by {
                if m < kept.len() - 1 {
                    assert(out@[m] == old_out[m]);
                }
            }
        }
        j += 1;
    }
    assert(ord.take(order@.len() as int) =~= ord);
    out
}

// ---------------------------------------------------------------------------
// Gathering resources
// ---------------------------------------------------------------------------

/// Resources gathered per kind, each path once, before precedence is
/// applied.
pub struct Accumulator {
    pub extensions: Vec<ResolvedResource>,
    pub skills: Vec<ResolvedResource>,
    pub prompts: Vec<ResolvedResource>,
    pub themes: Vec<ResolvedResource>,
}

/// The gathered resources of one kind.
pub open spec fn kind_list(a: Accumulator, kind: ResourceType) -> Seq<ResolvedResource> {
    match kind {
        ResourceType::Extensions => a.extensions@,
        ResourceType::Skills => a.skills@,
        ResourceType::Prompts => a.prompts@,
        ResourceType::Themes => a.themes@,
    }
}

/// Whether some resource in the list has the path.
pub open spec fn has_path(list: Seq<ResolvedResource>, path: Seq<char>) -> bool {
    exists|j: int| 0 <= j < list.len() && (#[trigger] list[j]).path@ == path
}

fn add_once(list: &mut Vec<ResolvedResource>, resource: ResolvedResource)
    ensures
        has_path(old(list)@, resource.path@) ==> final(list)@ == old(list)@,
        !has_path(old(list)@, resource.path@) ==> final(list)@ == old(list)@.push(resource),
{
    let target = chars_of(resource.path.as_str());
    let mut j: usize = 0;
    while j < list.len()
        invariant
            j <= list@.len(),
            target@ == resource.path@,
            forall|m: int| 0 <= m < j ==> (#[trigger] list@[m]).path@ != resource.path@,
        decreases list@.len() - j,
    {
        if chars_eq(&chars_of(list[j].path.as_str()), &target) {
            return;
        }
        j += 1;
    }
    list.push(resource);
}

impl Accumulator {
    /// An accumulator with nothing gathered.
    pub fn new() -> (r: Self)
        ensures
            r.extensions@.len() == 0,
            r.skills@.len() == 0,
            r.prompts@.len() == 0,
            r.themes@.len() == 0,
    {
        Accumulator { extensions: Vec::new(), skills: Vec::new(), prompts: Vec::new(), themes: Vec::new() }
    }

    /// Gathers a resource of a kind, unless its path is empty or already
    /// gathered for that kind.
    pub fn add(&mut self, kind: ResourceType, path: &str, metadata: PathMetadata, enabled: bool)
        ensures
            forall|other: ResourceType| other != kind ==> kind_list(*final(self), other) == kind_list(*old(self), other),
            (path@.len() == 0 || has_path(kind_list(*old(self), kind), path@)) ==> kind_list(*final(self), kind) == kind_list(*old(self), kind),
            !(path@.len() == 0 || has_path(kind_list(*old(self), kind), path@)) ==> {
                let l = kind_list(*final(self), kind);
                &&& l.len() == kind_list(*old(self), kind).len() + 1
                &&& l.drop_last() == kind_list(*old(self), kind)
                &&& resource_view(l.last()) == (path@, enabled, metadata.source@, metadata.scope, metadata.origin, metadata_base(metadata))
            },
    {
        let chars = chars_of(path);
        if chars.len() == 0 {
            return;
        }
        let resource = ResolvedResource { path: string_of(chars.as_slice()), enabled, metadata };
        match kind {
            ResourceType::Extensions => add_once(&mut self.extensions, resource),
            ResourceType::Skills => add_once(&mut self.skills, resource),
            ResourceType::Prompts => add_once(&mut self.prompts, resource),
            ResourceType::Themes => add_once(&mut self.themes, resource),
        }
    }
}

impl Accumulator {
    /// The resolved resources of every kind (see `to_resolved`); each key
    /// list holds the canonical paths of that kind's gathered resources.
    pub fn into_paths(
        self,
        extension_keys: &Vec<String>,
        skill_keys: &Vec<String>,
        prompt_keys: &Vec<String>,
        theme_keys: &Vec<String>,
    ) -> (r: ResolvedPaths)
        requires
            extension_keys@.len() == self.extensions@.len(),
            skill_keys@.len() == self.skills@.len(),
            prompt_keys@.len() == self.prompts@.len(),
            theme_keys@.len() == self.themes@.len(),
        ensures
            resolved_from(r.extensions@, self.extensions@, crate::path::strings_view(extension_keys@)),
            resolved_from(r.skills@, self.skills@, crate::path::strings_view(skill_keys@)),
            resolved_from(r.prompts@, self.prompts@, crate::path::strings_view(prompt_keys@)),
            resolved_from(r.themes@, self.themes@, crate::path::strings_view(theme_keys@)),
    {
        ResolvedPaths {
            extensions: to_resolved(self.extensions, extension_keys),
            skills: to_resolved(self.skills, skill_keys),
            prompts: to_resolved(self.prompts, prompt_keys),
            themes: to_resolved(self.themes, theme_keys),
        }
    }
}

// ---------------------------------------------------------------------------
// Selectors
// ---------------------------------------------------------------------------

/// Selectors as plain values: a kind's name, its enabling and its
/// disabling exact patterns.
pub open spec fn selectors_view(s: Seq<(String, (Vec<String>, Vec<String>))>) -> Seq<(Seq<char>, Seq<Seq<char>>, Seq<Seq<char>>)> {
    Seq::new(s.len(), |i: int| (s[i].0@, crate::path::strings_view(s[i].1.0@), crate::path::strings_view(s[i].1.1@)))
}

/// The first selector for a kind's name.
pub open spec fn selector_for(s: Seq<(Seq<char>, Seq<Seq<char>>, Seq<Seq<char>>)>, name: Seq<char>) -> Option<(Seq<Seq<char>>, Seq<Seq<char>>)>
    decreases s.len(),
{
    if s.len() == 0 {
        None
    } else {
        match selector_for(s.drop_last(), name) {
            Some(found) => Some(found),
            None => if s.last().0 == name { Some((s.last().1, s.last().2)) } else { None },
        }
    }
}

/// A resource's enabled flag after its kind's selector: a disabling
/// match turns it off, else an enabling match turns it on; patterns are
/// relative to the resource's base folder (none: the empty path).
pub open spec fn toggled(enabling: Seq<Seq<char>>, disabling: Seq<Seq<char>>, r: ResolvedResource) -> bool {
    let base = or_empty(metadata_base(r.metadata));
    if spec_matches_any_exact(r.path@, disabling, base) {
        false
    } else if spec_matches_any_exact(r.path@, enabling, base) {
        true
    } else {
        r.enabled
    }
}

/// Whether `new` is `old` with the selector applied to each resource.
pub open spec fn selected(new: Seq<ResolvedResource>, old: Seq<ResolvedResource>, sel: Option<(Seq<Seq<char>>, Seq<Seq<char>>)>) -> bool {
    &&& new.len() == old.len()
    &&& forall|j: int| 0 <= j < new.len() ==> {
        let o = #[trigger] old[j];
        resource_view(new[j]) == match sel {
            Some((en, dis)) => (o.path@, toggled(en, dis, o), o.metadata.source@, o.metadata.scope, o.metadata.origin, metadata_base(o.metadata)),
            None => resource_view(o),
        }
    }
}

fn toggle_list(list: &mut Vec<ResolvedResource>, enabling: &Vec<String>, disabling: &Vec<String>)
    ensures
        selected(final(list)@, old(list)@, Some((crate::path::strings_view(enabling@), crate::path::strings_view(disabling@)))),
{
    let ghost start = old(list)@;
    let ghost en = crate::path::strings_view(enabling@);
    let ghost dis = crate::path::strings_view(disabling@);
    let mut j: usize = 0;
    while j < list.len()
        invariant
            j <= list@.len(),
            list@.len() == start.len(),
            en == crate::path::strings_view(enabling@),
            dis == crate::path::strings_view(disabling@),
            forall|m: int| j <= m < list@.len() ==> #[trigger] list@[m] == start[m],
            forall|m: int| 0 <= m < j ==> {
                let o = #[trigger] start[m];
                resource_view(list@[m]) == (o.path@, toggled(en, dis, o), o.metadata.source@, o.metadata.scope, o.metadata.origin, metadata_base(o.metadata))
            },
        decreases list@.len() - j,
    {
        let mut r = clone_resource(&list[j]);
        let base = match &list[j].metadata.base_dir {
            Some(b) => copy_string(b),
            None => string_of(Vec::<char>::new().as_slice()),
        };
        assert(base@ == or_empty(metadata_base(start[j as int].metadata)));
        if matches_any_exact_pattern(list[j].path.as_str(), disabling, base.as_str()) {
            r.enabled = false;
        } else if matches_any_exact_pattern(list[j].path.as_str(), enabling, base.as_str()) {
            r.enabled = true;
        }
        list.set(j, r);
        j += 1;
    }
}

fn find_selector(selectors: &Vec<(String, (Vec<String>, Vec<String>))>, name: &str) -> (r: Option<usize>)
    ensures
        match (r, selector_for(selectors_view(selectors@), name@)) {
            (Some(i), Some(found)) => i < selectors@.len() && found == (selectors_view(selectors@)[i as int].1, selectors_view(selectors@)[i as int].2),
            (None, None) => true,
            _ => false,
        },
{
    let ghost sv = selectors_view(selectors@);
    let target = chars_of(name);
    let mut i: usize = 0;
    assert(sv.take(0) =~= Seq::<(Seq<char>, Seq<Seq<char>>, Seq<Seq<char>>)>::empty());
    while i < selectors.len()
        invariant
            i <= selectors@.len(),
            sv == selectors_view(selectors@),
            target@ == name@,
            selector_for(sv.take(i as int), name@) is None,
        decreases selectors@.len() - i,
    {
        let ghost t1 = sv.take(i + 1);
        assert(t1.drop_last() =~= sv.take(i as int));
        assert(t1.last() == sv[i as int]);
        if chars_eq(&chars_of(selectors[i].0.as_str()), &target) {
            proof {
                lemma_selector_prefix(sv, name@, i + 1);
            }
            return Some(i);
        }
        i += 1;
    }
    assert(sv.take(sv.len() as int) =~= sv);
    None
}

proof fn lemma_selector_prefix(s: Seq<(Seq<char>, Seq<Seq<char>>, Seq<Seq<char>>)>, name: Seq<char>, k: int)
    requires
        0 <= k <= s.len(),
        selector_for(s.take(k), name) is Some,
    ensures
        selector_for(s, name) == selector_for(s.take(k), name),
    decreases s.len() - k,
{
    if k < s.len() {
        assert(s.take(k + 1).drop_last() =~= s.take(k));
        lemma_selector_prefix(s, name, k + 1);
    } else {
        assert(s.take(k) =~= s);
    }
}

/// Applies per-kind selectors (a kind's name, enabling and disabling
/// exact patterns): in each kind with a selector, a disabling match turns
/// a resource off, else an enabling match turns it on.
pub fn apply_selectors(paths: &mut ResolvedPaths, selectors: &Vec<(String, (Vec<String>, Vec<String>))>)
    ensures
        selected(final(paths).extensions@, old(paths).extensions@, selector_for(selectors_view(selectors@), "extensions"@)),
        selected(final(paths).skills@, old(paths).skills@, selector_for(selectors_view(selectors@), "skills"@)),
        selected(final(paths).prompts@, old(paths).prompts@, selector_for(selectors_view(selectors@), "prompts"@)),
        selected(final(paths).themes@, old(paths).themes@, selector_for(selectors_view(selectors@), "themes"@)),
{
    let ghost sv = selectors_view(selectors@);
    match find_selector(selectors, ResourceType::Extensions.name()) {
        Some(i) => toggle_list(&mut paths.extensions, &selectors[i].1.0, &selectors[i].1.1),
        None => {},
    }
    match find_selector(selectors, ResourceType::Skills.name()) {
        Some(i) => toggle_list(&mut paths.skills, &selectors[i].1.0, &selectors[i].1.1),
        None => {},
    }
    match find_selector(selectors, ResourceType::Prompts.name()) {
        Some(i) => toggle_list(&mut paths.prompts, &selectors[i].1.0, &selectors[i].1.1),
        None => {},
    }
    match find_selector(selectors, ResourceType::Themes.name()) {
        Some(i) => toggle_list(&mut paths.themes, &selectors[i].1.0, &selectors[i].1.1),
        None => {},
    }
}

// ---------------------------------------------------------------------------
// What precedence resolution guarantees
// ---------------------------------------------------------------------------

proof fn lemma_rank_indices(ranks: Seq<u8>, k: u8, n: nat)
    requires
        n <= ranks.len(),
    ensures
        forall|j: int| 0 <= j < rank_indices(ranks, k, n).len() ==> {
            let i = #[trigger] rank_indices(ranks, k, n)[j];
            0 <= i < n && ranks[i] == k
        },
        forall|i: int| 0 <= i < n && ranks[i] == k ==> rank_indices(ranks, k, n).contains(i),
    decreases n,
{
    if n > 0 {
        lemma_rank_indices(ranks, k, (n - 1) as nat);
        let before = rank_indices(ranks, k, (n - 1) as nat);
        if ranks[n - 1] == k {
            assert(before.push(n - 1)[before.len() as int] == n - 1);
            assert forall|i: int| 0 <= i < n && ranks[i] == k implies rank_indices(ranks, k, n).contains(i) by {
                if i < n - 1 {
                    let j = choose|j: int| 0 <= j < before.len() && before[j] == i;
                    assert(before.push(n - 1)[j] == i);
                }
            }
        }
    }
}

proof fn lemma_ranked_below(ranks: Seq<u8>, k: nat, n: nat)
    requires
        n <= ranks.len(),
        k <= 256,
    ensures
        forall|j: int| 0 <= j < ranked_below(ranks, k, n).len() ==> {
            let i = #[trigger] ranked_below(ranks, k, n)[j];
            0 <= i < n && ranks[i] < k
        },
        forall|a: int, b: int| 0 <= a < b < ranked_below(ranks, k, n).len() ==>
            ranks[#[trigger] ranked_below(ranks, k, n)[a]] <= ranks[#[trigger] ranked_below(ranks, k, n)[b]],
        forall|i: int| 0 <= i < n && ranks[i] < k ==> ranked_below(ranks, k, n).contains(i),
    decreases k,
{
    if k > 0 {
        let km = (k - 1) as nat;
        lemma_ranked_below(ranks, km, n);
        lemma_rank_indices(ranks, km as u8, n);
        let lo = ranked_below(ranks, km, n);
        let hi = rank_indices(ranks, km as u8, n);
        let all = ranked_below(ranks, k, n);
        assert(all == lo + hi);
        assert forall|j: int| 0 <= j < all.len() implies {
            let i = #[trigger] all[j];
            0 <= i < n && ranks[i] < k
        } by {
            if j < lo.len() {
                assert(all[j] == lo[j]);
            } else {
                assert(all[j] == hi[j - lo.len()]);
            }
        }
        assert forall|a: int, b: int| 0 <= a < b < all.len() implies ranks[#[trigger] all[a]] <= ranks[#[trigger] all[b]] by {
            if b < lo.len() {
                assert(all[a] == lo[a] && all[b] == lo[b]);
            } else if a < lo.len() {
                assert(all[a] == lo[a] && all[b] == hi[b - lo.len()]);
            } else {
                assert(all[a] == hi[a - lo.len()] && all[b] == hi[b - lo.len()]);
            }
        }
        assert forall|i: int| 0 <= i < n && ranks[i] < k implies all.contains(i) by {
            if ranks[i] < km {
                assert(lo.contains(i));
                let j = choose|j: int| 0 <= j < lo.len() && lo[j] == i;
                assert(all[j] == i);
            } else {
                assert(ranks[i] == km as u8);
                assert(hi.contains(i));
                let j = choose|j: int| 0 <= j < hi.len() && hi[j] == i;
                assert(all[lo.len() + j] == i);
            }
        }
    }
}

proof fn lemma_fbk_members(order: Seq<int>, keys: Seq<Seq<char>>)
    ensures
        forall|j: int| 0 <= j < first_by_key(order, keys).len() ==> exists|v: int|
            0 <= v < order.len() && order[v] == #[trigger] first_by_key(order, keys)[j],
    decreases order.len(),
{
    if order.len() > 0 {
        let init = order.drop_last();
        lemma_fbk_members(init, keys);
        let d = first_by_key(init, keys);
        let r = first_by_key(order, keys);
        assert forall|j: int| 0 <= j < r.len() implies exists|v: int| 0 <= v < order.len() && order[v] == #[trigger] r[j] by {
            if j < d.len() {
                assert(r[j] == d[j]);
                let v = choose|v: int| 0 <= v < init.len() && init[v] == d[j];
                assert(order[v] == r[j]);
            } else {
                assert(order[order.len() - 1] == r[j]);
            }
        }
    }
}

proof fn lemma_fbk_distinct(order: Seq<int>, keys: Seq<Seq<char>>)
    ensures
        forall|a: int, b: int| 0 <= a < b < first_by_key(order, keys).len() ==>
            keys[#[trigger] first_by_key(order, keys)[a]] != keys[#[trigger] first_by_key(order, keys)[b]],
    decreases order.len(),
{
    if order.len() > 0 {
        let init = order.drop_last();
        lemma_fbk_distinct(init, keys);
        let d = first_by_key(init, keys);
        let r = first_by_key(order, keys);
        assert forall|a: int, b: int| 0 <= a < b < r.len() implies keys[#[trigger] r[a]] != keys[#[trigger] r[b]] by {
            assert(r[a] == d[a]);
            if b < d.len() {
                assert(r[b] == d[b]);
            }
        }
    }
}

proof fn lemma_fbk_ordered(order: Seq<int>, keys: Seq<Seq<char>>)
    ensures
        forall|a: int, b: int| 0 <= a < b < first_by_key(order, keys).len() ==> exists|p: int, q: int|
            0 <= p < q < order.len() && order[p] == #[trigger] first_by_key(order, keys)[a] && order[q] == #[trigger] first_by_key(order, keys)[b],
    decreases order.len(),
{
    if order.len() > 0 {
        let init = order.drop_last();
        lemma_fbk_ordered(init, keys);
        lemma_fbk_members(init, keys);
        let d = first_by_key(init, keys);
        let r = first_by_key(order, keys);
        assert forall|a: int, b: int| 0 <= a < b < r.len() implies exists|p: int, q: int|
            0 <= p < q < order.len() && order[p] == #[trigger] r[a] && order[q] == #[trigger] r[b] by {
            assert(r[a] == d[a]);
            if b < d.len() {
                assert(r[b] == d[b]);
                let (p, q) = choose|p: int, q: int| 0 <= p < q < init.len() && init[p] == d[a] && init[q] == d[b];
                assert(order[p] == r[a] && order[q] == r[b]);
            } else {
                let p = choose|p: int| 0 <= p < init.len() && init[p] == d[a];
                assert(order[p] == r[a] && order[order.len() - 1] == r[b]);
            }
        }
    }
}

proof fn lemma_fbk_covers(order: Seq<int>, keys: Seq<Seq<char>>)
    ensures
        forall|v: int| 0 <= v < order.len() ==> exists|j: int|
            0 <= j < first_by_key(order, keys).len() && keys[#[trigger] first_by_key(order, keys)[j]] == keys[#[trigger] order[v]],
    decreases order.len(),
{
    if order.len() > 0 {
        let init = order.drop_last();
        lemma_fbk_covers(init, keys);
        let d = first_by_key(init, keys);
        let r = first_by_key(order, keys);
        let last = order.last();
        assert forall|v: int| 0 <= v < order.len() implies exists|j: int|
            0 <= j < r.len() && keys[#[trigger] r[j]] == keys[#[trigger] order[v]] by {
            if v < order.len() - 1 {
                assert(init[v] == order[v]);
                let j = choose|j: int| 0 <= j < d.len() && keys[#[trigger] d[j]] == keys[#[trigger] init[v]];
                assert(r[j] == d[j]);
            } else if exists|j: int| 0 <= j < d.len() && keys[#[trigger] d[j]] == keys[last] {
                let j = choose|j: int| 0 <= j < d.len() && keys[#[trigger] d[j]] == keys[last];
                assert(r[j] == d[j]);
            } else {
                assert(r[d.len() as int] == last);
            }
        }
    }
}

/// Whether no index of `order` before position `v` has the key.
#[verifier::opaque]
spec fn unseen_before(order: Seq<int>, keys: Seq<Seq<char>>, v: int, key: Seq<char>) -> bool {
    forall|u: int| 0 <= u < v ==> keys[#[trigger] order[u]] != key
}

proof fn lemma_fbk_first(order: Seq<int>, keys: Seq<Seq<char>>)
    ensures
        forall|j: int| 0 <= j < first_by_key(order, keys).len() ==> exists|v: int|
            0 <= v < order.len() && order[v] == #[trigger] first_by_key(order, keys)[j]
                && unseen_before(order, keys, v, keys[first_by_key(order, keys)[j]]),
    decreases order.len(),
{
    if order.len() > 0 {
        let init = order.drop_last();
        lemma_fbk_first(init, keys);
        lemma_fbk_covers(init, keys);
        let d = first_by_key(init, keys);
        let r = first_by_key(order, keys);
        let last = order.last();
        assert forall|j: int| 0 <= j < r.len() implies exists|v: int|
            0 <= v < order.len() && order[v] == #[trigger] r[j] && unseen_before(order, keys, v, keys[r[j]]) by {
            if j < d.len() {
                assert(r[j] == d[j]);
                let v = choose|v: int| 0 <= v < init.len() && init[v] == d[j] && unseen_before(init, keys, v, keys[d[j]]);
                assert(order[v] == r[j]);
                assert(unseen_before(order, keys, v, keys[r[j]])) by {
                    reveal(unseen_before);
                    assert forall|u: int| 0 <= u < v implies keys[#[trigger] order[u]] != keys[r[j]] by {
                        assert(order[u] == init[u]);
                    }
                }
            } else {
                assert(r[j] == last);
                let v = order.len() - 1;
                assert(unseen_before(order, keys, v, keys[r[j]])) by {
                    reveal(unseen_before);
                    assert forall|u: int| 0 <= u < v implies keys[#[trigger] order[u]] != keys[r[j]] by {
                        assert(order[u] == init[u]);
                        if keys[order[u]] == keys[last] {
                            let q = choose|q: int| 0 <= q < d.len() && keys[#[trigger] d[q]] == keys[#[trigger] init[u]];
                            assert(keys[d[q]] == keys[last]);
                        }
                    }
                }
                assert(order[v] == r[j]);
            }
        }
    }
}

proof fn lemma_kept_sorted(ranks: Seq<u8>, keys: Seq<Seq<char>>)
    ensures
        forall|a: int, b: int| 0 <= a < b < first_by_key(precedence_order(ranks), keys).len() ==> {
            let ia = #[trigger] first_by_key(precedence_order(ranks), keys)[a];
            let ib = #[trigger] first_by_key(precedence_order(ranks), keys)[b];
            keys[ia] != keys[ib] && ranks[ia] <= ranks[ib]
        },
{
    let order = precedence_order(ranks);
    let kept = first_by_key(order, keys);
    lemma_ranked_below(ranks, 5, ranks.len());
    lemma_fbk_distinct(order, keys);
    lemma_fbk_ordered(order, keys);
    assert forall|a: int, b: int| 0 <= a < b < kept.len() implies {
        let ia = #[trigger] kept[a];
        let ib = #[trigger] kept[b];
        keys[ia] != keys[ib] && ranks[ia] <= ranks[ib]
    } by {
        let (p, q) = choose|p: int, q: int| 0 <= p < q < order.len() && order[p] == #[trigger] kept[a] && order[q] == #[trigger] kept[b];
        assert(ranks[order[p]] <= ranks[order[q]]);
    }
}

proof fn lemma_cover_one(order: Seq<int>, ranks: Seq<u8>, keys: Seq<Seq<char>>, w: int)
    requires
        0 <= w < order.len(),
        forall|a: int, b: int| 0 <= a < b < order.len() ==> ranks[#[trigger] order[a]] <= ranks[#[trigger] order[b]],
    ensures
        exists|j: int| 0 <= j < first_by_key(order, keys).len()
            && keys[#[trigger] first_by_key(order, keys)[j]] === keys[order[w]]
            && ranks[first_by_key(order, keys)[j]] <= ranks[order[w]],
{
    let kept = first_by_key(order, keys);
    lemma_fbk_covers(order, keys);
    lemma_fbk_first(order, keys);
    let j = choose|j: int| 0 <= j < kept.len() && keys[#[trigger] kept[j]] == keys[#[trigger] order[w]];
    let v = choose|v: int| 0 <= v < order.len() && order[v] == kept[j] && unseen_before(order, keys, v, keys[kept[j]]);
    if w < v {
        reveal(unseen_before);
        assert(keys[order[w]] == keys[kept[j]]);
    }
    if v < w {
        assert(ranks[order[v]] <= ranks[order[w]]);
    }
    assert(ranks[kept[j]] <= ranks[order[w]]);
}

/// Whether some kept index has the key of index `i` and no larger rank.
pub open spec fn covered_by(kept: Seq<int>, ranks: Seq<u8>, keys: Seq<Seq<char>>, i: int) -> bool {
    exists|j: int| 0 <= j < kept.len() && keys[#[trigger] kept[j]] == keys[i] && ranks[kept[j]] <= ranks[i]
}

proof fn lemma_kept_covers_in(order: Seq<int>, ranks: Seq<u8>, keys: Seq<Seq<char>>)
    requires
        forall|i: int| 0 <= i < ranks.len() ==> order.contains(i),
        forall|a: int, b: int| 0 <= a < b < order.len() ==> ranks[#[trigger] order[a]] <= ranks[#[trigger] order[b]],
    ensures
        forall|i: int| 0 <= i < ranks.len() ==> #[trigger] covered_by(first_by_key(order, keys), ranks, keys, i),
{
    assert forall|i: int| 0 <= i < ranks.len() implies #[trigger] covered_by(first_by_key(order, keys), ranks, keys, i) by {
        assert(order.contains(i));
        let w = choose|w: int| 0 <= w < order.len() && order[w] == i;
        lemma_cover_one(order, ranks, keys, w);
        let j = choose|j: int| 0 <= j < first_by_key(order, keys).len()
            && keys[#[trigger] first_by_key(order, keys)[j]] === keys[order[w]]
            && ranks[first_by_key(order, keys)[j]] <= ranks[order[w]];
        assert(keys[first_by_key(order, keys)[j]] == keys[i]);
        assert(ranks[first_by_key(order, keys)[j]] <= ranks[i]);
    }
}

proof fn lemma_kept_covers(ranks: Seq<u8>, keys: Seq<Seq<char>>)
    requires
        forall|i: int| 0 <= i < ranks.len() ==> #[trigger] ranks[i] < 5,
    ensures
        forall|i: int| 0 <= i < ranks.len() ==> #[trigger] covered_by(first_by_key(precedence_order(ranks), keys), ranks, keys, i),
{
    lemma_ranked_below(ranks, 5, ranks.len());
    lemma_kept_covers_in(precedence_order(ranks), ranks, keys);
}

/// Precedence resolution keeps each canonical path once, orders what it
/// keeps by precedence rank, and loses no canonical path: every input's
/// canonical path is that of a kept resource of no larger rank.
pub proof fn law_resolved_precedence(resources: Seq<ResolvedResource>, canonical: Seq<Seq<char>>)
    requires
        canonical.len() == resources.len(),
    ensures
        forall|a: int, b: int| 0 <= a < b < resolved_indices(resources, canonical).len() ==> {
            let ia = #[trigger] resolved_indices(resources, canonical)[a];
            let ib = #[trigger] resolved_indices(resources, canonical)[b];
            canonical[ia] != canonical[ib] && resource_rank(resources[ia]) <= resource_rank(resources[ib])
        },
        forall|i: int| 0 <= i < resources.len() ==> #[trigger] covered_by(
            resolved_indices(resources, canonical),
            resource_ranks(resources),
            canonical,
            i,
        ),
{
    let ranks = resource_ranks(resources);
    assert forall|i: int| 0 <= i < ranks.len() implies #[trigger] ranks[i] < 5 by {}
    lemma_kept_sorted(ranks, canonical);
    lemma_kept_covers(ranks, canonical);
    let kept = resolved_indices(resources, canonical);
    assert(kept == first_by_key(precedence_order(ranks), canonical));
    assert forall|a: int, b: int| 0 <= a < b < kept.len() implies {
        let ia = #[trigger] kept[a];
        let ib = #[trigger] kept[b];
        canonical[ia] != canonical[ib] && resource_rank(resources[ia]) <= resource_rank(resources[ib])
    } by {
        lemma_kept_in_range(ranks, canonical, a);
        lemma_kept_in_range(ranks, canonical, b);
        assert(ranks[kept[a]] == resource_rank(resources[kept[a]]));
        assert(ranks[kept[b]] == resource_rank(resources[kept[b]]));
    }
}

proof fn lemma_kept_in_range(ranks: Seq<u8>, keys: Seq<Seq<char>>, j: int)
    requires
        0 <= j < first_by_key(precedence_order(ranks), keys).len(),
    ensures
        0 <= first_by_key(precedence_order(ranks), keys)[j] < ranks.len(),
{
    let order = precedence_order(ranks);
    lemma_ranked_below(ranks, 5, ranks.len());
    lemma_fbk_members(order, keys);
    let v = choose|v: int| 0 <= v < order.len() && order[v] == #[trigger] first_by_key(order, keys)[j];
}
} // verus!
