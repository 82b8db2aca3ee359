//! Finding resource files in folders: which files of a folder tree are
//! extensions, skills, prompts or themes.
//!
//! Folders are given as listings read beforehand: each entry's name,
//! whether it is a folder (its own type) and whether its path is a file
//! (links followed), a folder's own listing when it could be read, and
//! the extension entry points a folder declares. Hidden entries and
//! `node_modules` are passed over; a folder's entries are visited in the
//! order of their names.

use vstd::prelude::*;

use crate::order::{lemma_sorted_indices_unique, key_view, keys_view, sort_indices, sorted_indices_of, KeyView, SortKey};
use crate::packages::{path_join, path_push};
use crate::path::{ends_with, strings_view};
use crate::resource_loader::glob;
use crate::text::{chars_of, seqs_of, split_chars, split_on};

verus! {

/// An entry of a folder listing.
pub struct FsEntry {
    pub name: String,
    pub is_dir: bool,
    pub is_file: bool,
    pub entries: Option<Vec<FsEntry>>,
    pub extension_entries: Option<Vec<String>>,
}

/// The sort keys of a listing: the entries' names.
pub open spec fn name_keys(l: Seq<FsEntry>) -> Seq<KeyView> {
    Seq::new(l.len(), |i: int| (0int, 0int, l[i].name@, Seq::<char>::empty()))
}

/// The positions of a listing's entries in the order of their names.
pub open spec fn name_order(l: Seq<FsEntry>) -> Seq<usize> {
    choose|ord: Seq<usize>| sorted_indices_of(name_keys(l), l.len() as int, ord)
}

/// A name the walks pass over: hidden, or `node_modules`.
pub open spec fn skipped(name: Seq<char>) -> bool {
    (name.len() > 0 && name[0] == '.') || name == "node_modules"@
}

/// The files under a folder (at `path`, listed as `l`) whose names end
/// with `pattern`, folders walked depth first in name order.
pub open spec fn files_in(path: Seq<char>, l: Seq<FsEntry>, pattern: Seq<char>) -> Seq<Seq<char>>
    decreases l, l.len() + 1,
{
    files_from(path, l, pattern, name_order(l), 0)
}

/// `files_in` from the `k`-th entry in name order on.
pub open spec fn files_from(path: Seq<char>, l: Seq<FsEntry>, pattern: Seq<char>, ord: Seq<usize>, k: int) -> Seq<Seq<char>>
    decreases l, l.len() - k,
{
    if k < 0 || k >= ord.len() || k >= l.len() || ord[k] >= l.len() {
        Seq::<Seq<char>>::empty()
    } else {
        let e = l[ord[k] as int];
        let here = if skipped(e.name@) {
            Seq::<Seq<char>>::empty()
        } else if e.is_dir {
            match e.entries {
                Some(c) => files_in(path_push(path, e.name@), c@, pattern),
                None => Seq::<Seq<char>>::empty(),
            }
        } else if e.is_file && ends_with(e.name@, pattern) {
            seq![path_push(path, e.name@)]
        } else {
            Seq::<Seq<char>>::empty()
        };
        here + files_from(path, l, pattern, ord, k + 1)
    }
}

fn name_sort(listing: &Vec<FsEntry>) -> (ord: Vec<usize>)
    ensures
        ord@ == name_order(listing@),
        sorted_indices_of(name_keys(listing@), listing@.len() as int, ord@),
{
    let mut keys: Vec<SortKey> = Vec::new();
    let mut k: usize = 0;
    while k < listing.len()
        invariant
            k <= listing@.len(),
            keys@.len() == k,
            forall|m: int| 0 <= m < k ==> #[trigger] key_view(keys@[m]) == (0int, 0int, listing@[m].name@, Seq::<char>::empty()),
        decreases listing@.len() - k,
    {
        let none: Vec<char> = Vec::new();
        keys.push(SortKey { rank: 0, tie: 0, first: chars_of(listing[k].name.as_str()), second: none });
        k += 1;
    }
    assert(keys_view(keys@) =~= name_keys(listing@));
    let ord = sort_indices(&keys);
    proof {
        let chosen = name_order(listing@);
        assert(sorted_indices_of(name_keys(listing@), listing@.len() as int, chosen));
        lemma_sorted_indices_unique(name_keys(listing@), listing@.len() as int, ord@, chosen);
    }
    ord
}

fn append_all(out: &mut Vec<String>, more: Vec<String>)
    ensures
        strings_view(final(out)@) == strings_view(old(out)@) + strings_view(more@),
{
    let ghost start = strings_view(out@);
    let mut i: usize = 0;
    while i < more.len()
        invariant
            i <= more@.len(),
            strings_view(out@) == start + strings_view(more@).take(i as int),
        decreases more@.len() - i,
    {
        let ghost before = strings_view(out@);
        out.push(more[i].clone());
        assert(strings_view(out@) =~= before.push(more@[i as int]@));
        assert(strings_view(more@).take(i + 1) =~= strings_view(more@).take(i as int).push(more@[i as int]@));
        i += 1;
    }
    assert(strings_view(more@).take(more@.len() as int) =~= strings_view(more@));
}

fn is_skipped(name: &str) -> (r: bool)
    ensures
        r == skipped(name@),
{
    let n = chars_of(name);
    (n.len() > 0 && n[0] == '.') || crate::text::chars_eq(&n, &chars_of("node_modules"))
}

/// The files under a folder whose names end with `pattern`.
pub fn collect_files(path: &str, listing: &Vec<FsEntry>, pattern: &str) -> (r: Vec<String>)
    ensures
        strings_view(r@) == files_in(path@, listing@, pattern@),
    decreases listing@,
{
    let ord = name_sort(listing);
    let mut k: usize = ord.len();
    let mut rest: Vec<String> = Vec::new();
    proof {
        assert(ord@.len() == listing@.len());
        assert(strings_view(rest@) =~= Seq::<Seq<char>>::empty());
    }
    while k > 0
        invariant
            k <= ord@.len(),
            ord@ == name_order(listing@),
            sorted_indices_of(name_keys(listing@), listing@.len() as int, ord@),
            strings_view(rest@) == files_from(path@, listing@, pattern@, ord@, k as int),
        decreases k,
    {
        k -= 1;
        let e = &listing[ord[k]];
        let mut here: Vec<String> = Vec::new();
        if is_skipped(e.name.as_str()) {
        } else if e.is_dir {
            match &e.entries {
                Some(c) => {
                    let child = path_join(path, e.name.as_str());
                    here = collect_files(child.as_str(), c, pattern);
                },
                None => {},
            }
        } else if e.is_file && crate::resource_loader::simple_suffix_match(pattern, e.name.as_str()) {
            here.push(path_join(path, e.name.as_str()));
        }
        append_all(&mut here, rest);
        rest = here;
    }
    assert(files_in(path@, listing@, pattern@) == files_from(path@, listing@, pattern@, ord@, 0));
    rest
}

/// The position of the first `SKILL.md`, in name order, from the `k`-th
/// entry on.
pub open spec fn skill_file_from(l: Seq<FsEntry>, ord: Seq<usize>, k: int) -> Option<int>
    decreases l.len() - k,
{
    if k < 0 || k >= ord.len() || k >= l.len() || ord[k] >= l.len() {
        None
    } else if l[ord[k] as int].name@ == "SKILL.md"@ {
        Some(ord[k] as int)
    } else {
        skill_file_from(l, ord, k + 1)
    }
}

/// The skill files under a folder: a folder holding `SKILL.md` gives that
/// file (when it is a file) and nothing else; otherwise the top folder
/// gives its own `.md` files and every subfolder is searched the same way.
pub open spec fn skills_in(path: Seq<char>, l: Seq<FsEntry>, is_root: bool) -> Seq<Seq<char>>
    decreases l, l.len() + 1,
{
    match skill_file_from(l, name_order(l), 0) {
        Some(i) => if 0 <= i < l.len() && l[i].is_file { seq![path_push(path, "SKILL.md"@)] } else { Seq::<Seq<char>>::empty() },
        None => skills_from(path, l, is_root, name_order(l), 0),
    }
}

/// `skills_in` past the `SKILL.md` check, from the `k`-th entry on.
pub open spec fn skills_from(path: Seq<char>, l: Seq<FsEntry>, is_root: bool, ord: Seq<usize>, k: int) -> Seq<Seq<char>>
    decreases l, l.len() - k,
{
    if k < 0 || k >= ord.len() || k >= l.len() || ord[k] >= l.len() {
        Seq::<Seq<char>>::empty()
    } else {
        let e = l[ord[k] as int];
        let here = if skipped(e.name@) {
            Seq::<Seq<char>>::empty()
        } else if is_root && e.is_file && ends_with(e.name@, ".md"@) {
            seq![path_push(path, e.name@)]
        } else if e.is_dir {
            match e.entries {
                Some(c) => skills_in(path_push(path, e.name@), c@, false),
                None => Seq::<Seq<char>>::empty(),
            }
        } else {
            Seq::<Seq<char>>::empty()
        };
        here + skills_from(path, l, is_root, ord, k + 1)
    }
}

/// The skill files under a folder (`is_root` for the top folder).
pub fn collect_skill_entries(path: &str, listing: &Vec<FsEntry>, is_root: bool) -> (r: Vec<String>)
    ensures
        strings_view(r@) == skills_in(path@, listing@, is_root),
    decreases listing@,
{
    let ord = name_sort(listing);
    let mut j: usize = 0;
    while j < ord.len()
        invariant
            j <= ord@.len(),
            ord@ == name_order(listing@),
            sorted_indices_of(name_keys(listing@), listing@.len() as int, ord@),
            skill_file_from(listing@, ord@, 0) == skill_file_from(listing@, ord@, j as int),
        decreases ord@.len() - j,
    {
        let e = &listing[ord[j]];
        if crate::text::chars_eq(&chars_of(e.name.as_str()), &chars_of("SKILL.md")) {
            let mut out: Vec<String> = Vec::new();
            if e.is_file {
                out.push(path_join(path, "SKILL.md"));
            }
            assert(strings_view(out@) =~= skills_in(path@, listing@, is_root));
            return out;
        }
        j += 1;
    }
    assert(skill_file_from(listing@, ord@, ord@.len() as int) is None);
    let mut k: usize = ord.len();
    let mut rest: Vec<String> = Vec::new();
    assert(strings_view(rest@) =~= Seq::<Seq<char>>::empty());
    while k > 0
        invariant
            k <= ord@.len(),
            ord@ == name_order(listing@),
            sorted_indices_of(name_keys(listing@), listing@.len() as int, ord@),
            strings_view(rest@) == skills_from(path@, listing@, is_root, ord@, k as int),
        decreases k,
    {
        k -= 1;
        let e = &listing[ord[k]];
        let mut here: Vec<String> = Vec::new();
        if is_skipped(e.name.as_str()) {
        } else if is_root && e.is_file && crate::resource_loader::simple_suffix_match(".md", e.name.as_str()) {
            here.push(path_join(path, e.name.as_str()));
        } else if e.is_dir {
            match &e.entries {
                Some(c) => {
                    let child = path_join(path, e.name.as_str());
                    here = collect_skill_entries(child.as_str(), c, false);
                },
                None => {},
            }
        }
        append_all(&mut here, rest);
        rest = here;
    }
    rest
}

/// A folder's extension entry points: the entries its package manifest
/// lists that exist, or else its `init.lua`, or none.
pub open spec fn spec_extension_entries(dir: Seq<char>, manifest: Option<Seq<(Seq<char>, bool)>>, init_exists: bool) -> Option<Seq<Seq<char>>> {
    let listed = match manifest {
        Some(es) => existing_entries(dir, es),
        None => Seq::<Seq<char>>::empty(),
    };
    if listed.len() > 0 {
        Some(listed)
    } else if init_exists {
        Some(seq![path_push(dir, "init.lua"@)])
    } else {
        None
    }
}

/// The manifest entries that exist, joined onto the folder.
pub open spec fn existing_entries(dir: Seq<char>, es: Seq<(Seq<char>, bool)>) -> Seq<Seq<char>>
    decreases es.len(),
{
    if es.len() == 0 {
        Seq::<Seq<char>>::empty()
    } else {
        let init = existing_entries(dir, es.drop_last());
        if es.last().1 { init.push(path_push(dir, es.last().0)) } else { init }
    }
}

/// A folder's extension entry points, from the `extensions` its package
/// manifest lists (with whether each exists under the folder) and whether
/// it has an `init.lua`.
pub fn resolve_extension_entries(dir: &str, manifest: Option<&Vec<(String, bool)>>, init_exists: bool) -> (r: Option<Vec<String>>)
    ensures
        match r {
            Some(v) => spec_extension_entries(dir@, match manifest {
                Some(m) => Some(Seq::new(m@.len(), |i: int| (m@[i].0@, m@[i].1))),
                None => None,
            }, init_exists) == Some(strings_view(v@)),
            None => spec_extension_entries(dir@, match manifest {
                Some(m) => Some(Seq::new(m@.len(), |i: int| (m@[i].0@, m@[i].1))),
                None => None,
            }, init_exists) is None,
        },
{
    let ghost mv = match manifest {
        Some(m) => Some(Seq::new(m@.len(), |i: int| (m@[i].0@, m@[i].1))),
        None => None::<Seq<(Seq<char>, bool)>>,
    };
    let mut listed: Vec<String> = Vec::new();
    match manifest {
        Some(m) => {
            let ghost ms = Seq::new(m@.len(), |i: int| (m@[i].0@, m@[i].1));
            let mut i: usize = 0;
            assert(ms.take(0) =~= Seq::<(Seq<char>, bool)>::empty());
            assert(strings_view(listed@) =~= Seq::<Seq<char>>::empty());
            while i < m.len()
                invariant
                    i <= m@.len(),
                    ms == Seq::new(m@.len(), |q: int| (m@[q].0@, m@[q].1)),
                    strings_view(listed@) == existing_entries(dir@, ms.take(i as int)),
                decreases m@.len() - i,
            {
                let ghost t = ms.take(i + 1);
                assert(t.drop_last() =~= ms.take(i as int));
                assert(t.last() == ms[i as int]);
                if m[i].1 {
                    let ghost before = strings_view(listed@);
                    listed.push(path_join(dir, m[i].0.as_str()));
                    assert(strings_view(listed@) =~= before.push(path_push(dir@, m@[i as int].0@)));
                }
                i += 1;
            }
            assert(ms.take(m@.len() as int) =~= ms);
        },
        None => {
            assert(strings_view(listed@) =~= Seq::<Seq<char>>::empty());
        },
    }
    if listed.len() > 0 {
        return Some(listed);
    }
    if init_exists {
        let v = vec![path_join(dir, "init.lua")];
        assert(strings_view(v@) =~= seq![path_push(dir@, "init.lua"@)]);
        return Some(v);
    }
    None
}

/// The extension files under a folder with no entry points of its own:
/// its `.lua` files, and the entry points of its subfolders.
pub open spec fn extensions_from(path: Seq<char>, l: Seq<FsEntry>, ord: Seq<usize>, k: int) -> Seq<Seq<char>>
    decreases l.len() - k,
{
    if k < 0 || k >= ord.len() || k >= l.len() || ord[k] >= l.len() {
        Seq::<Seq<char>>::empty()
    } else {
        let e = l[ord[k] as int];
        let here = if skipped(e.name@) {
            Seq::<Seq<char>>::empty()
        } else if e.is_file && ends_with(e.name@, ".lua"@) {
            seq![path_push(path, e.name@)]
        } else if e.is_dir {
            match e.extension_entries {
                Some(v) => strings_view(v@),
                None => Seq::<Seq<char>>::empty(),
            }
        } else {
            Seq::<Seq<char>>::empty()
        };
        here + extensions_from(path, l, ord, k + 1)
    }
}

/// The extensions of a folder: its own entry points when it has them,
/// else its `.lua` files and the entry points of its subfolders.
pub open spec fn extensions_in(path: Seq<char>, own: Option<Seq<Seq<char>>>, l: Seq<FsEntry>) -> Seq<Seq<char>> {
    match own {
        Some(v) => v,
        None => extensions_from(path, l, name_order(l), 0),
    }
}

fn copy_strings(v: &Vec<String>) -> (r: Vec<String>)
    ensures
        strings_view(r@) == strings_view(v@),
{
    let mut out: Vec<String> = Vec::new();
    append_all(&mut out, v.clone());
    assert(strings_view(out@) =~= strings_view(v@));
    out
}

/// The extension files of a folder given its own entry points (see
/// [`resolve_extension_entries`]).
pub fn collect_auto_extension_entries(path: &str, own: Option<&Vec<String>>, listing: &Vec<FsEntry>) -> (r: Vec<String>)
    ensures
        strings_view(r@) == extensions_in(path@, match own {
            Some(v) => Some(strings_view(v@)),
            None => None,
        }, listing@),
{
    match own {
        Some(v) => {
            return copy_strings(v);
        },
        None => {},
    }
    let ord = name_sort(listing);
    let mut k: usize = ord.len();
    let mut rest: Vec<String> = Vec::new();
    assert(strings_view(rest@) =~= Seq::<Seq<char>>::empty());
    while k > 0
        invariant
            k <= ord@.len(),
            ord@ == name_order(listing@),
            sorted_indices_of(name_keys(listing@), listing@.len() as int, ord@),
            strings_view(rest@) == extensions_from(path@, listing@, ord@, k as int),
        decreases k,
    {
        k -= 1;
        let e = &listing[ord[k]];
        let mut here: Vec<String> = Vec::new();
        if is_skipped(e.name.as_str()) {
        } else if e.is_file && crate::resource_loader::simple_suffix_match(".lua", e.name.as_str()) {
            here.push(path_join(path, e.name.as_str()));
        } else if e.is_dir {
            match &e.extension_entries {
                Some(v) => {
                    here = copy_strings(v);
                },
                None => {},
            }
        }
        append_all(&mut here, rest);
        rest = here;
    }
    rest
}

/// A glob pattern with `\` read as `/`.
pub open spec fn forward_slashes(s: Seq<char>) -> Seq<char> {
    Seq::new(s.len(), |i: int| if s[i] == '\\' { '/' } else { s[i] })
}

/// The paths under a folder (at `path`, with listing `l` when it could be
/// read) that match the glob segments `segs`: `**` matches any depth of
/// folders (visited in name order), another segment matches one entry by
/// name (in listing order).
pub open spec fn glob_walk(path: Seq<char>, l: Option<Vec<FsEntry>>, segs: Seq<Seq<char>>) -> Seq<Seq<char>>
    decreases l, segs.len(), 0int,
{
    if segs.len() == 0 {
        seq![path]
    } else if segs[0] == "**"@ {
        glob_walk(path, l, segs.skip(1)) + match l {
            Some(v) => glob_star_from(path, v@, segs, name_order(v@), 0),
            None => Seq::<Seq<char>>::empty(),
        }
    } else {
        match l {
            Some(v) => glob_segment_from(path, v@, segs, 0),
            None => Seq::<Seq<char>>::empty(),
        }
    }
}

/// The `**` walk into the subfolders of a listing, from the `k`-th in
/// name order on.
pub open spec fn glob_star_from(path: Seq<char>, ls: Seq<FsEntry>, segs: Seq<Seq<char>>, ord: Seq<usize>, k: int) -> Seq<Seq<char>>
    decreases ls, 0int, ls.len() - k,
{
    if k < 0 || k >= ord.len() || k >= ls.len() || ord[k] >= ls.len() {
        Seq::<Seq<char>>::empty()
    } else {
        let e = ls[ord[k] as int];
        let here = if e.is_dir { glob_walk(path_push(path, e.name@), e.entries, segs) } else { Seq::<Seq<char>>::empty() };
        here + glob_star_from(path, ls, segs, ord, k + 1)
    }
}

/// The entries of a listing matching the first segment, from the `k`-th
/// in listing order on.
pub open spec fn glob_segment_from(path: Seq<char>, ls: Seq<FsEntry>, segs: Seq<Seq<char>>, k: int) -> Seq<Seq<char>>
    decreases ls, 0int, ls.len() - k,
{
    if k < 0 || k >= ls.len() || segs.len() == 0 {
        Seq::<Seq<char>>::empty()
    } else {
        let e = ls[k];
        let here = if !glob(segs[0], 0, e.name@, 0) {
            Seq::<Seq<char>>::empty()
        } else if segs.len() == 1 {
            seq![path_push(path, e.name@)]
        } else if e.is_dir {
            glob_walk(path_push(path, e.name@), e.entries, segs.skip(1))
        } else {
            Seq::<Seq<char>>::empty()
        };
        here + glob_segment_from(path, ls, segs, k + 1)
    }
}

fn glob_unreadable(path: &str, segs: &Vec<Vec<char>>, start: usize) -> (r: Vec<String>)
    requires
        start <= segs@.len(),
    ensures
        strings_view(r@) == glob_walk(path@, None, seqs_of(segs@).skip(start as int)),
    decreases segs@.len() - start,
{
    let ghost ss = seqs_of(segs@).skip(start as int);
    if start == segs.len() {
        let v = vec![path.to_owned()];
        assert(strings_view(v@) =~= seq![path@]);
        return v;
    }
    assert(ss[0] == segs@[start as int]@);
    assert(seqs_of(segs@).skip(start + 1) =~= ss.skip(1));
    if crate::text::chars_eq(&segs[start], &chars_of("**")) {
        let r = glob_unreadable(path, segs, start + 1);
        assert(strings_view(r@) + Seq::<Seq<char>>::empty() =~= strings_view(r@));
        r
    } else {
        let r: Vec<String> = Vec::new();
        assert(strings_view(r@) =~= Seq::<Seq<char>>::empty());
        r
    }
}

fn glob_child(path: &str, l: &Option<Vec<FsEntry>>, segs: &Vec<Vec<char>>, start: usize) -> (r: Vec<String>)
    requires
        start <= segs@.len(),
    ensures
        strings_view(r@) == glob_walk(path@, *l, seqs_of(segs@).skip(start as int)),
    decreases *l, segs@.len() - start, 1int,
{
    match l {
        Some(v) => glob_listing(path, v, segs, start),
        None => glob_unreadable(path, segs, start),
    }
}

fn glob_listing(path: &str, v: &Vec<FsEntry>, segs: &Vec<Vec<char>>, start: usize) -> (r: Vec<String>)
    requires
        start <= segs@.len(),
    ensures
        strings_view(r@) == glob_walk(path@, Some(*v), seqs_of(segs@).skip(start as int)),
    decreases v@, segs@.len() - start, 0int,
{
    let ghost ss = seqs_of(segs@).skip(start as int);
    if start == segs.len() {
        let out = vec![path.to_owned()];
        assert(strings_view(out@) =~= seq![path@]);
        return out;
    }
    let seg = &segs[start];
    let next = start + 1;
    assert(ss[0] == seg@);
    assert(seqs_of(segs@).skip(next as int) =~= ss.skip(1));
    if crate::text::chars_eq(seg, &chars_of("**")) {
        let mut out = glob_listing(path, v, segs, next);
        let ord = name_sort(v);
        let mut k: usize = ord.len();
        let mut rest: Vec<String> = Vec::new();
        assert(strings_view(rest@) =~= Seq::<Seq<char>>::empty());
        while k > 0
            invariant
                k <= ord@.len(),
                start < segs@.len(),
                ss == seqs_of(segs@).skip(start as int),
                ord@ == name_order(v@),
                sorted_indices_of(name_keys(v@), v@.len() as int, ord@),
                strings_view(rest@) == glob_star_from(path@, v@, ss, ord@, k as int),
            decreases k,
        {
            k -= 1;
            let e = &v[ord[k]];
            let mut here: Vec<String> = Vec::new();
            if e.is_dir {
                let child = path_join(path, e.name.as_str());
                here = glob_child(child.as_str(), &e.entries, segs, start);
            }
            append_all(&mut here, rest);
            rest = here;
        }
        append_all(&mut out, rest);
        return out;
    }
    let pattern = crate::text::string_of(seg.as_slice());
    let mut k: usize = v.len();
    let mut rest: Vec<String> = Vec::new();
    assert(strings_view(rest@) =~= Seq::<Seq<char>>::empty());
    while k > 0
        invariant
            k <= v@.len(),
            next == start + 1,
            start < segs@.len(),
            ss == seqs_of(segs@).skip(start as int),
            seqs_of(segs@).skip(next as int) == ss.skip(1),
            pattern@ == ss[0],
            strings_view(rest@) == glob_segment_from(path@, v@, ss, k as int),
        decreases k,
    {
        k -= 1;
        let e = &v[k];
        let mut here: Vec<String> = Vec::new();
        if crate::resource_loader::glob_match(pattern.as_str(), e.name.as_str()) {
            if next == segs.len() {
                here.push(path_join(path, e.name.as_str()));
            } else if e.is_dir {
                let child = path_join(path, e.name.as_str());
                here = glob_child(child.as_str(), &e.entries, segs, next);
            }
        }
        append_all(&mut here, rest);
        rest = here;
    }
    rest
}

/// The paths under `root` matching a glob pattern (`\` read as `/`;
/// segments split at `/`).
pub fn glob_expand(root: &str, listing: &Option<Vec<FsEntry>>, pattern: &str) -> (r: Vec<String>)
    ensures
        strings_view(r@) == glob_walk(root@, *listing, split_on(forward_slashes(pattern@), '/')),
{
    let p = chars_of(pattern);
    let mut normalized: Vec<char> = Vec::new();
    let mut i: usize = 0;
    while i < p.len()
        invariant
            i <= p@.len(),
            normalized@ == forward_slashes(p@).take(i as int),
        decreases p@.len() - i,
    {
        let c = if p[i] == '\\' { '/' } else { p[i] };
        normalized.push(c);
        assert(forward_slashes(p@).take(i + 1) =~= forward_slashes(p@).take(i as int).push(c));
        i += 1;
    }
    assert(forward_slashes(p@).take(p@.len() as int) =~= forward_slashes(p@));
    let segs = split_chars(&normalized, '/');
    assert(seqs_of(segs@).skip(0) =~= seqs_of(segs@));
    glob_child(root, listing, &segs, 0)
}

/// The files of a folder (not its subfolders) with the given extension.
pub open spec fn flat_from(path: Seq<char>, l: Seq<FsEntry>, extension: Seq<char>, ord: Seq<usize>, k: int) -> Seq<Seq<char>>
    decreases l.len() - k,
{
    if k < 0 || k >= ord.len() || k >= l.len() || ord[k] >= l.len() {
        Seq::<Seq<char>>::empty()
    } else {
        let e = l[ord[k] as int];
        let here = if !skipped(e.name@) && e.is_file && ends_with(e.name@, seq!['.'] + extension) {
            seq![path_push(path, e.name@)]
        } else {
            Seq::<Seq<char>>::empty()
        };
        here + flat_from(path, l, extension, ord, k + 1)
    }
}

/// The files of a folder (not its subfolders) with the given extension,
/// in name order.
pub fn collect_flat_entries(path: &str, listing: &Vec<FsEntry>, extension: &str) -> (r: Vec<String>)
    ensures
        strings_view(r@) == flat_from(path@, listing@, extension@, name_order(listing@), 0),
{
    let mut suffix = vec!['.'];
    crate::text::extend_chars(&mut suffix, &chars_of(extension));
    let suffix_text = crate::text::string_of(suffix.as_slice());
    assert(suffix_text@ =~= seq!['.'] + extension@);
    let ord = name_sort(listing);
    let mut k: usize = ord.len();
    let mut rest: Vec<String> = Vec::new();
    assert(strings_view(rest@) =~= Seq::<Seq<char>>::empty());
    while k > 0
        invariant
            k <= ord@.len(),
            ord@ == name_order(listing@),
            sorted_indices_of(name_keys(listing@), listing@.len() as int, ord@),
            suffix_text@ == seq!['.'] + extension@,
            strings_view(rest@) == flat_from(path@, listing@, extension@, ord@, k as int),
        decreases k,
    {
        k -= 1;
        let e = &listing[ord[k]];
        let mut here: Vec<String> = Vec::new();
        if !is_skipped(e.name.as_str()) && e.is_file && crate::resource_loader::simple_suffix_match(suffix_text.as_str(), e.name.as_str()) {
            here.push(path_join(path, e.name.as_str()));
        }
        append_all(&mut here, rest);
        rest = here;
    }
    rest
}

} // verus!
