//! Line and word diffs in the style of jsdiff 8 (`diffLines`, `diffWords`,
//! `createTwoFilesPatch` with default options): Myers' O(ND) search with
//! jsdiff's edge clamping, token stitching and patch assembly.

use vstd::prelude::*;

use crate::error::push_unsigned;
use crate::text::{debug_quote, chars_eq, chars_of, concat_chars, copy_range, extend_chars, seqs_of, string_of};

verus! {

/// Errors of the diff engine. With the entry points here they do not
/// occur: they guard internal assumptions so the engine stays total.
pub enum JsDiffError {
    Internal(String),
}

/// One change object: a run of tokens kept, added or removed.
pub struct Change {
    pub value: String,
    pub count: usize,
    pub added: bool,
    pub removed: bool,
}

/// A run of `count` tokens: added (only in the new text), removed (only
/// in the old text) or common.
#[derive(Clone, Copy)]
pub struct Component {
    pub count: usize,
    pub added: bool,
    pub removed: bool,
}

/// How two tokens are compared.
#[derive(Clone, Copy)]
pub enum TokenEq {
    /// Equal characters.
    Exact,
    /// Equal once JavaScript whitespace is trimmed from both ends.
    TrimmedJs,
}

/// JavaScript's `\s` (and `String.prototype.trim`) whitespace set.
pub open spec fn spec_js_ws(c: char) -> bool {
    c == '\t' || c == '\n' || c == '\u{B}' || c == '\u{C}' || c == '\r' || c == ' ' || c == '\u{A0}'
        || c == '\u{1680}' || ('\u{2000}' <= c && c <= '\u{200A}') || c == '\u{2028}'
        || c == '\u{2029}' || c == '\u{202F}' || c == '\u{205F}' || c == '\u{3000}' || c == '\u{FEFF}'
}

pub fn is_js_whitespace(c: char) -> (r: bool)
    ensures
        r == spec_js_ws(c),
{
    c == '\t' || c == '\n' || c == '\u{B}' || c == '\u{C}' || c == '\r' || c == ' ' || c == '\u{A0}'
        || c == '\u{1680}' || ('\u{2000}' <= c && c <= '\u{200A}') || c == '\u{2028}'
        || c == '\u{2029}' || c == '\u{202F}' || c == '\u{205F}' || c == '\u{3000}' || c == '\u{FEFF}'
}

/// Index of the first non-whitespace character at or after `i`.
pub open spec fn js_ws_start(s: Seq<char>, i: int) -> int
    decreases s.len() - i,
{
    if i >= s.len() || !spec_js_ws(s[i]) { i } else { js_ws_start(s, i + 1) }
}

/// Index after the last non-whitespace character, at or before `j`.
pub open spec fn js_ws_end(s: Seq<char>, lo: int, j: int) -> int
    decreases j - lo,
{
    if j <= lo || !spec_js_ws(s[j - 1]) { j } else { js_ws_end(s, lo, j - 1) }
}

/// JavaScript `trim`.
pub open spec fn spec_trim_js(s: Seq<char>) -> Seq<char> {
    let a = js_ws_start(s, 0);
    s.subrange(a, js_ws_end(s, a, s.len() as int))
}

/// Whether two tokens are equal under the comparison.
pub open spec fn tokens_equal(mode: TokenEq, a: Seq<char>, b: Seq<char>) -> bool {
    match mode {
        TokenEq::Exact => a == b,
        TokenEq::TrimmedJs => spec_trim_js(a) == spec_trim_js(b),
    }
}

proof fn lemma_js_ws_start(s: Seq<char>, i: int)
    requires
        0 <= i <= s.len(),
    ensures
        i <= js_ws_start(s, i) <= s.len(),
    decreases s.len() - i,
{
    if i < s.len() && spec_js_ws(s[i]) {
        lemma_js_ws_start(s, i + 1);
    }
}

proof fn lemma_js_ws_end(s: Seq<char>, lo: int, j: int)
    requires
        0 <= lo <= j <= s.len(),
    ensures
        lo <= js_ws_end(s, lo, j) <= j,
    decreases j - lo,
{
    if j > lo && spec_js_ws(s[j - 1]) {
        lemma_js_ws_end(s, lo, j - 1);
    }
}

/// The bounds of `s` with JavaScript whitespace trimmed from both ends.
fn trim_js_bounds(s: &Vec<char>) -> (r: (usize, usize))
    ensures
        r.0 == js_ws_start(s@, 0),
        r.1 == js_ws_end(s@, r.0 as int, s@.len() as int),
        r.0 <= r.1 <= s@.len(),
{
    let mut a: usize = 0;
    while a < s.len() && is_js_whitespace(s[a])
        invariant
            a <= s@.len(),
            js_ws_start(s@, 0) == js_ws_start(s@, a as int),
        decreases s@.len() - a,
    {
        a += 1;
    }
    let mut b = s.len();
    while b > a && is_js_whitespace(s[b - 1])
        invariant
            a <= b <= s@.len(),
            js_ws_end(s@, a as int, s@.len() as int) == js_ws_end(s@, a as int, b as int),
        decreases b,
    {
        b -= 1;
    }
    (a, b)
}

fn tokens_eq(mode: TokenEq, a: &Vec<char>, b: &Vec<char>) -> (r: bool)
    ensures
        r == tokens_equal(mode, a@, b@),
{
    match mode {
        TokenEq::Exact => chars_eq(a, b),
        TokenEq::TrimmedJs => {
            let (a0, a1) = trim_js_bounds(a);
            let (b0, b1) = trim_js_bounds(b);
            if a1 - a0 != b1 - b0 {
                assert(a@.subrange(a0 as int, a1 as int).len() != b@.subrange(b0 as int, b1 as int).len());
                return false;
            }
            let mut i: usize = 0;
            let ghost sa = a@.subrange(a0 as int, a1 as int);
            let ghost sb = b@.subrange(b0 as int, b1 as int);
            while i < a1 - a0
                invariant
                    a0 <= a1 <= a@.len(),
                    b0 <= b1 <= b@.len(),
                    a1 - a0 == b1 - b0,
                    i <= a1 - a0,
                    sa == a@.subrange(a0 as int, a1 as int),
                    sb == b@.subrange(b0 as int, b1 as int),
                    sa == spec_trim_js(a@),
                    sb == spec_trim_js(b@),
                    forall|k: int| 0 <= k < i ==> sa[k] == sb[k],
                decreases a1 - a0 - i,
            {
                if a[a0 + i] != b[b0 + i] {
                    assert(sa[i as int] != sb[i as int]);
                    assert(sa == spec_trim_js(a@));
                    assert(sb == spec_trim_js(b@));
                    return false;
                }
                assert(sa[i as int] == a@[a0 + i]);
                assert(sb[i as int] == b@[b0 + i]);
                i += 1;
            }
            assert(a@.subrange(a0 as int, a1 as int) =~= b@.subrange(b0 as int, b1 as int));
            true
        },
    }
}

/// `cs` is an edit script turning the first `o` old tokens into the first
/// `n` new tokens: positive counts, added runs consume new tokens, removed
/// runs consume old tokens, and common runs consume equal tokens of both.
pub open spec fn valid_script(
    cs: Seq<Component>,
    old: Seq<Seq<char>>,
    new: Seq<Seq<char>>,
    o: int,
    n: int,
    mode: TokenEq,
) -> bool
    decreases cs.len(),
{
    if cs.len() == 0 {
        o == 0 && n == 0
    } else {
        let c = cs.last();
        let k = c.count as int;
        &&& k > 0
        &&& !(c.added && c.removed)
        &&& if c.added {
            k <= n && valid_script(cs.drop_last(), old, new, o, n - k, mode)
        } else if c.removed {
            k <= o && valid_script(cs.drop_last(), old, new, o - k, n, mode)
        } else {
            &&& k <= o
            &&& k <= n
            &&& o <= old.len()
            &&& n <= new.len()
            &&& forall|i: int| 0 <= i < k ==> tokens_equal(mode, #[trigger] old[o - k + i], new[n - k + i])
            &&& valid_script(cs.drop_last(), old, new, o - k, n - k, mode)
        }
    }
}

/// One node of the path arena: a component and the node before it.
#[derive(Clone, Copy)]
struct NodeRec {
    comp: Component,
    prev: Option<usize>,
}

/// A search path: old tokens consumed and its last node.
#[derive(Clone, Copy)]
struct PathState {
    o: usize,
    last: Option<usize>,
}

/// Every node points back to an earlier node.
spec fn arena_ok(nodes: Seq<NodeRec>) -> bool {
    forall|i: int| 0 <= i < nodes.len() ==> (#[trigger] nodes[i].prev matches Some(p) ==> p < i)
}

/// The components of the chain ending at node `i`.
spec fn chain(nodes: Seq<NodeRec>, i: int) -> Seq<Component>
    decreases i,
{
    if i < 0 || i >= nodes.len() {
        Seq::<Component>::empty()
    } else {
        let nd = nodes[i];
        let base = match nd.prev {
            Some(p) => if p < i { chain(nodes, p as int) } else { Seq::<Component>::empty() },
            None => Seq::<Component>::empty(),
        };
        base.push(nd.comp)
    }
}

spec fn path_comps(nodes: Seq<NodeRec>, last: Option<usize>) -> Seq<Component> {
    match last {
        Some(i) => chain(nodes, i as int),
        None => Seq::<Component>::empty(),
    }
}

proof fn lemma_chain_prefix(a: Seq<NodeRec>, b: Seq<NodeRec>, i: int)
    requires
        a.len() <= b.len(),
        b.take(a.len() as int) == a,
        0 <= i < a.len(),
    ensures
        chain(b, i) == chain(a, i),
    decreases i,
{
    assert(b[i] == a[i]) by {
        assert(b.take(a.len() as int)[i] == b[i]);
    }
    match a[i].prev {
        Some(p) => {
            if p < i {
                lemma_chain_prefix(a, b, p as int);
            }
        },
        None => {},
    }
}

/// Whether component `i` differs in kind (added, removed, common) from
/// the one before it.
pub open spec fn comp_differs_at(cs: Seq<Component>, i: int) -> bool {
    !(cs[i - 1].added == cs[i].added && cs[i - 1].removed == cs[i].removed)
}

/// Whether neighbouring components always differ in kind.
pub open spec fn comps_alternate(cs: Seq<Component>) -> bool {
    forall|i: int| 1 <= i < cs.len() ==> #[trigger] comp_differs_at(cs, i)
}

/// Whether change `i` differs in kind from the one before it.
pub open spec fn change_differs_at(ch: Seq<Change>, i: int) -> bool {
    !(ch[i - 1].added == ch[i].added && ch[i - 1].removed == ch[i].removed)
}

/// A component of another kind than the last keeps the kinds alternating.
proof fn lemma_alternate_push(cs: Seq<Component>, c: Component)
    requires
        comps_alternate(cs),
        cs.len() > 0 ==> !(cs.last().added == c.added && cs.last().removed == c.removed),
    ensures
        comps_alternate(cs.push(c)),
{
    let t = cs.push(c);
    assert forall|i: int| 1 <= i < t.len() implies #[trigger] comp_differs_at(t, i) by {
        if i < cs.len() {
            assert(comp_differs_at(cs, i));
            assert(t[i] == cs[i] && t[i - 1] == cs[i - 1]);
        }
    }
}

/// Replacing the last component by one of the same kind keeps the kinds
/// alternating.
proof fn lemma_alternate_replace_last(cs: Seq<Component>, c: Component)
    requires
        comps_alternate(cs),
        cs.len() > 0,
        cs.last().added == c.added && cs.last().removed == c.removed,
    ensures
        comps_alternate(cs.drop_last().push(c)),
{
    let t = cs.drop_last().push(c);
    assert forall|i: int| 1 <= i < t.len() implies #[trigger] comp_differs_at(t, i) by {
        assert(comp_differs_at(cs, i));
        assert(t[i - 1] == cs[i - 1]);
        if i < t.len() - 1 {
            assert(t[i] == cs[i]);
        }
    }
}

/// A path on diagonal `k` is a valid script over its consumed tokens.
spec fn path_ok(
    nodes: Seq<NodeRec>,
    p: PathState,
    k: int,
    old: Seq<Seq<char>>,
    new: Seq<Seq<char>>,
    mode: TokenEq,
) -> bool {
    &&& (p.last matches Some(l) ==> l < nodes.len())
    &&& p.o <= old.len()
    &&& 0 <= p.o - k <= new.len()
    &&& valid_script(path_comps(nodes, p.last), old, new, p.o as int, p.o - k, mode)
    &&& comps_alternate(path_comps(nodes, p.last))
}

proof fn lemma_path_ok_prefix(
    a: Seq<NodeRec>,
    b: Seq<NodeRec>,
    p: PathState,
    k: int,
    old: Seq<Seq<char>>,
    new: Seq<Seq<char>>,
    mode: TokenEq,
)
    requires
        a.len() <= b.len(),
        b.take(a.len() as int) == a,
        path_ok(a, p, k, old, new, mode),
    ensures
        path_ok(b, p, k, old, new, mode),
{
    if let Some(l) = p.last {
        lemma_chain_prefix(a, b, l as int);
    }
}

proof fn lemma_valid_last_count(
    cs: Seq<Component>,
    old: Seq<Seq<char>>,
    new: Seq<Seq<char>>,
    o: int,
    n: int,
    mode: TokenEq,
)
    requires
        valid_script(cs, old, new, o, n, mode),
        cs.len() > 0,
    ensures
        cs.last().count <= o || cs.last().count <= n,
        cs.last().added ==> cs.last().count <= n,
        cs.last().removed ==> cs.last().count <= o,
{
}

/// Extends a path by one added (`added`) or removed token, merging into
/// the last node when it is a run of the same kind.
fn add_to_path(nodes: &mut Vec<NodeRec>, path: PathState, added: bool, o_inc: usize, max: usize) -> (r: PathState)
    requires
        arena_ok(old(nodes)@),
        path.last matches Some(l) ==> l < old(nodes)@.len(),
        path.last matches Some(l) ==> old(nodes)@[l as int].comp.count <= max,
        max < usize::MAX,
        o_inc <= 1,
        path.o + o_inc <= usize::MAX,
    ensures
        arena_ok(final(nodes)@),
        final(nodes)@.len() == old(nodes)@.len() + 1,
        final(nodes)@.take(old(nodes)@.len() as int) == old(nodes)@,
        r.o == path.o + o_inc,
        r.last == Some((final(nodes)@.len() - 1) as usize),
        ({
            let cs = path_comps(old(nodes)@, path.last);
            let rs = path_comps(final(nodes)@, r.last);
            if cs.len() > 0 && cs.last().added == added && cs.last().removed == !added {
                rs == cs.drop_last().push(Component { count: (cs.last().count + 1) as usize, added, removed: !added })
            } else {
                rs == cs.push(Component { count: 1, added, removed: !added })
            }
        }),
{
    let ghost before = nodes@;
    let n = nodes.len();
    let rec = match path.last {
        Some(l) => {
            let last = nodes[l];
            if last.comp.added == added && last.comp.removed == !added {
                NodeRec { comp: Component { count: last.comp.count + 1, added, removed: !added }, prev: last.prev }
            } else {
                NodeRec { comp: Component { count: 1, added, removed: !added }, prev: Some(l) }
            }
        },
        None => NodeRec { comp: Component { count: 1, added, removed: !added }, prev: None },
    };
    nodes.push(rec);
    assert(nodes@.take(before.len() as int) =~= before);
    assert(arena_ok(nodes@)) by {
        assert forall|i: int| 0 <= i < nodes@.len() implies (#[trigger] nodes@[i].prev matches Some(p) ==> p < i) by {
            if i < before.len() {
                assert(nodes@[i] == before[i]);
            }
        }
    }
    proof {
        match path.last {
            Some(l) => {
                lemma_chain_prefix(before, nodes@, l as int);
                if let Some(p) = before[l as int].prev {
                    lemma_chain_prefix(before, nodes@, p as int);
                }
            },
            None => {},
        }
    }
    PathState { o: path.o + o_inc, last: Some(n) }
}


/// Follows a path along its diagonal while the next tokens are equal,
/// recording the run as one common node.
fn extract_common(
    olds: &Vec<Vec<char>>,
    news: &Vec<Vec<char>>,
    mode: TokenEq,
    nodes: &mut Vec<NodeRec>,
    path: PathState,
    diagonal: isize,
) -> (r: PathState)
    requires
        arena_ok(old(nodes)@),
        path_ok(old(nodes)@, path, diagonal as int, seqs_of(olds@), seqs_of(news@), mode),
        path_comps(old(nodes)@, path.last).len() > 0 ==> (path_comps(old(nodes)@, path.last).last().added
            || path_comps(old(nodes)@, path.last).last().removed),
        olds@.len() + news@.len() <= isize::MAX / 4,
        -(olds@.len() + news@.len() + 2) <= diagonal <= olds@.len() + news@.len() + 2,
    ensures
        arena_ok(final(nodes)@),
        final(nodes)@.len() >= old(nodes)@.len(),
        final(nodes)@.take(old(nodes)@.len() as int) == old(nodes)@,
        path_ok(final(nodes)@, r, diagonal as int, seqs_of(olds@), seqs_of(news@), mode),
        r.o >= path.o,
        forall|i: int| path.o <= i < r.o ==> tokens_equal(mode, #[trigger] seqs_of(olds@)[i], seqs_of(news@)[i - diagonal]),
        r.o < olds@.len() && r.o - diagonal < news@.len() ==> !tokens_equal(mode, seqs_of(olds@)[r.o as int],
            seqs_of(news@)[r.o - diagonal]),
        r.o == path.o ==> r == path,
        r.o > path.o ==> path_comps(final(nodes)@, r.last) == path_comps(old(nodes)@, path.last).push(
            Component { count: (r.o - path.o) as usize, added: false, removed: false }),
{
    let ghost os = seqs_of(olds@);
    let ghost ns = seqs_of(news@);
    let o0 = path.o;
    let n0 = (path.o as isize - diagonal) as usize;
    let mut cnt: usize = 0;
    while o0 + cnt < olds.len() && n0 + cnt < news.len() && tokens_eq(mode, &olds[o0 + cnt], &news[n0 + cnt])
        invariant
            o0 + cnt <= olds.len(),
            n0 + cnt <= news.len(),
            o0 == path.o,
            n0 == path.o - diagonal,
            os == seqs_of(olds@),
            ns == seqs_of(news@),
            forall|i: int| 0 <= i < cnt ==> tokens_equal(mode, #[trigger] os[o0 + i], ns[n0 + i]),
        decreases olds@.len() - cnt,
    {
        assert(os[o0 + cnt as int] == olds@[o0 + cnt as int]@);
        assert(ns[n0 + cnt as int] == news@[n0 + cnt as int]@);
        cnt += 1;
    }
    proof {
        if o0 + cnt < olds@.len() && n0 + cnt < news@.len() {
            assert(os[o0 + cnt as int] == olds@[o0 + cnt as int]@);
            assert(ns[n0 + cnt as int] == news@[n0 + cnt as int]@);
        }
        assert forall|i: int| path.o <= i < path.o + cnt implies tokens_equal(mode, #[trigger] os[i], ns[i - diagonal]) by {
            assert(os[o0 + (i - o0)] == os[i]);
        }
    }
    if cnt == 0 {
        return path;
    }
    let ghost before = nodes@;
    let len = nodes.len();
    nodes.push(NodeRec { comp: Component { count: cnt, added: false, removed: false }, prev: path.last });
    assert(nodes@.take(before.len() as int) =~= before);
    assert(arena_ok(nodes@)) by {
        assert forall|i: int| 0 <= i < nodes@.len() implies (#[trigger] nodes@[i].prev matches Some(p) ==> p < i) by {
            if i < before.len() {
                assert(nodes@[i] == before[i]);
            }
        }
    }
    let r = PathState { o: o0 + cnt, last: Some(len) };
    proof {
        let cs = path_comps(before, path.last);
        if let Some(l) = path.last {
            lemma_chain_prefix(before, nodes@, l as int);
        }
        let rs = path_comps(nodes@, r.last);
        assert(rs == cs.push(Component { count: cnt, added: false, removed: false }));
        assert(rs.drop_last() =~= cs);
        lemma_alternate_push(cs, Component { count: cnt, added: false, removed: false });
        let k = cnt as int;
        let o = r.o as int;
        let n = r.o - diagonal;
        assert forall|i: int| 0 <= i < k implies tokens_equal(mode, #[trigger] os[o - k + i], ns[n - k + i]) by {
            assert(os[o0 + i] == os[o - k + i]);
        }
    }
    r
}


/// `s` in reverse order.
spec fn rev_seq<A>(s: Seq<A>) -> Seq<A> {
    Seq::new(s.len(), |i: int| s[s.len() - 1 - i])
}

/// The components of the chain ending at `last`, first to last.
fn collect_chain(nodes: &Vec<NodeRec>, last: Option<usize>) -> (out: Vec<Component>)
    requires
        arena_ok(nodes@),
        last matches Some(l) ==> l < nodes@.len(),
    ensures
        out@ == path_comps(nodes@, last),
{
    let mut rev: Vec<Component> = Vec::new();
    let mut cur = last;
    assert(path_comps(nodes@, last) =~= path_comps(nodes@, cur) + rev_seq(rev@));
    while cur.is_some()
        invariant
            arena_ok(nodes@),
            cur matches Some(c) ==> c < nodes@.len(),
            path_comps(nodes@, last) == path_comps(nodes@, cur) + rev_seq(rev@),
        decreases match cur { Some(c) => c + 1, None => 0 },
    {
        let c = cur.unwrap();
        let nd = nodes[c];
        let ghost before = rev@;
        rev.push(nd.comp);
        assert(nodes@[c as int].prev matches Some(p) ==> p < c);
        assert(path_comps(nodes@, Some(c)) == path_comps(nodes@, nd.prev).push(nd.comp));
        assert(path_comps(nodes@, nd.prev).push(nd.comp) + rev_seq(before) =~= path_comps(nodes@, nd.prev)
            + rev_seq(rev@));
        cur = nd.prev;
    }
    let mut out: Vec<Component> = Vec::new();
    let mut i = rev.len();
    while i > 0
        invariant
            i <= rev@.len(),
            out@ == rev_seq(rev@).take(rev@.len() - i),
        decreases i,
    {
        i -= 1;
        out.push(rev[i]);
        assert(out@ =~= rev_seq(rev@).take(rev@.len() - i));
    }
    assert(rev_seq(rev@).take(rev@.len() as int) =~= rev_seq(rev@));
    assert(path_comps(nodes@, None) =~= Seq::<Component>::empty());
    assert(Seq::<Component>::empty() + rev_seq(rev@) =~= rev_seq(rev@));
    out
}

/// Every remembered path is a valid script for its diagonal.
spec fn best_ok(
    nodes: Seq<NodeRec>,
    best: Seq<Option<PathState>>,
    offset: int,
    old: Seq<Seq<char>>,
    new: Seq<Seq<char>>,
    mode: TokenEq,
) -> bool {
    forall|idx: int| 0 <= idx < best.len() ==> (#[trigger] best[idx] matches Some(p) ==> path_ok(nodes, p, idx - offset, old, new, mode))
}

proof fn lemma_best_ok_prefix(
    a: Seq<NodeRec>,
    b: Seq<NodeRec>,
    best: Seq<Option<PathState>>,
    offset: int,
    old: Seq<Seq<char>>,
    new: Seq<Seq<char>>,
    mode: TokenEq,
)
    requires
        a.len() <= b.len(),
        b.take(a.len() as int) == a,
        best_ok(a, best, offset, old, new, mode),
    ensures
        best_ok(b, best, offset, old, new, mode),
{
    assert forall|idx: int| 0 <= idx < best.len() implies (#[trigger] best[idx] matches Some(p) ==> path_ok(b, p, idx - offset, old, new, mode)) by {
        if let Some(p) = best[idx] {
            lemma_path_ok_prefix(a, b, p, idx - offset, old, new, mode);
        }
    }
}

/// The script extended by one added (or removed) token.
spec fn extend_script(cs: Seq<Component>, added: bool) -> Seq<Component> {
    if cs.len() > 0 && cs.last().added == added && cs.last().removed == !added {
        cs.drop_last().push(Component { count: (cs.last().count + 1) as usize, added, removed: !added })
    } else {
        cs.push(Component { count: 1, added, removed: !added })
    }
}

proof fn lemma_extend_alternate(cs: Seq<Component>, added: bool)
    requires
        comps_alternate(cs),
    ensures
        comps_alternate(extend_script(cs, added)),
        extend_script(cs, added).len() > 0,
        extend_script(cs, added).last().added || extend_script(cs, added).last().removed,
{
    if cs.len() > 0 && cs.last().added == added && cs.last().removed == !added {
        lemma_alternate_replace_last(cs, Component { count: (cs.last().count + 1) as usize, added, removed: !added });
    } else {
        lemma_alternate_push(cs, Component { count: 1, added, removed: !added });
    }
}

proof fn lemma_extend_valid(
    cs: Seq<Component>,
    old: Seq<Seq<char>>,
    new: Seq<Seq<char>>,
    o: int,
    n: int,
    mode: TokenEq,
    added: bool,
)
    requires
        valid_script(cs, old, new, o, n, mode),
        cs.len() > 0 ==> cs.last().count < usize::MAX,
        0 <= o,
        0 <= n,
    ensures
        added ==> valid_script(extend_script(cs, added), old, new, o, n + 1, mode),
        !added ==> valid_script(extend_script(cs, added), old, new, o + 1, n, mode),
{
    let e = extend_script(cs, added);
    if cs.len() > 0 && cs.last().added == added && cs.last().removed == !added {
        assert(e.drop_last() =~= cs.drop_last());
        assert(e.last().count == cs.last().count + 1);
        assert(e.last().added == added);
        assert(e.last().removed == !added);
        assert(e.len() > 0);
        let c = cs.last();
        assert(!(c.added && c.removed));
        if added {
            assert(c.count <= n);
            assert(valid_script(cs.drop_last(), old, new, o, n - c.count, mode));
            assert(valid_script(e.drop_last(), old, new, o, (n + 1) - e.last().count, mode));
        } else {
            assert(c.count <= o);
            assert(valid_script(cs.drop_last(), old, new, o - c.count, n, mode));
            assert(valid_script(e.drop_last(), old, new, (o + 1) - e.last().count, n, mode));
        }
    } else {
        assert(e.drop_last() =~= cs);
        assert(e.last().count == 1);
        assert(e.last().added == added);
        assert(e.last().removed == !added);
    }
}


/// The furthest-reaching path on `diagonal` for the current edit length,
/// extended from its neighbour on `diagonal + 1` (an insertion) or
/// `diagonal - 1` (a removal); `None` when neither can be extended, in
/// which case the diagonal is cleared.
#[verifier::rlimit(60)]
fn next_path(
    olds: &Vec<Vec<char>>,
    news: &Vec<Vec<char>>,
    mode: TokenEq,
    nodes: &mut Vec<NodeRec>,
    best: &mut Vec<Option<PathState>>,
    diagonal: isize,
    offset: isize,
    max: usize,
) -> (r: Option<PathState>)
    requires
        max == olds@.len() + news@.len(),
        max <= isize::MAX / 4,
        offset == max + 1,
        old(best)@.len() == 2 * max + 3,
        -(max as int) <= diagonal <= max,
        arena_ok(old(nodes)@),
        best_ok(old(nodes)@, old(best)@, offset as int, seqs_of(olds@), seqs_of(news@), mode),
    ensures
        arena_ok(final(nodes)@),
        final(best)@.len() == 2 * max + 3,
        best_ok(final(nodes)@, final(best)@, offset as int, seqs_of(olds@), seqs_of(news@), mode),
        r matches Some(p) ==> path_ok(final(nodes)@, p, diagonal as int, seqs_of(olds@), seqs_of(news@), mode),
        ({
            let rp = old(best)@[diagonal - 1 + offset];
            let ap = old(best)@[diagonal + 1 + offset];
            let can_add = ap is Some && ap->Some_0.o - diagonal - 1 < news@.len();
            let can_remove = rp is Some && rp->Some_0.o < olds@.len();
            let take_add = !can_remove || (can_add && rp->Some_0.o < ap->Some_0.o);
            &&& (r is None <==> !can_add && !can_remove)
            &&& r is None ==> final(best)@ == old(best)@.update(diagonal - 1 + offset, None).update(diagonal + offset, None)
            &&& r is Some ==> final(best)@ == old(best)@.update(diagonal - 1 + offset, None)
            &&& r is Some && take_add ==> r->Some_0.o >= ap->Some_0.o
            &&& r is Some && !take_add ==> r->Some_0.o >= rp->Some_0.o + 1
        }),
{
    let ghost os = seqs_of(olds@);
    let ghost ns = seqs_of(news@);
    let old_len = olds.len();
    let new_len = news.len();
    let ri = (diagonal - 1 + offset) as usize;
    let ai = (diagonal + 1 + offset) as usize;
    let remove_path = best[ri];
    let ghost b0 = best@;
    best.set(ri, None);
    assert(best_ok(nodes@, best@, offset as int, os, ns, mode)) by {
        assert forall|idx: int| 0 <= idx < best@.len() implies (#[trigger] best@[idx] matches Some(p) ==> path_ok(nodes@, p, idx - offset, os, ns, mode)) by {
            if idx != ri {
        assert(best@[idx] == b0[idx]);
            }
        }
    }
    let add_path = best[ai];
    let can_add = match add_path {
        Some(p) => (p.o as isize) - diagonal - 1 < new_len as isize,
        None => false,
    };
    let can_remove = match remove_path {
        Some(p) => p.o < old_len,
        None => false,
    };
    if !can_add && !can_remove {
        let di = (diagonal + offset) as usize;
        let ghost b2 = best@;
        best.set(di, None);
        assert(best_ok(nodes@, best@, offset as int, os, ns, mode)) by {
            assert forall|idx: int| 0 <= idx < best@.len() implies (#[trigger] best@[idx] matches Some(p) ==> path_ok(nodes@, p, idx - offset, os, ns, mode)) by {
                if idx != di {
                    assert(best@[idx] == b2[idx]);
                }
            }
        }
        return None;
    }
    let take_add = !can_remove || (can_add && match (remove_path, add_path) {
        (Some(rp), Some(ap)) => rp.o < ap.o,
        _ => false,
    });
    let ghost before = nodes@;
    let base = if take_add {
        let ap = add_path.unwrap();
        proof {
            assert(best@[ai as int] == Some(ap));
            let cs = path_comps(nodes@, ap.last);
            if cs.len() > 0 {
        lemma_valid_last_count(cs, os, ns, ap.o as int, ap.o - (diagonal + 1), mode);
            }
            if let Some(l) = ap.last {
        assert(nodes@[l as int].comp == cs.last());
            }
            lemma_extend_valid(cs, os, ns, ap.o as int, ap.o - (diagonal + 1), mode, true);
            lemma_extend_alternate(cs, true);
        }
        add_to_path(nodes, ap, true, 0, max)
    } else {
        let rp = remove_path.unwrap();
        proof {
            let cs = path_comps(nodes@, rp.last);
            if cs.len() > 0 {
        lemma_valid_last_count(cs, os, ns, rp.o as int, rp.o - (diagonal - 1), mode);
            }
            if let Some(l) = rp.last {
        assert(nodes@[l as int].comp == cs.last());
            }
            lemma_extend_valid(cs, os, ns, rp.o as int, rp.o - (diagonal - 1), mode, false);
            lemma_extend_alternate(cs, false);
        }
        add_to_path(nodes, rp, false, 1, max)
    };
    proof {
        lemma_best_ok_prefix(before, nodes@, best@, offset as int, os, ns, mode);
    }
    assert(path_ok(nodes@, base, diagonal as int, os, ns, mode));
    let ghost before2 = nodes@;
    let base2 = extract_common(olds, news, mode, nodes, base, diagonal);
    proof {
        lemma_best_ok_prefix(before2, nodes@, best@, offset as int, os, ns, mode);
    }
    Some(base2)
}

/// Every stored path stays inside the grid of `ol` old and `nl` new tokens.
spec fn best_bounded(best: Seq<Option<PathState>>, off: int, ol: int, nl: int) -> bool {
    forall|idx: int| 0 <= idx < best.len() ==> (#[trigger] best[idx] matches Some(p) ==> p.o <= ol && 0 <= p.o - (idx - off) <= nl)
}

proof fn lemma_best_bounded(
    nodes: Seq<NodeRec>,
    best: Seq<Option<PathState>>,
    off: int,
    old: Seq<Seq<char>>,
    new: Seq<Seq<char>>,
    mode: TokenEq,
)
    requires
        best_ok(nodes, best, off, old, new, mode),
    ensures
        best_bounded(best, off, old.len() as int, new.len() as int),
{
    assert forall|idx: int| 0 <= idx < best.len() implies (#[trigger] best[idx] matches Some(p) ==> p.o <= old.len() && 0 <= p.o - (idx - off) <= new.len()) by {
        if let Some(p) = best[idx] {
            assert(path_ok(nodes, p, idx - off, old, new, mode));
        }
    }
}

/// A diagonal that no stored path reaches keeps the progress argument.
#[verifier::rlimit(40)]
proof fn lemma_diff_skip(
    bprev: Seq<Option<PathState>>,
    bnew: Seq<Option<PathState>>,
    off: int,
    max: int,
    e: int,
    ol: int,
    nl: int,
    lo: int,
    hi: int,
    x: int,
    l0: int,
    h0: int,
    lprev: int,
    hprev: int,
    found: bool,
    wd: int,
    wp: PathState,
    d0: int,
    p0: PathState,
    tgt: int,
)
    requires
        0 <= ol,
        0 <= nl,
        max == ol + nl,
        off == max + 1,
        bprev.len() == 2 * max + 3,
        1 <= e <= max,
        -e <= lo <= x <= hi <= e,
        hi <= h0,
        -max - 1 <= h0 <= max + 1,
        -max - 1 <= l0 <= max + 1,
        -max - 1 <= lprev <= max + 1,
        -max - 1 <= hprev <= max + 1,
        l0 <= lo,
        (x - lo) % 2 == 0,
        lo <= tgt <= hi,
        (tgt - lo) % 2 == 0,
        !found ==> {
            &&& x <= tgt
            &&& bprev[d0 + off] == Some(p0)
            &&& (tgt == d0 + 1 ==> p0.o < ol)
            &&& (tgt == d0 - 1 ==> p0.o - d0 < nl)
            &&& (tgt == d0 + 1 || tgt == d0 - 1)
        },
        found ==> {
            &&& bprev[wd + off] == Some(wp)
            &&& (wd - lo) % 2 == 0
            &&& lo <= wd < x
        },
        (lprev == l0 && (l0 == -max - 1 || (x == lo && lo == l0 && low_bound_path(bprev, off, l0, ol, nl))))
        || ((lprev - 1 - lo) % 2 == 0 && lo <= lprev - 1 < x && lprev - 1 <= hi
            && low_bound_path(bprev, off, lprev, ol, nl)),
        (hprev == h0 && (h0 == max + 1 || high_bound_path(bprev, off, h0, ol, nl)))
        || ((hprev + 1 - lo) % 2 == 0 && lo <= hprev + 1 < x && hprev + 1 <= hi
            && high_bound_path(bprev, off, hprev, ol, nl)),
        ({
            let rp = bprev[x - 1 + off];
            let ap = bprev[x + 1 + off];
            let can_add = ap is Some && ap->Some_0.o - x - 1 < nl;
            let can_remove = rp is Some && rp->Some_0.o < ol;
            !can_add && !can_remove
        }),
        bnew == bprev.update(x - 1 + off, None).update(x + off, None),
    ensures
        !found ==> x + 2 <= tgt && bnew[d0 + off] == Some(p0),
        found ==> bnew[wd + off] == Some(wp),
        (lprev == l0 && l0 == -max - 1)
        || ((lprev - 1 - lo) % 2 == 0 && lo <= lprev - 1 < x + 2 && lprev - 1 <= hi
            && low_bound_path(bnew, off, lprev, ol, nl)),
        (hprev == h0 && (h0 == max + 1 || high_bound_path(bnew, off, h0, ol, nl)))
        || ((hprev + 1 - lo) % 2 == 0 && lo <= hprev + 1 < x + 2 && hprev + 1 <= hi
            && high_bound_path(bnew, off, hprev, ol, nl)),
{
    assert forall|k: int| lo <= k < x && (k - lo) % 2 == 0 implies #[trigger] bnew[k + off] == bprev[k + off] by {
        assert(k <= x - 2);
    }
    if x == lo && lprev == l0 && lo == l0 && low_bound_path(bprev, off, l0, ol, nl) {
        assert(bprev[x - 1 + off] == bprev[l0 - 1 + off]);
        assert(false);
    }
    if !found {
        if x == tgt {
            if tgt == d0 + 1 {
                assert(bprev[x - 1 + off] == Some(p0));
            } else {
                assert(bprev[x + 1 + off] == Some(p0));
            }
            assert(false);
        }
        assert(x <= tgt - 2);
        assert(bnew[d0 + off] == bprev[d0 + off]);
    }
    if hprev == h0 && h0 != max + 1 {
        assert(bnew[h0 + 1 + off] == bprev[h0 + 1 + off]);
    }
}

/// The path that vouches for progress after diagonal `x` was searched.
spec fn diff_step_witness(
    bprev: Seq<Option<PathState>>,
    off: int,
    nl: int,
    x: int,
    hprev: int,
    tgt: int,
    r: PathState,
    found: bool,
    wd: int,
    wp: PathState,
) -> (bool, int, PathState) {
    if !found && x != tgt {
        (false, wd, wp)
    } else if !found {
        if r.o - x >= nl {
            (true, x, r)
        } else if hprev < x {
            (true, hprev + 1, bprev[hprev + 1 + off]->Some_0)
        } else {
            (true, x, r)
        }
    } else if r.o - x >= nl {
        (true, x, r)
    } else {
        (true, wd, wp)
    }
}

/// One diagonal of a search round keeps the progress argument: a stored
/// path that one more edit extends inside the bounds, and the stored
/// paths that justify each bound.
#[verifier::rlimit(80)]
proof fn lemma_diff_step(
    bprev: Seq<Option<PathState>>,
    bnew: Seq<Option<PathState>>,
    off: int,
    max: int,
    e: int,
    ol: int,
    nl: int,
    lo: int,
    hi: int,
    x: int,
    l0: int,
    h0: int,
    lprev: int,
    hprev: int,
    lnew: int,
    hnew: int,
    r: PathState,
    found: bool,
    wd: int,
    wp: PathState,
    d0: int,
    p0: PathState,
    tgt: int,
)
    requires
        0 <= ol,
        0 <= nl,
        max == ol + nl,
        off == max + 1,
        bprev.len() == 2 * max + 3,
        1 <= e <= max,
        -e <= lo <= x <= hi <= e,
        hi <= h0,
        -max - 1 <= h0 <= max + 1,
        -max - 1 <= l0 <= max + 1,
        -max - 1 <= lprev <= max + 1,
        -max - 1 <= hprev <= max + 1,
        l0 <= lo,
        (x - lo) % 2 == 0,
        (lo - e) % 2 == 0,
        lo <= tgt <= hi,
        (tgt - lo) % 2 == 0,
        -max - 1 <= lprev <= max + 1,
        -max - 1 <= hprev <= max + 1,
        lprev <= ol - nl <= hprev,
        best_bounded(bprev, off, ol, nl),
        !found ==> {
            &&& x <= tgt
            &&& bprev[d0 + off] == Some(p0)
            &&& (tgt == d0 + 1 ==> p0.o < ol)
            &&& (tgt == d0 - 1 ==> p0.o - d0 < nl)
            &&& (tgt == d0 + 1 || tgt == d0 - 1)
            &&& path_score(p0, d0) >= e - 1
        },
        found ==> {
            &&& bprev[wd + off] == Some(wp)
            &&& (wd - lo) % 2 == 0
            &&& lo <= wd <= hi
            &&& wd < x
            &&& !path_done(wp, wd, ol, nl)
            &&& path_score(wp, wd) >= e
            &&& extendable(wp, wd, ol, nl, lprev, hprev)
        },
        (lprev == l0 && (l0 == -max - 1 || (x == lo && lo == l0 && low_bound_path(bprev, off, l0, ol, nl))))
        || ((lprev - 1 - lo) % 2 == 0 && lo <= lprev - 1 < x && lprev - 1 <= hi
            && low_bound_path(bprev, off, lprev, ol, nl)),
        (hprev == h0 && (h0 == max + 1 || high_bound_path(bprev, off, h0, ol, nl)))
        || ((hprev + 1 - lo) % 2 == 0 && lo <= hprev + 1 < x && hprev + 1 <= hi
            && high_bound_path(bprev, off, hprev, ol, nl)),
        r.o <= ol,
        0 <= r.o - x <= nl,
        ({
            let rp = bprev[x - 1 + off];
            let ap = bprev[x + 1 + off];
            let can_add = ap is Some && ap->Some_0.o - x - 1 < nl;
            let can_remove = rp is Some && rp->Some_0.o < ol;
            let take_add = !can_remove || (can_add && rp->Some_0.o < ap->Some_0.o);
            &&& (can_add || can_remove)
            &&& take_add ==> r.o >= ap->Some_0.o
            &&& !take_add ==> r.o >= rp->Some_0.o + 1
        }),
        !path_done(r, x, ol, nl),
        bnew == bprev.update(x - 1 + off, None).update(x + off, Some(r)),
        hnew == (if r.o >= ol && x - 1 < hprev { x - 1 } else { hprev }),
        lnew == (if r.o - x >= nl && x + 1 > lprev { x + 1 } else { lprev }),
    ensures
        ({
            let (nf, nwd, nwp) = diff_step_witness(bprev, off, nl, x, hprev, tgt, r, found, wd, wp);
            &&& lnew <= ol - nl <= hnew
            &&& !nf ==> x + 2 <= tgt && bnew[d0 + off] == Some(p0)
            &&& nf ==> {
                &&& bnew[nwd + off] == Some(nwp)
                &&& (nwd - lo) % 2 == 0
                &&& lo <= nwd <= hi
                &&& nwd < x + 2
                &&& !path_done(nwp, nwd, ol, nl)
                &&& path_score(nwp, nwd) >= e
                &&& extendable(nwp, nwd, ol, nl, lnew, hnew)
            }
            &&& (lnew == l0 && l0 == -max - 1)
                || ((lnew - 1 - lo) % 2 == 0 && lo <= lnew - 1 < x + 2 && lnew - 1 <= hi
                    && low_bound_path(bnew, off, lnew, ol, nl))
            &&& (hnew == h0 && (h0 == max + 1 || high_bound_path(bnew, off, h0, ol, nl)))
                || ((hnew + 1 - lo) % 2 == 0 && lo <= hnew + 1 < x + 2 && hnew + 1 <= hi
                    && high_bound_path(bnew, off, hnew, ol, nl))
        }),
{
    let (nf, nwd, nwp) = diff_step_witness(bprev, off, nl, x, hprev, tgt, r, found, wd, wp);
    let n = r.o - x;
    let rp = bprev[x - 1 + off];
    let ap = bprev[x + 1 + off];
    let can_remove = rp is Some && rp->Some_0.o < ol;
    // The stored paths read here are inside the grid.
    assert(rp matches Some(p) ==> p.o <= ol && 0 <= p.o - (x - 1) <= nl) by {
        assert(0 <= x - 1 + off < bprev.len());
    }
    assert(ap matches Some(p) ==> p.o <= ol && 0 <= p.o - (x + 1) <= nl) by {
        assert(0 <= x + 1 + off < bprev.len());
    }
    // Extending a path from the diagonal below never loses old tokens.
    assert(can_remove ==> r.o >= rp->Some_0.o + 1);
    // The lower bound, when it is this very diagonal, is lifted by it.
    if x == lo && lprev == l0 && lo == l0 && low_bound_path(bprev, off, l0, ol, nl) {
        assert(rp == bprev[l0 - 1 + off]);
        assert(can_remove);
        assert(n >= nl);
    }
    // So the lower bound is below `x` unless this diagonal lifts it.
    assert(lprev <= x);
    assert(n < nl ==> lprev <= x - 1 || lprev == -max - 1);
    // The upper bound, when it is this very diagonal, is lowered by it.
    if x == hprev && hprev == h0 && h0 != max + 1 {
        assert(high_bound_path(bprev, off, h0, ol, nl));
        assert(ap == bprev[h0 + 1 + off]);
        assert(r.o >= ol);
    }
    assert(r.o >= ol ==> r.o == ol && n < nl && x > ol - nl);
    assert(n >= nl ==> n == nl && r.o < ol && x < ol - nl);
    // Slots of earlier diagonals of this round are untouched.
    assert forall|k: int| lo <= k < x && (k - lo) % 2 == 0 implies #[trigger] bnew[k + off] == bprev[k + off] by {
        assert(k <= x - 2);
    }
    if hprev != h0 || h0 != max + 1 {
        if hprev == h0 {
            assert(bnew[h0 + 1 + off] == bprev[h0 + 1 + off]);
        } else {
            assert(bnew[hprev + 1 + off] == bprev[hprev + 1 + off]);
        }
    }
    if !(lprev == l0 && l0 == -max - 1) && lnew == lprev {
        if lprev - 1 < x {
            assert(bnew[lprev - 1 + off] == bprev[lprev - 1 + off]);
        }
    }
    if !found && x != tgt {
        assert(x <= tgt - 2);
        assert(bnew[d0 + off] == bprev[d0 + off]);
    } else if !found {
        // The target diagonal: one edit past the round's witness.
        if tgt == d0 + 1 {
            assert(rp == Some(p0));
            assert(r.o >= p0.o + 1);
        } else {
            assert(ap == Some(p0));
            assert(r.o >= p0.o);
        }
        assert(path_score(r, x) >= e);
        if n >= nl {
            assert(nwd == x);
        } else if hprev < x {
            assert(hprev != h0);
            let s = bprev[hprev + 1 + off]->Some_0;
            assert(bnew[hprev + 1 + off] == bprev[hprev + 1 + off]);
            assert(s.o <= ol) by {
                assert(0 <= hprev + 1 + off < bprev.len());
            }
            assert(path_score(s, hprev + 1) > path_score(r, x));
        } else {
            assert(nwd == x);
            if r.o >= ol {
                assert(hnew == x - 1);
            } else {
                assert(lprev <= x - 1 || lprev == -max - 1);
            }
        }
    } else {
        // A later witness: the lower bound's path outscores every path below it.
        if n >= nl {
            assert(wp.o <= ol && wp.o - wd <= nl) by {
                assert(0 <= wd + off < bprev.len());
            }
            assert(path_score(r, x) > path_score(wp, wd));
        } else {
            assert(wd <= x - 2);
            assert(bnew[wd + off] == bprev[wd + off]);
        }
    }
}

/// Storing a path that is fine on its diagonal keeps the table fine.
proof fn lemma_best_ok_set(
    nodes: Seq<NodeRec>,
    before: Seq<Option<PathState>>,
    after: Seq<Option<PathState>>,
    off: int,
    di: int,
    p: PathState,
    old: Seq<Seq<char>>,
    new: Seq<Seq<char>>,
    mode: TokenEq,
)
    requires
        best_ok(nodes, before, off, old, new, mode),
        0 <= di < before.len(),
        after == before.update(di, Some(p)),
        path_ok(nodes, p, di - off, old, new, mode),
    ensures
        best_ok(nodes, after, off, old, new, mode),
{
    assert forall|idx: int| 0 <= idx < after.len() implies (#[trigger] after[idx] matches Some(q) ==> path_ok(nodes, q, idx - off, old, new, mode)) by {
        if idx != di {
            assert(after[idx] == before[idx]);
        }
    }
}

/// The path has used up every old and every new token.
spec fn path_done(p: PathState, d: int, ol: int, nl: int) -> bool {
    p.o >= ol && p.o - d >= nl
}

/// Old plus new tokens used up by a path on diagonal `d`.
spec fn path_score(p: PathState, d: int) -> int {
    2 * p.o - d
}

/// One more edit takes the path onto a diagonal inside `[lo, hi]`.
spec fn extendable(p: PathState, d: int, ol: int, nl: int, lo: int, hi: int) -> bool {
    ||| p.o < ol && lo <= d + 1 <= hi
    ||| p.o - d < nl && lo <= d - 1 <= hi
}

/// The lowest diagonal still searched, `l`, sits just above a stored path
/// that has used up the new tokens but not the old ones.
spec fn low_bound_path(best: Seq<Option<PathState>>, off: int, l: int, ol: int, nl: int) -> bool {
    best[l - 1 + off] matches Some(q) && q.o < ol && q.o - (l - 1) >= nl
}

/// The highest diagonal still searched, `h`, sits just below a stored path
/// that has used up the old tokens but not the new ones.
spec fn high_bound_path(best: Seq<Option<PathState>>, off: int, h: int, ol: int, nl: int) -> bool {
    best[h + 1 + off] matches Some(s) && s.o >= ol && s.o - (h + 1) < nl
}

/// At the start of a round the witness's next edit lands on a diagonal
/// the round searches, and the round starts on the right parity.
proof fn lemma_round_start(
    best: Seq<Option<PathState>>,
    off: int,
    max: int,
    e: int,
    ol: int,
    nl: int,
    l0: int,
    h0: int,
    d0: int,
    p0: PathState,
    lo: int,
    hi: int,
    tgt: int,
)
    requires
        1 <= e <= max,
        -max - 1 <= l0 <= max + 1,
        -max - 1 <= h0 <= max + 1,
        l0 <= ol - nl <= h0,
        l0 == -max - 1 || ((l0 - e) % 2 == 0 && -e < l0 <= e && low_bound_path(best, off, l0, ol, nl)),
        (d0 - (e - 1)) % 2 == 0,
        -(e - 1) <= d0 <= e - 1,
        !path_done(p0, d0, ol, nl),
        extendable(p0, d0, ol, nl, l0, h0),
        lo == (if l0 > -e { l0 } else { -e }),
        hi == (if h0 < e { h0 } else { e }),
        tgt == (if p0.o < ol && l0 <= d0 + 1 <= h0 { d0 + 1 } else { d0 - 1 }),
    ensures
        (lo - e) % 2 == 0,
        -e <= lo,
        l0 <= lo,
        hi <= e,
        hi <= h0,
        lo <= tgt <= hi,
        (tgt - lo) % 2 == 0,
        tgt == d0 + 1 ==> p0.o < ol,
        tgt == d0 - 1 ==> p0.o - d0 < nl,
        tgt == d0 + 1 || tgt == d0 - 1,
        l0 == -max - 1 || (lo == l0 && low_bound_path(best, off, l0, ol, nl)),
{
}

/// At the end of a round the state holds again for the next round.
proof fn lemma_round_end(
    best: Seq<Option<PathState>>,
    off: int,
    max: int,
    e: int,
    ol: int,
    nl: int,
    lo: int,
    hi: int,
    diagonal: int,
    l0: int,
    h0: int,
    l: int,
    h: int,
    found: bool,
    wd: int,
    wp: PathState,
    tgt: int,
)
    requires
        1 <= e <= max,
        -e <= lo,
        hi <= e,
        lo <= diagonal,
        hi < diagonal,
        (lo - e) % 2 == 0,
        lo <= tgt <= hi,
        h0 == max + 1 || (-e <= h0 && h0 + 1 <= e - 1),
        !found ==> diagonal <= tgt,
        found ==> {
            &&& (wd - lo) % 2 == 0
            &&& lo <= wd <= hi
            &&& !path_done(wp, wd, ol, nl)
            &&& path_score(wp, wd) >= e
            &&& extendable(wp, wd, ol, nl, l, h)
        },
        (l == l0 && (l0 == -max - 1 || (diagonal == lo && lo == l0 && low_bound_path(best, off, l0, ol, nl))))
        || ((l - 1 - lo) % 2 == 0 && lo <= l - 1 < diagonal && l - 1 <= hi
            && low_bound_path(best, off, l, ol, nl)),
        (h == h0 && (h0 == max + 1 || high_bound_path(best, off, h0, ol, nl)))
        || ((h + 1 - lo) % 2 == 0 && lo <= h + 1 < diagonal && h + 1 <= hi
            && high_bound_path(best, off, h, ol, nl)),
    ensures
        found,
        l == -max - 1 || ((l - (e + 1)) % 2 == 0 && -(e + 1) < l <= e + 1 && low_bound_path(best, off, l, ol, nl)),
        h == max + 1 || (-(e + 1) <= h && h + 1 <= e && high_bound_path(best, off, h, ol, nl)),
        (wd - e) % 2 == 0,
        -e <= wd <= e,
{
}

/// Myers' O(ND) search as jsdiff runs it: an edit script from the old to
/// the new tokens. The search always ends within `old + new` edits.
#[verifier::rlimit(100)]
#[verifier::spinoff_prover]
fn diff_core(olds: &Vec<Vec<char>>, news: &Vec<Vec<char>>, mode: TokenEq) -> (r: Result<Vec<Component>, JsDiffError>)
    requires
        olds@.len() + news@.len() <= isize::MAX / 4,
    ensures
        r is Ok,
        r matches Ok(cs) ==> valid_script(cs@, seqs_of(olds@), seqs_of(news@), olds@.len() as int, news@.len() as int, mode),
        r matches Ok(cs) ==> comps_alternate(cs@),
        (olds@.len() == news@.len() && forall|i: int| 0 <= i < olds@.len()
            ==> tokens_equal(mode, #[trigger] seqs_of(olds@)[i], seqs_of(news@)[i]))
            ==> (r matches Ok(cs) && forall|i: int| 0 <= i < cs@.len() ==> !(#[trigger] cs@[i]).added && !cs@[i].removed),
{
    let ghost os = seqs_of(olds@);
    let ghost ns = seqs_of(news@);
    let old_len = olds.len();
    let new_len = news.len();
    let ghost ol = old_len as int;
    let ghost nl = new_len as int;
    let max = old_len + new_len;
    let mut nodes: Vec<NodeRec> = Vec::new();
    let start = PathState { o: 0, last: None };
    assert(path_ok(nodes@, start, 0, os, ns, mode));
    let path0 = extract_common(olds, news, mode, &mut nodes, start, 0);
    assert(path_comps(nodes@, path0.last).len() <= 1 && forall|i: int| 0 <= i < path_comps(nodes@, path0.last).len()
        ==> !(#[trigger] path_comps(nodes@, path0.last)[i]).added && !path_comps(nodes@, path0.last)[i].removed);
    if path0.o >= old_len && path0.o >= new_len {
        return Ok(collect_chain(&nodes, path0.last));
    }
    let ghost all_equal: bool = olds@.len() == news@.len() && forall|i: int| 0 <= i < olds@.len()
        ==> tokens_equal(mode, #[trigger] seqs_of(olds@)[i], seqs_of(news@)[i]);
    assert(!all_equal);
    let size = 2 * max + 3;
    let offset: isize = (max + 1) as isize;
    let mut best: Vec<Option<PathState>> = Vec::new();
    while best.len() < size
        invariant
            best@.len() <= size,
            forall|idx: int| 0 <= idx < best@.len() ==> #[trigger] best@[idx] is None,
        decreases size - best@.len(),
    {
        best.push(None);
    }
    best.set(offset as usize, Some(path0));
    assert(best_ok(nodes@, best@, offset as int, os, ns, mode));
    let mut min_diag: isize = -(max as isize) - 1;
    let mut max_diag: isize = max as isize + 1;
    let mut e: isize = 1;
    let ghost mut wd: int = 0;
    let ghost mut wp: PathState = path0;
    while e <= max as isize
        invariant
            max == olds@.len() + news@.len(),
            max <= isize::MAX / 4,
            old_len == olds@.len(),
            new_len == news@.len(),
            ol == old_len,
            nl == new_len,
            offset == max + 1,
            best@.len() == 2 * max + 3,
            1 <= e <= max + 1,
            -(max as int) - 1 <= min_diag <= max + 1,
            -(max as int) - 1 <= max_diag <= max + 1,
            arena_ok(nodes@),
            best_ok(nodes@, best@, offset as int, os, ns, mode),
            os == seqs_of(olds@),
            ns == seqs_of(news@),
            !all_equal,
            all_equal == (olds@.len() == news@.len() && forall|i: int| 0 <= i < olds@.len()
                ==> tokens_equal(mode, #[trigger] seqs_of(olds@)[i], seqs_of(news@)[i])),
            min_diag <= ol - nl <= max_diag,
            min_diag == -(max as int) - 1 || ((min_diag - e) % 2 == 0 && -e < min_diag <= e
                && low_bound_path(best@, offset as int, min_diag as int, ol, nl)),
            max_diag == max + 1 || (-e <= max_diag && max_diag + 1 <= e - 1
                && high_bound_path(best@, offset as int, max_diag as int, ol, nl)),
            best@[wd + offset] == Some(wp),
            (wd - (e - 1)) % 2 == 0,
            -(e - 1) <= wd <= e - 1,
            !path_done(wp, wd, ol, nl),
            path_score(wp, wd) >= e - 1,
            extendable(wp, wd, ol, nl, min_diag as int, max_diag as int),
        decreases max + 1 - e,
    {
        let ghost l0 = min_diag as int;
        let ghost h0 = max_diag as int;
        let ghost d0 = wd;
        let ghost p0 = wp;
        let ghost tgt: int = if p0.o < ol && l0 <= d0 + 1 <= h0 { d0 + 1 } else { d0 - 1 };
        let ghost mut found = false;
        let mut diagonal: isize = if min_diag > -e { min_diag } else { -e };
        let hi: isize = if max_diag < e { max_diag } else { e };
        let ghost lo = diagonal as int;
        proof {
            lemma_round_start(
                best@, offset as int, max as int, e as int, ol, nl, l0, h0, d0, p0, lo, hi as int, tgt,
            );
        }
        while diagonal <= hi
            invariant
                max == olds@.len() + news@.len(),
                max <= isize::MAX / 4,
                old_len == olds@.len(),
                new_len == news@.len(),
                ol == old_len,
                nl == new_len,
                offset == max + 1,
                best@.len() == 2 * max + 3,
                1 <= e <= max,
                -e <= diagonal <= max + 2,
                hi <= e,
                hi <= h0,
                -e <= lo,
                l0 <= lo,
                -(max as int) - 1 <= l0 <= max + 1,
                -(max as int) - 1 <= h0 <= max + 1,
                h0 == max + 1 || (-e <= h0 && h0 + 1 <= e - 1),
                -(max as int) - 1 <= min_diag <= max + 1,
                -(max as int) - 1 <= max_diag <= max + 1,
                arena_ok(nodes@),
                best_ok(nodes@, best@, offset as int, os, ns, mode),
                os == seqs_of(olds@),
                ns == seqs_of(news@),
                !all_equal,
                all_equal == (olds@.len() == news@.len() && forall|i: int| 0 <= i < olds@.len()
                    ==> tokens_equal(mode, #[trigger] seqs_of(olds@)[i], seqs_of(news@)[i])),
                lo <= diagonal,
                (diagonal - lo) % 2 == 0,
                (lo - e) % 2 == 0,
                lo <= tgt <= hi,
                (tgt - lo) % 2 == 0,
                min_diag <= ol - nl <= max_diag,
                !found ==> {
                    &&& diagonal <= tgt
                    &&& best@[d0 + offset] == Some(p0)
                    &&& (tgt == d0 + 1 ==> p0.o < ol)
                    &&& (tgt == d0 - 1 ==> p0.o - d0 < nl)
                    &&& (tgt == d0 + 1 || tgt == d0 - 1)
                    &&& path_score(p0, d0) >= e - 1
                },
                found ==> {
                    &&& best@[wd + offset] == Some(wp)
                    &&& (wd - lo) % 2 == 0
                    &&& lo <= wd <= hi
                    &&& wd < diagonal
                    &&& !path_done(wp, wd, ol, nl)
                    &&& path_score(wp, wd) >= e
                    &&& extendable(wp, wd, ol, nl, min_diag as int, max_diag as int)
                },
                (min_diag == l0 && (l0 == -(max as int) - 1
                    || (diagonal == lo && lo == l0 && low_bound_path(best@, offset as int, l0, ol, nl))))
                || ((min_diag - 1 - lo) % 2 == 0 && lo <= min_diag - 1 < diagonal && min_diag - 1 <= hi
                    && low_bound_path(best@, offset as int, min_diag as int, ol, nl)),
                (max_diag == h0 && (h0 == max + 1 || high_bound_path(best@, offset as int, h0, ol, nl)))
                || ((max_diag + 1 - lo) % 2 == 0 && lo <= max_diag + 1 < diagonal && max_diag + 1 <= hi
                    && high_bound_path(best@, offset as int, max_diag as int, ol, nl)),
            decreases hi + 2 - diagonal,
        {
            let ghost bprev = best@;
            let ghost lprev = min_diag as int;
            let ghost hprev = max_diag as int;
            let ghost x = diagonal as int;
            proof {
                lemma_best_bounded(nodes@, best@, offset as int, os, ns, mode);
            }
            let next = next_path(olds, news, mode, &mut nodes, &mut best, diagonal, offset, max);
            let base2 = match next {
                Some(p) => p,
                None => {
                    proof {
                        lemma_diff_skip(
                            bprev, best@, offset as int, max as int, e as int, ol, nl, lo, hi as int, x,
                            l0, h0, lprev, hprev, found, wd, wp, d0, p0, tgt,
                        );
                    }
                    diagonal += 2;
                    continue;
                },
            };
            let n2 = (base2.o as isize) - diagonal;
            if base2.o >= old_len && n2 >= new_len as isize {
                return Ok(collect_chain(&nodes, base2.last));
            }
            if base2.o >= old_len && diagonal - 1 < max_diag {
                max_diag = diagonal - 1;
            }
            if n2 >= new_len as isize && diagonal + 1 > min_diag {
                min_diag = diagonal + 1;
            }
            let di = (diagonal + offset) as usize;
            let ghost b1 = best@;
            best.set(di, Some(base2));
            proof {
                lemma_best_ok_set(nodes@, b1, best@, offset as int, di as int, base2, os, ns, mode);
            }
            proof {
                lemma_diff_step(
                    bprev, best@, offset as int, max as int, e as int, ol, nl, lo, hi as int, x,
                    l0, h0, lprev, hprev, min_diag as int, max_diag as int, base2, found, wd, wp,
                    d0, p0, tgt,
                );
                let (nf, nwd, nwp) = diff_step_witness(bprev, offset as int, nl, x, hprev, tgt, base2, found, wd, wp);
                found = nf;
                wd = nwd;
                wp = nwp;
            }
            diagonal += 2;
        }
        proof {
            lemma_round_end(
                best@, offset as int, max as int, e as int, ol, nl, lo, hi as int, diagonal as int,
                l0, h0, min_diag as int, max_diag as int, found, wd, wp, tgt,
            );
        }
        e += 1;
    }
    proof {
        assert(best_ok(nodes@, best@, offset as int, os, ns, mode));
        assert(best@[wd + offset] matches Some(p) ==> path_ok(nodes@, p, wd + offset - offset, os, ns, mode));
        assert(false);
    }
    Err(JsDiffError::Internal(string_of(&['e', 'd', 'i', 't', ' ', 'l', 'e', 'n', 'g', 't', 'h', ' ', 'e', 'x', 'h', 'a', 'u', 's', 't', 'e', 'd'])))
}


/// `str::split_inclusive('\n')`: lines keeping their `\n`; the last line
/// has none when the text does not end with one; no empty lines.
pub open spec fn lines_of(s: Seq<char>) -> Seq<Seq<char>>
    decreases s.len(),
{
    if s.len() == 0 {
        Seq::<Seq<char>>::empty()
    } else {
        let p = lines_of(s.drop_last());
        if p.len() > 0 && p.last().last() != '\n' {
            p.update(p.len() - 1, p.last().push(s.last()))
        } else {
            p.push(seq![s.last()])
        }
    }
}

/// The tokens concatenated.
pub open spec fn concat_all(ts: Seq<Seq<char>>) -> Seq<char>
    decreases ts.len(),
{
    if ts.len() == 0 { Seq::<char>::empty() } else { concat_all(ts.drop_last()) + ts.last() }
}

/// Tokens as `lines_of` cuts them: none empty, a line feed only as a
/// token's last character, and every token but the last ending with one.
pub open spec fn line_tokens(ts: Seq<Seq<char>>) -> bool {
    &&& forall|i: int| 0 <= i < ts.len() ==> (#[trigger] ts[i]).len() > 0
    &&& forall|i: int, j: int| 0 <= i < ts.len() && 0 <= j < ts[i].len() - 1 ==> (#[trigger] ts[i][j]) != '\n'
    &&& forall|i: int| 0 <= i < ts.len() - 1 ==> (#[trigger] ts[i]).last() == '\n'
}

proof fn lemma_lines_of_tokens(s: Seq<char>)
    ensures
        line_tokens(lines_of(s)),
        s.len() > 0 ==> lines_of(s).len() > 0 && lines_of(s).last().last() == s.last(),
    decreases s.len(),
{
    if s.len() > 0 {
        let init = s.drop_last();
        lemma_lines_of_tokens(init);
        let p = lines_of(init);
        let q = lines_of(s);
        if p.len() > 0 && p.last().last() != '\n' {
            assert(q == p.update(p.len() - 1, p.last().push(s.last())));
            assert forall|i: int, j: int| 0 <= i < q.len() && 0 <= j < q[i].len() - 1 implies (#[trigger] q[i][j]) != '\n' by {
                if i == q.len() - 1 {
                    if j < p.last().len() - 1 {
                        assert(q[i][j] == p[i][j]);
                    } else {
                        assert(q[i][j] == p.last().last());
                    }
                } else {
                    assert(q[i] == p[i]);
                }
            }
            assert forall|i: int| 0 <= i < q.len() - 1 implies (#[trigger] q[i]).last() == '\n' by {
                assert(q[i] == p[i]);
            }
            assert forall|i: int| 0 <= i < q.len() implies (#[trigger] q[i]).len() > 0 by {
                if i < q.len() - 1 {
                    assert(q[i] == p[i]);
                }
            }
        } else {
            assert(q == p.push(seq![s.last()]));
            assert forall|i: int, j: int| 0 <= i < q.len() && 0 <= j < q[i].len() - 1 implies (#[trigger] q[i][j]) != '\n' by {
                if i < p.len() {
                    assert(q[i] == p[i]);
                }
            }
            assert forall|i: int| 0 <= i < q.len() - 1 implies (#[trigger] q[i]).last() == '\n' by {
                assert(q[i] == p[i]);
            }
            assert forall|i: int| 0 <= i < q.len() implies (#[trigger] q[i]).len() > 0 by {
                if i < p.len() {
                    assert(q[i] == p[i]);
                }
            }
        }
    }
}

/// A line appended to text that ends a line (or is empty) is one more
/// line.
proof fn lemma_lines_append(a: Seq<char>, b: Seq<char>, k: int)
    requires
        a.len() == 0 || a.last() == '\n',
        0 < k <= b.len(),
        forall|j: int| 0 <= j < b.len() - 1 ==> #[trigger] b[j] != '\n',
    ensures
        lines_of(a + b.take(k)) == lines_of(a).push(b.take(k)),
    decreases k,
{
    let t = a + b.take(k);
    assert(t.drop_last() =~= a + b.take(k - 1));
    assert(t.last() == b[k - 1]);
    if k == 1 {
        assert(b.take(0) =~= Seq::<char>::empty());
        assert(a + b.take(0) =~= a);
        lemma_lines_of_tokens(a);
        assert(seq![b[0]] =~= b.take(1));
    } else {
        lemma_lines_append(a, b, k - 1);
        let p = lines_of(a).push(b.take(k - 1));
        assert(p.last().last() == b[k - 2]);
        assert(b.take(k - 1).push(b[k - 1]) =~= b.take(k));
        assert(p.update(p.len() - 1, p.last().push(b[k - 1])) =~= lines_of(a).push(b.take(k)));
    }
}

/// Lines cut as `lines_of` cuts them, put back together, are cut into the
/// same lines.
proof fn lemma_lines_of_concat(ts: Seq<Seq<char>>)
    requires
        line_tokens(ts),
    ensures
        lines_of(concat_all(ts)) == ts,
    decreases ts.len(),
{
    if ts.len() == 0 {
        assert(lines_of(Seq::<char>::empty()) =~= Seq::<Seq<char>>::empty());
    } else {
        let init = ts.drop_last();
        assert(line_tokens(init)) by {
            assert forall|i: int| 0 <= i < init.len() implies (#[trigger] init[i]).len() > 0 by {
                assert(init[i] == ts[i]);
            }
            assert forall|i: int, j: int| 0 <= i < init.len() && 0 <= j < init[i].len() - 1 implies (#[trigger] init[i][j]) != '\n' by {
                assert(init[i] == ts[i]);
                assert(ts[i][j] != '\n');
            }
            assert forall|i: int| 0 <= i < init.len() - 1 implies (#[trigger] init[i]).last() == '\n' by {
                assert(init[i] == ts[i]);
            }
        }
        lemma_lines_of_concat(init);
        let a = concat_all(init);
        let b = ts.last();
        if init.len() > 0 {
            lemma_concat_last(init);
            assert(ts[init.len() - 1] == init.last());
        }
        assert(b.len() > 0);
        assert forall|j: int| 0 <= j < b.len() - 1 implies #[trigger] b[j] != '\n' by {
            assert(ts[ts.len() - 1][j] != '\n');
        }
        lemma_lines_append(a, b, b.len() as int);
        assert(b.take(b.len() as int) =~= b);
        assert(init.push(b) =~= ts);
    }
}

/// The last character of joined tokens is the last token's last one.
proof fn lemma_concat_last(ts: Seq<Seq<char>>)
    requires
        ts.len() > 0,
        ts.last().len() > 0,
    ensures
        concat_all(ts).len() > 0,
        concat_all(ts).last() == ts.last().last(),
{
}

proof fn lemma_line_tokens_slice(ts: Seq<Seq<char>>, a: int, b: int)
    requires
        line_tokens(ts),
        0 <= a <= b <= ts.len(),
    ensures
        line_tokens(ts.subrange(a, b)),
{
    let u = ts.subrange(a, b);
    assert forall|i: int| 0 <= i < u.len() implies (#[trigger] u[i]).len() > 0 by {
        assert(u[i] == ts[a + i]);
    }
    assert forall|i: int, j: int| 0 <= i < u.len() && 0 <= j < u[i].len() - 1 implies (#[trigger] u[i][j]) != '\n' by {
        assert(u[i] == ts[a + i]);
        assert(ts[a + i][j] != '\n');
    }
    assert forall|i: int| 0 <= i < u.len() - 1 implies (#[trigger] u[i]).last() == '\n' by {
        assert(u[i] == ts[a + i]);
    }
}

proof fn lemma_lines_of(s: Seq<char>)
    ensures
        concat_all(lines_of(s)) == s,
        lines_of(s).len() <= s.len(),
        forall|i: int| 0 <= i < lines_of(s).len() ==> #[trigger] lines_of(s)[i].len() > 0,
    decreases s.len(),
{
    if s.len() > 0 {
        let init = s.drop_last();
        lemma_lines_of(init);
        let p = lines_of(init);
        if p.len() > 0 && p.last().last() != '\n' {
            let q = p.update(p.len() - 1, p.last().push(s.last()));
            assert(q.drop_last() =~= p.drop_last());
            assert(concat_all(p) == concat_all(p.drop_last()) + p.last());
            assert(concat_all(q) =~= concat_all(p) + seq![s.last()]);
            assert(init.push(s.last()) =~= s);
            assert forall|i: int| 0 <= i < q.len() implies #[trigger] q[i].len() > 0 by {
                if i < p.len() - 1 {
                    assert(q[i] == p[i]);
                }
            }
        } else {
            let q = p.push(seq![s.last()]);
            assert(q.drop_last() =~= p);
            assert(concat_all(q) =~= concat_all(p) + seq![s.last()]);
            assert(init.push(s.last()) =~= s);
            assert forall|i: int| 0 <= i < q.len() implies #[trigger] q[i].len() > 0 by {
                if i < p.len() {
                    assert(q[i] == p[i]);
                }
            }
        }
    }
}

/// Splits text into lines that keep their `\n`.
fn tokenize_lines(s: &Vec<char>) -> (out: Vec<Vec<char>>)
    ensures
        seqs_of(out@) == lines_of(s@),
{
    let mut out: Vec<Vec<char>> = Vec::new();
    let mut i: usize = 0;
    while i < s.len()
        invariant
            i <= s@.len(),
            seqs_of(out@) == lines_of(s@.take(i as int)),
        decreases s@.len() - i,
    {
        let c = s[i];
        let ghost prev = s@.take(i as int);
        assert(s@.take(i + 1).drop_last() =~= prev);
        let ghost p = seqs_of(out@);
        let n = out.len();
        proof {
            lemma_lines_of(prev);
            if n > 0 {
                assert(p[n - 1].len() > 0);
                assert(out@[n - 1]@ == p[n - 1]);
            }
        }
        if n > 0 && out[n - 1][out[n - 1].len() - 1] != '\n' {
            let mut last = out.pop().unwrap();
            last.push(c);
            out.push(last);
            assert(seqs_of(out@) =~= p.update(p.len() - 1, p.last().push(c)));
        } else {
            let v = vec![c];
            assert(v@ =~= seq![c]);
            out.push(v);
            assert(seqs_of(out@) =~= p.push(seq![c]));
        }
        i += 1;
    }
    assert(s@.take(s@.len() as int) =~= s@);
    out
}


/// Tokens a script consumes: from the new text (`on_new`) or the old.
pub open spec fn consumed(cs: Seq<Component>, on_new: bool) -> int
    decreases cs.len(),
{
    if cs.len() == 0 {
        0
    } else {
        let c = cs.last();
        consumed(cs.drop_last(), on_new) + if (on_new && !c.removed) || (!on_new && !c.added) { c.count as int } else { 0 }
    }
}

proof fn lemma_valid_consumed(cs: Seq<Component>, old: Seq<Seq<char>>, new: Seq<Seq<char>>, o: int, n: int, mode: TokenEq)
    requires
        valid_script(cs, old, new, o, n, mode),
    ensures
        o == consumed(cs, false),
        n == consumed(cs, true),
    decreases cs.len(),
{
    if cs.len() > 0 {
        let c = cs.last();
        let k = c.count as int;
        if c.added {
            lemma_valid_consumed(cs.drop_last(), old, new, o, n - k, mode);
        } else if c.removed {
            lemma_valid_consumed(cs.drop_last(), old, new, o - k, n, mode);
        } else {
            lemma_valid_consumed(cs.drop_last(), old, new, o - k, n - k, mode);
        }
    }
}

proof fn lemma_valid_prefix(cs: Seq<Component>, old: Seq<Seq<char>>, new: Seq<Seq<char>>, o: int, n: int, mode: TokenEq, i: int)
    requires
        valid_script(cs, old, new, o, n, mode),
        0 <= i <= cs.len(),
    ensures
        valid_script(cs.take(i), old, new, consumed(cs.take(i), false), consumed(cs.take(i), true), mode),
        consumed(cs.take(i), false) <= o,
        consumed(cs.take(i), true) <= n,
    decreases cs.len(),
{
    lemma_valid_consumed(cs, old, new, o, n, mode);
    if i == cs.len() {
        assert(cs.take(i) =~= cs);
    } else {
        let init = cs.drop_last();
        let c = cs.last();
        let k = c.count as int;
        assert(cs.take(i) =~= init.take(i));
        if c.added {
            lemma_valid_prefix(init, old, new, o, n - k, mode, i);
        } else if c.removed {
            lemma_valid_prefix(init, old, new, o - k, n, mode, i);
        } else {
            lemma_valid_prefix(init, old, new, o - k, n - k, mode, i);
        }
    }
}

proof fn lemma_concat_split(ts: Seq<Seq<char>>, a: int, b: int)
    requires
        0 <= a <= b <= ts.len(),
    ensures
        concat_all(ts.take(b)) == concat_all(ts.take(a)) + concat_all(ts.subrange(a, b)),
    decreases b - a,
{
    if a == b {
        assert(ts.subrange(a, b) =~= Seq::<Seq<char>>::empty());
        assert(concat_all(ts.take(a)) + Seq::<char>::empty() =~= concat_all(ts.take(a)));
    } else {
        lemma_concat_split(ts, a, b - 1);
        assert(ts.take(b).drop_last() =~= ts.take(b - 1));
        assert(ts.subrange(a, b).drop_last() =~= ts.subrange(a, b - 1));
        assert(ts.take(b).last() == ts[b - 1]);
        assert(ts.subrange(a, b).last() == ts[b - 1]);
    }
}

/// The concatenation of tokens `from..to`.
fn concat_range(ts: &Vec<Vec<char>>, from: usize, to: usize) -> (out: Vec<char>)
    requires
        from <= to <= ts@.len(),
    ensures
        out@ == concat_all(seqs_of(ts@).subrange(from as int, to as int)),
{
    let mut out: Vec<char> = Vec::new();
    let mut i = from;
    assert(seqs_of(ts@).subrange(from as int, from as int) =~= Seq::<Seq<char>>::empty());
    while i < to
        invariant
            from <= i <= to,
            to <= ts@.len(),
            out@ == concat_all(seqs_of(ts@).subrange(from as int, i as int)),
        decreases to - i,
    {
        let t = &ts[i];
        let ghost before = out@;
        let mut j: usize = 0;
        while j < t.len()
            invariant
                j <= t@.len(),
                out@ == before + t@.take(j as int),
            decreases t@.len() - j,
        {
            out.push(t[j]);
            assert(t@.take(j + 1) =~= t@.take(j as int).push(t@[j as int]));
            j += 1;
        }
        assert(t@.take(t@.len() as int) =~= t@);
        let ghost sub = seqs_of(ts@).subrange(from as int, i + 1);
        assert(sub.drop_last() =~= seqs_of(ts@).subrange(from as int, i as int));
        assert(sub.last() == t@);
        i += 1;
    }
    out
}

/// The text a list of changes keeps from the old side (`on_new` false:
/// every change but additions) or the new side (every change but
/// removals).
pub open spec fn side_text(cs: Seq<Change>, on_new: bool) -> Seq<char>
    decreases cs.len(),
{
    if cs.len() == 0 {
        Seq::<char>::empty()
    } else {
        let c = cs.last();
        side_text(cs.drop_last(), on_new) + if (on_new && !c.removed) || (!on_new && !c.added) { c.value@ } else { Seq::<char>::empty() }
    }
}

/// Changes mirror the components one to one.
pub open spec fn changes_match(ch: Seq<Change>, cs: Seq<Component>) -> bool {
    &&& ch.len() == cs.len()
    &&& forall|i: int| 0 <= i < ch.len() ==> (#[trigger] ch[i]).count == cs[i].count
        && ch[i].added == cs[i].added && ch[i].removed == cs[i].removed
}

/// Builds the line changes of a valid script: each change holds its
/// tokens concatenated (taken from the new side unless removed).
fn build_line_values(cs: &Vec<Component>, olds: &Vec<Vec<char>>, news: &Vec<Vec<char>>) -> (out: Vec<Change>)
    requires
        valid_script(cs@, seqs_of(olds@), seqs_of(news@), olds@.len() as int, news@.len() as int, TokenEq::Exact),
        line_tokens(seqs_of(olds@)),
        line_tokens(seqs_of(news@)),
    ensures
        changes_match(out@, cs@),
        side_text(out@, false) == concat_all(seqs_of(olds@)),
        side_text(out@, true) == concat_all(seqs_of(news@)),
        forall|i: int| 0 <= i < out@.len() ==> lines_of((#[trigger] out@[i]).value@).len() == out@[i].count,
{
    let ghost os = seqs_of(olds@);
    let ghost ns = seqs_of(news@);
    let mut out: Vec<Change> = Vec::new();
    let mut new_pos: usize = 0;
    let mut old_pos: usize = 0;
    let mut i: usize = 0;
    let n_old = olds.len();
    let n_new = news.len();
    proof {
        lemma_valid_consumed(cs@, os, ns, olds@.len() as int, news@.len() as int, TokenEq::Exact);
        assert(cs@.take(0) =~= Seq::<Component>::empty());
        assert(os.take(0) =~= Seq::<Seq<char>>::empty());
        assert(ns.take(0) =~= Seq::<Seq<char>>::empty());
    }
    while i < cs.len()
        invariant
            i <= cs@.len(),
            os == seqs_of(olds@),
            ns == seqs_of(news@),
            valid_script(cs@, os, ns, olds@.len() as int, news@.len() as int, TokenEq::Exact),
            old_pos == consumed(cs@.take(i as int), false),
            new_pos == consumed(cs@.take(i as int), true),
            old_pos <= olds@.len(),
            new_pos <= news@.len(),
            n_old == olds@.len(),
            n_new == news@.len(),
            changes_match(out@, cs@.take(i as int)),
            side_text(out@, false) == concat_all(os.take(old_pos as int)),
            side_text(out@, true) == concat_all(ns.take(new_pos as int)),
            line_tokens(os),
            line_tokens(ns),
            forall|j: int| 0 <= j < out@.len() ==> lines_of((#[trigger] out@[j]).value@).len() == out@[j].count,
        decreases cs@.len() - i,
    {
        let comp = cs[i];
        let ghost pre = cs@.take(i + 1);
        proof {
            lemma_valid_prefix(cs@, os, ns, olds@.len() as int, news@.len() as int, TokenEq::Exact, i + 1);
            assert(pre.drop_last() =~= cs@.take(i as int));
            assert(pre.last() == comp);
            assert(consumed(pre, true) == new_pos + if !comp.removed { comp.count as int } else { 0 });
            assert(consumed(pre, false) == old_pos + if !comp.added { comp.count as int } else { 0 });
            assert(consumed(pre, true) <= news@.len());
            assert(consumed(pre, false) <= olds@.len());
        }
        let k = comp.count;
        let ghost before = out@;
        if !comp.removed {
            let value = concat_range(news, new_pos, new_pos + k);
            proof {
                lemma_concat_split(ns, new_pos as int, new_pos + k);
                lemma_line_tokens_slice(ns, new_pos as int, new_pos + k);
                lemma_lines_of_concat(ns.subrange(new_pos as int, new_pos + k));
            }
            if !comp.added {
                proof {
                    lemma_concat_split(os, old_pos as int, old_pos + k);
                    let so = os.subrange(old_pos as int, old_pos + k);
                    let sn = ns.subrange(new_pos as int, new_pos + k);
                    assert(so =~= sn) by {
                        assert forall|j: int| 0 <= j < k implies #[trigger] so[j] == sn[j] by {
                            assert(tokens_equal(TokenEq::Exact, os[old_pos + j], ns[new_pos + j]));
                        }
                    }
                }
                old_pos += k;
            }
            new_pos += k;
            out.push(Change { value: string_of(value.as_slice()), count: k, added: comp.added, removed: comp.removed });
        } else {
            let value = concat_range(olds, old_pos, old_pos + k);
            proof {
                lemma_concat_split(os, old_pos as int, old_pos + k);
                lemma_line_tokens_slice(os, old_pos as int, old_pos + k);
                lemma_lines_of_concat(os.subrange(old_pos as int, old_pos + k));
            }
            old_pos += k;
            out.push(Change { value: string_of(value.as_slice()), count: k, added: comp.added, removed: comp.removed });
        }
        assert(out@.drop_last() =~= before);
        assert forall|j: int| 0 <= j < out@.len() implies lines_of((#[trigger] out@[j]).value@).len() == out@[j].count by {
            if j < i {
                assert(out@[j] == before[j]);
            }
        }
        assert(changes_match(out@, pre)) by {
            assert forall|j: int| 0 <= j < out@.len() implies (#[trigger] out@[j]).count == pre[j].count
                && out@[j].added == pre[j].added && out@[j].removed == pre[j].removed by {
                if j < i {
                    assert(out@[j] == before[j]);
                }
            }
        }
        i += 1;
    }
    proof {
        assert(cs@.take(cs@.len() as int) =~= cs@);
        assert(os.take(olds@.len() as int) =~= os);
        assert(ns.take(news@.len() as int) =~= ns);
    }
    out
}


proof fn lemma_valid_components(cs: Seq<Component>, old: Seq<Seq<char>>, new: Seq<Seq<char>>, o: int, n: int, mode: TokenEq)
    requires
        valid_script(cs, old, new, o, n, mode),
    ensures
        forall|i: int| 0 <= i < cs.len() ==> (#[trigger] cs[i]).count > 0 && !(cs[i].added && cs[i].removed),
    decreases cs.len(),
{
    if cs.len() > 0 {
        let c = cs.last();
        let k = c.count as int;
        let init = cs.drop_last();
        if c.added {
            lemma_valid_components(init, old, new, o, n - k, mode);
        } else if c.removed {
            lemma_valid_components(init, old, new, o - k, n, mode);
        } else {
            lemma_valid_components(init, old, new, o - k, n - k, mode);
        }
        assert forall|i: int| 0 <= i < cs.len() implies (#[trigger] cs[i]).count > 0 && !(cs[i].added && cs[i].removed) by {
            if i < cs.len() - 1 {
                assert(cs[i] == init[i]);
            }
        }
    }
}

/// Every change covers at least one token and is not both added and removed.
pub open spec fn well_formed_changes(ch: Seq<Change>) -> bool {
    forall|i: int| 0 <= i < ch.len() ==> (#[trigger] ch[i]).count > 0 && !(ch[i].added && ch[i].removed)
}

/// `ch` is a line diff of `old` and `new`: read on the old side it spells
/// `old` and on the new side `new`; each change covers as many lines as its
/// value holds; neighbouring changes differ in kind; the changes cover the
/// lines of each side.
pub open spec fn is_line_diff(old: Seq<char>, new: Seq<char>, ch: Seq<Change>) -> bool {
    &&& side_text(ch, false) == old
    &&& side_text(ch, true) == new
    &&& well_formed_changes(ch)
    &&& forall|i: int| 0 <= i < ch.len() ==> lines_of((#[trigger] ch[i]).value@).len() == ch[i].count
    &&& forall|i: int| 1 <= i < ch.len() ==> #[trigger] change_differs_at(ch, i)
    &&& change_tokens(ch, false) == lines_of(old).len()
    &&& change_tokens(ch, true) == lines_of(new).len()
}

/// `diffLines(old, new)` with default options: the texts are cut into
/// lines (each keeping its `\n`) and compared line by line. Read on the
/// old side (all but additions) the changes spell `old`; read on the new
/// side (all but removals) they spell `new`.
pub fn diff_lines(old: &str, new: &str) -> (r: Result<Vec<Change>, JsDiffError>)
    requires
        old@.len() + new@.len() <= isize::MAX / 4,
    ensures
        r is Ok,
        r matches Ok(ch) ==> is_line_diff(old@, new@, ch@),
        old@ == new@ ==> (r matches Ok(ch) && forall|i: int| 0 <= i < ch@.len() ==> !(#[trigger] ch@[i]).added && !ch@[i].removed),
{
    let o = chars_of(old);
    let n = chars_of(new);
    let ot = tokenize_lines(&o);
    let nt = tokenize_lines(&n);
    proof {
        lemma_lines_of(o@);
        lemma_lines_of(n@);
        lemma_lines_of_tokens(o@);
        lemma_lines_of_tokens(n@);
    }
    match diff_core(&ot, &nt, TokenEq::Exact) {
        Ok(cs) => {
            proof {
                lemma_valid_components(cs@, seqs_of(ot@), seqs_of(nt@), ot@.len() as int, nt@.len() as int, TokenEq::Exact);
                lemma_valid_consumed(cs@, seqs_of(ot@), seqs_of(nt@), ot@.len() as int, nt@.len() as int, TokenEq::Exact);
            }
            let ch = build_line_values(&cs, &ot, &nt);
            proof {
                lemma_change_tokens_match(ch@, cs@, false);
                lemma_change_tokens_match(ch@, cs@, true);
            }
            assert(old@ == new@ ==> forall|i: int| 0 <= i < ch@.len() ==> !(#[trigger] ch@[i]).added && !ch@[i].removed) by {
                if old@ == new@ {
                    assert(seqs_of(ot@) == seqs_of(nt@));
                    assert forall|i: int| 0 <= i < ch@.len() implies !(#[trigger] ch@[i]).added && !ch@[i].removed by {
                        assert(!cs@[i].added && !cs@[i].removed);
                    }
                }
            }
            assert forall|i: int| 1 <= i < ch@.len() implies #[trigger] change_differs_at(ch@, i) by {
                assert(comp_differs_at(cs@, i));
                assert(ch@[i].added == cs@[i].added && ch@[i].removed == cs@[i].removed);
                assert(ch@[i - 1].added == cs@[i - 1].added && ch@[i - 1].removed == cs@[i - 1].removed);
            }
            assert(well_formed_changes(ch@)) by {
                assert forall|i: int| 0 <= i < ch@.len() implies (#[trigger] ch@[i]).count > 0 && !(ch@[i].added && ch@[i].removed) by {
                    assert(cs@[i].count > 0);
                }
            }
            Ok(ch)
        },
        Err(e) => Err(e),
    }
}


// ---------------------------------------------------------------------------
// Word diff
// ---------------------------------------------------------------------------

/// jsdiff's `extendedWordChars`: ASCII letters and digits, `_`, the soft
/// hyphen and the Latin letter ranges.
pub open spec fn spec_word_char(c: char) -> bool {
    ('a' <= c && c <= 'z') || ('A' <= c && c <= 'Z') || ('0' <= c && c <= '9') || c == '_'
        || c == '\u{AD}' || ('\u{C0}' <= c && c <= '\u{D6}') || ('\u{D8}' <= c && c <= '\u{F6}')
        || ('\u{F8}' <= c && c <= '\u{2C6}') || ('\u{2C8}' <= c && c <= '\u{2D7}')
        || ('\u{2DE}' <= c && c <= '\u{2FF}') || ('\u{1E00}' <= c && c <= '\u{1EFF}')
}

fn is_word_char(c: char) -> (r: bool)
    ensures
        r == spec_word_char(c),
{
    ('a' <= c && c <= 'z') || ('A' <= c && c <= 'Z') || ('0' <= c && c <= '9') || c == '_'
        || c == '\u{AD}' || ('\u{C0}' <= c && c <= '\u{D6}') || ('\u{D8}' <= c && c <= '\u{F6}')
        || ('\u{F8}' <= c && c <= '\u{2C6}') || ('\u{2C8}' <= c && c <= '\u{2D7}')
        || ('\u{2DE}' <= c && c <= '\u{2FF}') || ('\u{1E00}' <= c && c <= '\u{1EFF}')
}

/// The class of a character for word splitting: 0 word, 1 whitespace,
/// 2 anything else.
pub open spec fn char_class(c: char) -> int {
    if spec_word_char(c) { 0 } else if spec_js_ws(c) { 1 } else { 2 }
}

fn class_of(c: char) -> (r: u8)
    ensures
        r == char_class(c),
{
    if is_word_char(c) { 0 } else if is_js_whitespace(c) { 1 } else { 2 }
}

/// The parts of a text: maximal runs of word characters, maximal runs of
/// whitespace, and every other character on its own.
pub open spec fn word_parts_of(s: Seq<char>) -> Seq<Seq<char>>
    decreases s.len(),
{
    if s.len() == 0 {
        Seq::<Seq<char>>::empty()
    } else {
        let p = word_parts_of(s.drop_last());
        let c = s.last();
        if p.len() > 0 && char_class(c) != 2 && char_class(p.last().last()) == char_class(c) {
            p.update(p.len() - 1, p.last().push(c))
        } else {
            p.push(seq![c])
        }
    }
}

proof fn lemma_word_parts_nonempty(s: Seq<char>)
    ensures
        forall|i: int| 0 <= i < word_parts_of(s).len() ==> #[trigger] word_parts_of(s)[i].len() > 0,
    decreases s.len(),
{
    if s.len() > 0 {
        lemma_word_parts_nonempty(s.drop_last());
        let p = word_parts_of(s.drop_last());
        let q = word_parts_of(s);
        assert forall|i: int| 0 <= i < q.len() implies #[trigger] q[i].len() > 0 by {
            if i < p.len() {
                assert(q[i] == p[i] || q[i] == p[i].push(s.last()));
            }
        }
    }
}

fn word_parts(s: &Vec<char>) -> (out: Vec<Vec<char>>)
    ensures
        seqs_of(out@) == word_parts_of(s@),
{
    let mut out: Vec<Vec<char>> = Vec::new();
    let mut i: usize = 0;
    while i < s.len()
        invariant
            i <= s@.len(),
            seqs_of(out@) == word_parts_of(s@.take(i as int)),
        decreases s@.len() - i,
    {
        let c = s[i];
        let ghost prev = s@.take(i as int);
        assert(s@.take(i + 1).drop_last() =~= prev);
        let ghost p = seqs_of(out@);
        let n = out.len();
        proof {
            lemma_word_parts_nonempty(prev);
            if n > 0 {
                assert(p[n - 1].len() > 0);
                assert(out@[n - 1]@ == p[n - 1]);
            }
        }
        let k = class_of(c);
        if n > 0 && k != 2 && class_of(out[n - 1][out[n - 1].len() - 1]) == k {
            let mut last = out.pop().unwrap();
            last.push(c);
            out.push(last);
            assert(seqs_of(out@) =~= p.update(p.len() - 1, p.last().push(c)));
        } else {
            let v = vec![c];
            assert(v@ =~= seq![c]);
            out.push(v);
            assert(seqs_of(out@) =~= p.push(seq![c]));
        }
        i += 1;
    }
    assert(s@.take(s@.len() as int) =~= s@);
    out
}

/// Whether a text holds a whitespace character.
pub open spec fn has_ws(s: Seq<char>) -> bool
    decreases s.len(),
{
    s.len() > 0 && (spec_js_ws(s.last()) || has_ws(s.drop_last()))
}

fn has_ws_chars(s: &Vec<char>) -> (r: bool)
    ensures
        r == has_ws(s@),
{
    let mut i: usize = 0;
    while i < s.len()
        invariant
            i <= s@.len(),
            !has_ws(s@.take(i as int)),
        decreases s@.len() - i,
    {
        assert(s@.take(i + 1).drop_last() =~= s@.take(i as int));
        if is_js_whitespace(s[i]) {
            assert(has_ws(s@.take(i + 1)));
            proof { lemma_has_ws_prefix(s@, i + 1); }
            return true;
        }
        i += 1;
    }
    assert(s@.take(s@.len() as int) =~= s@);
    false
}

proof fn lemma_has_ws_prefix(s: Seq<char>, k: int)
    requires
        0 <= k <= s.len(),
        has_ws(s.take(k)),
    ensures
        has_ws(s),
    decreases s.len(),
{
    if k < s.len() {
        assert(s.drop_last().take(k) =~= s.take(k));
        lemma_has_ws_prefix(s.drop_last(), k);
    } else {
        assert(s.take(k) =~= s);
    }
}

/// Word tokens: whitespace parts are stitched onto the neighbouring
/// tokens, so a whitespace run ends the token before it and starts the
/// token after it.
pub open spec fn word_tokens_of(parts: Seq<Seq<char>>) -> Seq<Seq<char>>
    decreases parts.len(),
{
    if parts.len() == 0 {
        Seq::<Seq<char>>::empty()
    } else {
        let t = word_tokens_of(parts.drop_last());
        let part = parts.last();
        let n = parts.len();
        if has_ws(part) {
            if n >= 2 && t.len() > 0 { t.update(t.len() - 1, t.last() + part) } else { t.push(part) }
        } else if n >= 2 && has_ws(parts[n - 2]) {
            let prev = parts[n - 2];
            if t.len() > 0 && t.last() == prev { t.update(t.len() - 1, t.last() + part) } else { t.push(prev + part) }
        } else {
            t.push(part)
        }
    }
}

fn tokenize_words(s: &Vec<char>) -> (out: Vec<Vec<char>>)
    ensures
        seqs_of(out@) == word_tokens_of(word_parts_of(s@)),
        out@.len() <= s@.len(),
{
    let parts = word_parts(s);
    let ghost ps = seqs_of(parts@);
    proof {
        lemma_word_parts_len(s@);
    }
    let mut out: Vec<Vec<char>> = Vec::new();
    let mut i: usize = 0;
    while i < parts.len()
        invariant
            i <= parts@.len(),
            ps == seqs_of(parts@),
            ps.len() <= s@.len(),
            seqs_of(out@) == word_tokens_of(ps.take(i as int)),
            out@.len() <= i,
        decreases parts@.len() - i,
    {
        let ghost pre = ps.take(i + 1);
        assert(pre.drop_last() =~= ps.take(i as int));
        assert(pre.last() == parts@[i as int]@);
        let ghost t = seqs_of(out@);
        let part_ws = has_ws_chars(&parts[i]);
        if part_ws {
            if i >= 1 && out.len() > 0 {
                let mut last = out.pop().unwrap();
                extend_chars(&mut last, &parts[i]);
                out.push(last);
                assert(seqs_of(out@) =~= t.update(t.len() - 1, t.last() + ps[i as int]));
            } else {
                out.push(parts[i].clone());
                assert(seqs_of(out@) =~= t.push(ps[i as int]));
            }
        } else if i >= 1 && has_ws_chars(&parts[i - 1]) {
            assert(pre[i - 1] == ps[i - 1]);
            let n = out.len();
            if n > 0 && chars_eq(&out[n - 1], &parts[i - 1]) {
                let mut last = out.pop().unwrap();
                extend_chars(&mut last, &parts[i]);
                out.push(last);
                assert(seqs_of(out@) =~= t.update(t.len() - 1, t.last() + ps[i as int]));
            } else {
                let joined = concat_chars(&parts[i - 1], &parts[i]);
                out.push(joined);
                assert(seqs_of(out@) =~= t.push(ps[i - 1] + ps[i as int]));
            }
        } else {
            out.push(parts[i].clone());
            assert(seqs_of(out@) =~= t.push(ps[i as int]));
        }
        i += 1;
    }
    assert(ps.take(ps.len() as int) =~= ps);
    out
}

proof fn lemma_word_parts_len(s: Seq<char>)
    ensures
        word_parts_of(s).len() <= s.len(),
    decreases s.len(),
{
    if s.len() > 0 {
        lemma_word_parts_len(s.drop_last());
    }
}

/// `s` without its leading whitespace.
pub open spec fn trim_start_js(s: Seq<char>) -> Seq<char> {
    s.subrange(js_ws_start(s, 0), s.len() as int)
}

/// Joining word tokens: the first token whole, each later one without its
/// leading whitespace (which the token before already ends with).
pub open spec fn join_words_of(ts: Seq<Seq<char>>) -> Seq<char>
    decreases ts.len(),
{
    if ts.len() == 0 {
        Seq::<char>::empty()
    } else if ts.len() == 1 {
        ts[0]
    } else {
        join_words_of(ts.drop_last()) + trim_start_js(ts.last())
    }
}

/// The leading whitespace of `s`.
pub open spec fn leading_ws_of(s: Seq<char>) -> Seq<char> {
    s.take(js_ws_start(s, 0))
}

/// The trailing whitespace of `s`.
pub open spec fn trailing_ws_of(s: Seq<char>) -> Seq<char> {
    s.subrange(js_ws_end(s, 0, s.len() as int), s.len() as int)
}

fn ws_start(s: &Vec<char>) -> (r: usize)
    ensures
        r == js_ws_start(s@, 0),
        r <= s@.len(),
{
    let mut a: usize = 0;
    while a < s.len() && is_js_whitespace(s[a])
        invariant
            a <= s@.len(),
            js_ws_start(s@, 0) == js_ws_start(s@, a as int),
        decreases s@.len() - a,
    {
        a += 1;
    }
    a
}

fn ws_end(s: &Vec<char>) -> (r: usize)
    ensures
        r == js_ws_end(s@, 0, s@.len() as int),
        r <= s@.len(),
{
    let mut b = s.len();
    while b > 0 && is_js_whitespace(s[b - 1])
        invariant
            b <= s@.len(),
            js_ws_end(s@, 0, s@.len() as int) == js_ws_end(s@, 0, b as int),
        decreases b,
    {
        b -= 1;
    }
    b
}

fn leading_ws(s: &Vec<char>) -> (out: Vec<char>)
    ensures
        out@ == leading_ws_of(s@),
{
    let a = ws_start(s);
    let out = copy_range(s, 0, a);
    assert(out@ =~= s@.take(a as int));
    out
}

fn trailing_ws(s: &Vec<char>) -> (out: Vec<char>)
    ensures
        out@ == trailing_ws_of(s@),
{
    let b = ws_end(s);
    copy_range(s, b, s.len())
}

fn join_words(tokens: &Vec<Vec<char>>, from: usize, to: usize) -> (out: Vec<char>)
    requires
        from <= to <= tokens@.len(),
    ensures
        out@ == join_words_of(seqs_of(tokens@).subrange(from as int, to as int)),
{
    let ghost ts = seqs_of(tokens@);
    let mut out: Vec<char> = Vec::new();
    let mut i = from;
    while i < to
        invariant
            from <= i <= to,
            to <= tokens@.len(),
            ts == seqs_of(tokens@),
            out@ == join_words_of(ts.subrange(from as int, i as int)),
        decreases to - i,
    {
        let ghost sub = ts.subrange(from as int, i + 1);
        assert(sub.drop_last() =~= ts.subrange(from as int, i as int));
        assert(sub.last() == tokens@[i as int]@);
        if i == from {
            out = tokens[i].clone();
            assert(sub =~= seq![ts[i as int]]);
        } else {
            let a = ws_start(&tokens[i]);
            let rest = copy_range(&tokens[i], a, tokens[i].len());
            extend_chars(&mut out, &rest);
        }
        i += 1;
    }
    out
}


/// Length of the common prefix of `a` and `b`, counting from `i`.
pub open spec fn common_prefix_len(a: Seq<char>, b: Seq<char>, i: int) -> int
    decreases a.len() - i,
{
    if 0 <= i < a.len() && i < b.len() && a[i] == b[i] { common_prefix_len(a, b, i + 1) } else { i }
}

/// Length of the common suffix of `a` and `b`, counting from `i`.
pub open spec fn common_suffix_len(a: Seq<char>, b: Seq<char>, i: int) -> int
    decreases a.len() - i,
{
    if 0 <= i < a.len() && i < b.len() && a[a.len() - 1 - i] == b[b.len() - 1 - i] {
        common_suffix_len(a, b, i + 1)
    } else {
        i
    }
}

proof fn lemma_common_prefix_len(a: Seq<char>, b: Seq<char>, i: int)
    requires
        0 <= i <= a.len(),
        i <= b.len(),
    ensures
        i <= common_prefix_len(a, b, i) <= a.len(),
        common_prefix_len(a, b, i) <= b.len(),
    decreases a.len() - i,
{
    if i < a.len() && i < b.len() && a[i] == b[i] {
        lemma_common_prefix_len(a, b, i + 1);
    }
}

proof fn lemma_common_suffix_len(a: Seq<char>, b: Seq<char>, i: int)
    requires
        0 <= i <= a.len(),
        i <= b.len(),
    ensures
        i <= common_suffix_len(a, b, i) <= a.len(),
        common_suffix_len(a, b, i) <= b.len(),
    decreases a.len() - i,
{
    if i < a.len() && i < b.len() && a[a.len() - 1 - i] == b[b.len() - 1 - i] {
        lemma_common_suffix_len(a, b, i + 1);
    }
}

/// The longest common prefix of two texts.
fn longest_common_prefix(a: &Vec<char>, b: &Vec<char>) -> (out: Vec<char>)
    ensures
        out@ == a@.take(common_prefix_len(a@, b@, 0)),
{
    let mut i: usize = 0;
    while i < a.len() && i < b.len() && a[i] == b[i]
        invariant
            i <= a@.len(),
            i <= b@.len(),
            common_prefix_len(a@, b@, 0) == common_prefix_len(a@, b@, i as int),
        decreases a@.len() - i,
    {
        i += 1;
    }
    let out = copy_range(a, 0, i);
    assert(out@ =~= a@.take(i as int));
    out
}

/// The longest common suffix of two texts.
fn longest_common_suffix(a: &Vec<char>, b: &Vec<char>) -> (out: Vec<char>)
    ensures
        out@ == a@.subrange(a@.len() - common_suffix_len(a@, b@, 0), a@.len() as int),
{
    let mut i: usize = 0;
    while i < a.len() && i < b.len() && a[a.len() - (i + 1)] == b[b.len() - (i + 1)]
        invariant
            i <= a@.len(),
            i <= b@.len(),
            common_suffix_len(a@, b@, 0) == common_suffix_len(a@, b@, i as int),
        decreases a@.len() - i,
    {
        i += 1;
    }
    copy_range(a, a.len() - i, a.len())
}

/// Whether `s` begins with `p`.
pub open spec fn has_prefix(s: Seq<char>, p: Seq<char>) -> bool {
    p.len() <= s.len() && s.take(p.len() as int) == p
}

/// Whether `s` ends with `p`.
pub open spec fn has_suffix(s: Seq<char>, p: Seq<char>) -> bool {
    p.len() <= s.len() && s.subrange(s.len() - p.len(), s.len() as int) == p
}

/// The message of an internal error: `string <string> <what> <part>; this
/// is a bug`, both texts quoted as `{:?}` quotes them.
pub open spec fn internal_text(what: Seq<char>, string: Seq<char>, part: Seq<char>) -> Seq<char> {
    "string "@ + crate::text::debug_quoted(string) + what + crate::text::debug_quoted(part) + "; this is a bug"@
}

fn internal_error(what: &str, string: &Vec<char>, part: &Vec<char>) -> (e: JsDiffError)
    ensures
        e matches JsDiffError::Internal(m) && m@ == internal_text(what@, string@, part@),
{
    let mut msg = chars_of("string ");
    let q1 = debug_quote(string_of(string.as_slice()).as_str());
    extend_chars(&mut msg, &chars_of(q1.as_str()));
    extend_chars(&mut msg, &chars_of(what));
    let q2 = debug_quote(string_of(part.as_slice()).as_str());
    extend_chars(&mut msg, &chars_of(q2.as_str()));
    extend_chars(&mut msg, &chars_of("; this is a bug"));
    JsDiffError::Internal(string_of(msg.as_slice()))
}

/// `s` with the prefix `old` replaced by `new`; an error when `s` does
/// not begin with `old`.
fn replace_prefix(s: &Vec<char>, old: &Vec<char>, new: &Vec<char>) -> (r: Result<Vec<char>, JsDiffError>)
    ensures
        r is Ok <==> has_prefix(s@, old@),
        r matches Ok(v) ==> v@ == new@ + s@.subrange(old@.len() as int, s@.len() as int),
{
    if old.len() > s.len() {
        return Err(internal_error(" doesn't start with prefix ", s, old));
    }
    let head = copy_range(s, 0, old.len());
    if !chars_eq(&head, old) {
        assert(head@ =~= s@.take(old@.len() as int));
        return Err(internal_error(" doesn't start with prefix ", s, old));
    }
    assert(head@ =~= s@.take(old@.len() as int));
    let rest = copy_range(s, old.len(), s.len());
    Ok(concat_chars(new, &rest))
}

/// `s` with the suffix `old` replaced by `new`; an error when `s` does
/// not end with `old`.
fn replace_suffix(s: &Vec<char>, old: &Vec<char>, new: &Vec<char>) -> (r: Result<Vec<char>, JsDiffError>)
    ensures
        r is Ok <==> has_suffix(s@, old@),
        r matches Ok(v) ==> v@ == s@.subrange(0, s@.len() - old@.len()) + new@,
{
    if old.len() > s.len() {
        return Err(internal_error(" doesn't end with suffix ", s, old));
    }
    let cut = s.len() - old.len();
    let tail = copy_range(s, cut, s.len());
    if !chars_eq(&tail, old) {
        return Err(internal_error(" doesn't end with suffix ", s, old));
    }
    let rest = copy_range(s, 0, cut);
    Ok(concat_chars(&rest, new))
}

/// The longest overlap, at most `k` long, of a suffix of `a` with a
/// prefix of `b`.
pub open spec fn overlap_len(a: Seq<char>, b: Seq<char>, k: int) -> int
    decreases k,
{
    if k <= 0 {
        0
    } else if a.subrange(a.len() - k, a.len() as int) == b.take(k) {
        k
    } else {
        overlap_len(a, b, k - 1)
    }
}

proof fn lemma_overlap_len(a: Seq<char>, b: Seq<char>, k: int)
    requires
        0 <= k,
    ensures
        0 <= overlap_len(a, b, k) <= k,
    decreases k,
{
    if k > 0 {
        lemma_overlap_len(a, b, k - 1);
    }
}

/// Maximum overlap: the longest suffix of `a` that is a
/// prefix of `b`.
fn maximum_overlap(a: &Vec<char>, b: &Vec<char>) -> (out: Vec<char>)
    ensures
        out@ == b@.take(overlap_len(a@, b@, if a@.len() < b@.len() { a@.len() as int } else { b@.len() as int })),
{
    let m = if a.len() < b.len() { a.len() } else { b.len() };
    let mut k = m;
    while k > 0
        invariant
            k <= m,
            m <= a@.len(),
            m <= b@.len(),
            m == (if a@.len() < b@.len() { a@.len() as int } else { b@.len() as int }),
            overlap_len(a@, b@, m as int) == overlap_len(a@, b@, k as int),
        decreases k,
    {
        let tail = copy_range(a, a.len() - k, a.len());
        let head = copy_range(b, 0, k);
        assert(head@ =~= b@.take(k as int));
        if chars_eq(&tail, &head) {
            return head;
        }
        k -= 1;
    }
    let out = Vec::new();
    assert(out@ =~= b@.take(0));
    out
}


/// Two lists of changes with the same counts and kinds; only values may
/// differ.
pub open spec fn same_shape(a: Seq<Change>, b: Seq<Change>) -> bool {
    &&& a.len() == b.len()
    &&& forall|i: int| 0 <= i < a.len() ==> (#[trigger] a[i]).count == b[i].count
        && a[i].added == b[i].added && a[i].removed == b[i].removed
}

proof fn lemma_same_shape_trans(a: Seq<Change>, b: Seq<Change>, c: Seq<Change>)
    requires
        same_shape(a, b),
        same_shape(b, c),
    ensures
        same_shape(a, c),
{
    assert forall|i: int| 0 <= i < a.len() implies (#[trigger] a[i]).count == c[i].count
        && a[i].added == c[i].added && a[i].removed == c[i].removed by {
        assert(b[i].count == c[i].count);
    }
}

fn value_chars(changes: &Vec<Change>, i: usize) -> (v: Vec<char>)
    requires
        i < changes@.len(),
    ensures
        v@ == changes@[i as int].value@,
{
    chars_of(changes[i].value.as_str())
}

fn set_value(changes: &mut Vec<Change>, i: usize, v: &Vec<char>)
    requires
        i < old(changes)@.len(),
    ensures
        same_shape(old(changes)@, final(changes)@),
        final(changes)@[i as int].value@ == v@,
        forall|j: int| 0 <= j < old(changes)@.len() && j != i ==> final(changes)@[j] == old(changes)@[j],
        values_of(final(changes)@) == values_of(old(changes)@).update(i as int, v@),
{
    let c = Change { value: string_of(v.as_slice()), count: changes[i].count, added: changes[i].added, removed: changes[i].removed };
    changes.set(i, c);
    assert(values_of(changes@) =~= values_of(old(changes)@).update(i as int, v@));
}

/// The text values of a list of changes.
pub open spec fn values_of(ch: Seq<Change>) -> Seq<Seq<char>> {
    Seq::new(ch.len(), |i: int| ch[i].value@)
}

/// The value at `i` with its prefix `old` replaced by `new`; `None` when it does
/// not begin with `old`, or when an earlier step failed.
pub open spec fn step_prefix(vs: Option<Seq<Seq<char>>>, i: int, old: Seq<char>, new: Seq<char>) -> Option<Seq<Seq<char>>> {
    match vs {
        Some(v) => if has_prefix(v[i], old) {
            Some(v.update(i, new + v[i].subrange(old.len() as int, v[i].len() as int)))
        } else {
            None
        },
        None => None,
    }
}

/// The value at `i` with its suffix `old` replaced by `new`; `None` when it does
/// not end with `old`, or when an earlier step failed.
pub open spec fn step_suffix(vs: Option<Seq<Seq<char>>>, i: int, old: Seq<char>, new: Seq<char>) -> Option<Seq<Seq<char>>> {
    match vs {
        Some(v) => if has_suffix(v[i], old) {
            Some(v.update(i, v[i].subrange(0, v[i].len() - old.len()) + new))
        } else {
            None
        },
        None => None,
    }
}

/// The value at `i` without its leading whitespace.
pub open spec fn step_trim_start(vs: Option<Seq<Seq<char>>>, i: int) -> Option<Seq<Seq<char>>> {
    match vs {
        Some(v) => Some(v.update(i, v[i].subrange(js_ws_start(v[i], 0), v[i].len() as int))),
        None => None,
    }
}

/// The longest common prefix of two texts.
pub open spec fn common_prefix_of(a: Seq<char>, b: Seq<char>) -> Seq<char> {
    a.take(common_prefix_len(a, b, 0))
}

/// The longest common suffix of two texts.
pub open spec fn common_suffix_of(a: Seq<char>, b: Seq<char>) -> Seq<char> {
    a.subrange(a.len() - common_suffix_len(a, b, 0), a.len() as int)
}

/// The longest suffix of `a` that is a prefix of `b`.
pub open spec fn overlap_of(a: Seq<char>, b: Seq<char>) -> Seq<char> {
    b.take(overlap_len(a, b, if a.len() < b.len() { a.len() as int } else { b.len() as int }))
}

/// The values after whitespace dedupe around a deletion and/or insertion
/// between two kept runs (by index); `None` when a value lacks the
/// whitespace a step expects.
pub open spec fn dedupe_values(
    vs: Seq<Seq<char>>,
    start_keep: Option<usize>,
    deletion: Option<usize>,
    insertion: Option<usize>,
    end_keep: Option<usize>,
) -> Option<Seq<Seq<char>>> {
    match (deletion, insertion) {
        (Some(del), Some(ins)) => {
            let dv = vs[del as int];
            let iv = vs[ins as int];
            let a = match start_keep {
                Some(sk) => {
                    let common = common_prefix_of(leading_ws_of(dv), leading_ws_of(iv));
                    let s1 = step_suffix(Some(vs), sk as int, leading_ws_of(iv), common);
                    let s2 = step_prefix(s1, del as int, common, Seq::<char>::empty());
                    step_prefix(s2, ins as int, common, Seq::<char>::empty())
                },
                None => Some(vs),
            };
            match end_keep {
                Some(ek) => {
                    let common = common_suffix_of(trailing_ws_of(dv), trailing_ws_of(iv));
                    let s1 = step_prefix(a, ek as int, trailing_ws_of(iv), common);
                    let s2 = step_suffix(s1, del as int, common, Seq::<char>::empty());
                    step_suffix(s2, ins as int, common, Seq::<char>::empty())
                },
                None => a,
            }
        },
        (None, Some(ins)) => {
            let a = if start_keep is Some { step_trim_start(Some(vs), ins as int) } else { Some(vs) };
            match end_keep {
                Some(ek) => step_trim_start(a, ek as int),
                None => a,
            }
        },
        (Some(del), None) => {
            let dv = vs[del as int];
            match (start_keep, end_keep) {
                (Some(sk), Some(ek)) => {
                    let full = leading_ws_of(vs[ek as int]);
                    let head = common_prefix_of(full, leading_ws_of(dv));
                    let rest = full.subrange(head.len() as int, full.len() as int);
                    let tail = common_suffix_of(rest, trailing_ws_of(dv));
                    let keep = if tail.len() <= full.len() { full.len() - tail.len() } else { 0 };
                    let s1 = step_prefix(Some(vs), del as int, head, Seq::<char>::empty());
                    let s2 = step_suffix(s1, del as int, tail, Seq::<char>::empty());
                    let s3 = step_prefix(s2, ek as int, full, tail);
                    step_suffix(s3, sk as int, full, full.take(keep))
                },
                (None, Some(ek)) => step_suffix(
                    Some(vs),
                    del as int,
                    overlap_of(trailing_ws_of(dv), leading_ws_of(vs[ek as int])),
                    Seq::<char>::empty(),
                ),
                (Some(sk), None) => step_prefix(
                    Some(vs),
                    del as int,
                    overlap_of(trailing_ws_of(vs[sk as int]), leading_ws_of(dv)),
                    Seq::<char>::empty(),
                ),
                (None, None) => Some(vs),
            }
        },
        (None, None) => Some(vs),
    }
}

/// Whitespace dedupe: around a deletion and/or
/// insertion between two kept runs, whitespace that the neighbours
/// already hold is dropped so that it is neither shown twice nor shown
/// as changed.
#[verifier::spinoff_prover]
#[verifier::rlimit(60)]
fn dedupe_whitespace(
    changes: &mut Vec<Change>,
    start_keep: Option<usize>,
    deletion: Option<usize>,
    insertion: Option<usize>,
    end_keep: Option<usize>,
) -> (r: Result<(), JsDiffError>)
    requires
        start_keep matches Some(k) ==> k < old(changes)@.len(),
        deletion matches Some(k) ==> k < old(changes)@.len(),
        insertion matches Some(k) ==> k < old(changes)@.len(),
        end_keep matches Some(k) ==> k < old(changes)@.len(),
    ensures
        same_shape(old(changes)@, final(changes)@),
        r is Ok <==> dedupe_values(values_of(old(changes)@), start_keep, deletion, insertion, end_keep) is Some,
        r is Ok ==> dedupe_values(values_of(old(changes)@), start_keep, deletion, insertion, end_keep)
            == Some(values_of(final(changes)@)),
{
    let ghost vs = values_of(changes@);
    let ghost mut cur: Option<Seq<Seq<char>>> = Some(vs);
    let empty: Vec<char> = Vec::new();
    match (deletion, insertion) {
        (Some(del), Some(ins)) => {
            let dv = value_chars(changes, del);
            let iv = value_chars(changes, ins);
            let old_ws_prefix = leading_ws(&dv);
            let old_ws_suffix = trailing_ws(&dv);
            let new_ws_prefix = leading_ws(&iv);
            let new_ws_suffix = trailing_ws(&iv);
            if let Some(sk) = start_keep {
                let common = longest_common_prefix(&old_ws_prefix, &new_ws_prefix);
                let skv = value_chars(changes, sk);
                proof { cur = step_suffix(cur, sk as int, new_ws_prefix@, common@); }
                let v = replace_suffix(&skv, &new_ws_prefix, &common)?;
                set_value(changes, sk, &v);
                let dv2 = value_chars(changes, del);
                proof { cur = step_prefix(cur, del as int, common@, empty@); }
                let v = replace_prefix(&dv2, &common, &empty)?;
                set_value(changes, del, &v);
                let iv2 = value_chars(changes, ins);
                proof { cur = step_prefix(cur, ins as int, common@, empty@); }
                let v = replace_prefix(&iv2, &common, &empty)?;
                set_value(changes, ins, &v);
            }
            if let Some(ek) = end_keep {
                let common = longest_common_suffix(&old_ws_suffix, &new_ws_suffix);
                let ekv = value_chars(changes, ek);
                proof { cur = step_prefix(cur, ek as int, new_ws_suffix@, common@); }
                let v = replace_prefix(&ekv, &new_ws_suffix, &common)?;
                set_value(changes, ek, &v);
                let dv2 = value_chars(changes, del);
                proof { cur = step_suffix(cur, del as int, common@, empty@); }
                let v = replace_suffix(&dv2, &common, &empty)?;
                set_value(changes, del, &v);
                let iv2 = value_chars(changes, ins);
                proof { cur = step_suffix(cur, ins as int, common@, empty@); }
                let v = replace_suffix(&iv2, &common, &empty)?;
                set_value(changes, ins, &v);
            }
        },
        (None, Some(ins)) => {
            if start_keep.is_some() {
                let iv = value_chars(changes, ins);
                let a = ws_start(&iv);
                let v = copy_range(&iv, a, iv.len());
                proof { cur = step_trim_start(cur, ins as int); }
                set_value(changes, ins, &v);
            }
            if let Some(ek) = end_keep {
                let ev = value_chars(changes, ek);
                let a = ws_start(&ev);
                let v = copy_range(&ev, a, ev.len());
                proof { cur = step_trim_start(cur, ek as int); }
                set_value(changes, ek, &v);
            }
        },
        (Some(del), None) => {
            match (start_keep, end_keep) {
                (Some(sk), Some(ek)) => {
                    let ev = value_chars(changes, ek);
                    let new_ws_full = leading_ws(&ev);
                    let dv = value_chars(changes, del);
                    let del_ws_start = leading_ws(&dv);
                    let del_ws_end = trailing_ws(&dv);
                    let new_ws_start = longest_common_prefix(&new_ws_full, &del_ws_start);
                    proof { cur = step_prefix(cur, del as int, new_ws_start@, empty@); }
                    let v = replace_prefix(&dv, &new_ws_start, &empty)?;
                    set_value(changes, del, &v);
                    proof {
                        lemma_common_prefix_len(new_ws_full@, del_ws_start@, 0);
                        assert(new_ws_full@.take(new_ws_start@.len() as int) == new_ws_start@);
                    }
                    let rest = replace_prefix(&new_ws_full, &new_ws_start, &empty)?;
                    let new_ws_end = longest_common_suffix(&rest, &del_ws_end);
                    let dv2 = value_chars(changes, del);
                    proof { cur = step_suffix(cur, del as int, new_ws_end@, empty@); }
                    let v = replace_suffix(&dv2, &new_ws_end, &empty)?;
                    set_value(changes, del, &v);
                    let ev2 = value_chars(changes, ek);
                    proof { cur = step_prefix(cur, ek as int, new_ws_full@, new_ws_end@); }
                    let v = replace_prefix(&ev2, &new_ws_full, &new_ws_end)?;
                    set_value(changes, ek, &v);
                    let keep = if new_ws_end.len() <= new_ws_full.len() { new_ws_full.len() - new_ws_end.len() } else { 0 };
                    let start_replacement = copy_range(&new_ws_full, 0, keep);
                    assert(start_replacement@ == new_ws_full@.take(keep as int));
                    let skv = value_chars(changes, sk);
                    proof { cur = step_suffix(cur, sk as int, new_ws_full@, start_replacement@); }
                    let v = replace_suffix(&skv, &new_ws_full, &start_replacement)?;
                    set_value(changes, sk, &v);
                },
                (None, Some(ek)) => {
                    let ev = value_chars(changes, ek);
                    let end_keep_ws_prefix = leading_ws(&ev);
                    let dv = value_chars(changes, del);
                    let deletion_ws_suffix = trailing_ws(&dv);
                    let overlap = maximum_overlap(&deletion_ws_suffix, &end_keep_ws_prefix);
                    proof { cur = step_suffix(cur, del as int, overlap@, empty@); }
                    let v = replace_suffix(&dv, &overlap, &empty)?;
                    set_value(changes, del, &v);
                },
                (Some(sk), None) => {
                    let skv = value_chars(changes, sk);
                    let start_keep_ws_suffix = trailing_ws(&skv);
                    let dv = value_chars(changes, del);
                    let deletion_ws_prefix = leading_ws(&dv);
                    let overlap = maximum_overlap(&start_keep_ws_suffix, &deletion_ws_prefix);
                    proof { cur = step_prefix(cur, del as int, overlap@, empty@); }
                    let v = replace_prefix(&dv, &overlap, &empty)?;
                    set_value(changes, del, &v);
                },
                (None, None) => {},
            }
        },
        (None, None) => {},
    }
    Ok(())
}

/// The values after whitespace dedupe around every run of changes, from
/// change `i` on, given the last kept change and the insertion and
/// deletion seen since; `None` when a dedupe step fails.
pub open spec fn post_process_from(
    ch: Seq<Change>,
    vs: Option<Seq<Seq<char>>>,
    i: int,
    last_keep: Option<usize>,
    insertion: Option<usize>,
    deletion: Option<usize>,
) -> Option<Seq<Seq<char>>>
    decreases ch.len() - i,
{
    match vs {
        None => None,
        Some(v) => if i >= ch.len() {
            if insertion is Some || deletion is Some {
                dedupe_values(v, last_keep, deletion, insertion, None)
            } else {
                Some(v)
            }
        } else if ch[i].added {
            post_process_from(ch, vs, i + 1, last_keep, Some(i as usize), deletion)
        } else if ch[i].removed {
            post_process_from(ch, vs, i + 1, last_keep, insertion, Some(i as usize))
        } else {
            let next = if insertion is Some || deletion is Some {
                dedupe_values(v, last_keep, deletion, insertion, Some(i as usize))
            } else {
                vs
            };
            post_process_from(ch, next, i + 1, Some(i as usize), None, None)
        },
    }
}

/// Post-processing succeeds when no change from `i` on is kept and no
/// kept change came before: no dedupe has a kept neighbour to touch.
proof fn lemma_post_process_no_keep(
    ch: Seq<Change>,
    v: Seq<Seq<char>>,
    i: int,
    insertion: Option<usize>,
    deletion: Option<usize>,
)
    requires
        0 <= i <= ch.len(),
        forall|j: int| i <= j < ch.len() ==> (#[trigger] ch[j]).added || ch[j].removed,
    ensures
        post_process_from(ch, Some(v), i, None, insertion, deletion) is Some,
    decreases ch.len() - i,
{
    if i < ch.len() {
        if ch[i].added {
            lemma_post_process_no_keep(ch, v, i + 1, Some(i as usize), deletion);
        } else {
            lemma_post_process_no_keep(ch, v, i + 1, insertion, Some(i as usize));
        }
    }
}

/// Post-processing changes nothing when no change from `i` on is an
/// insertion or a deletion and none is pending.
proof fn lemma_post_process_no_edit(ch: Seq<Change>, v: Seq<Seq<char>>, i: int, last_keep: Option<usize>)
    requires
        0 <= i <= ch.len(),
        forall|j: int| i <= j < ch.len() ==> !(#[trigger] ch[j]).added && !ch[j].removed,
    ensures
        post_process_from(ch, Some(v), i, last_keep, None, None) == Some(v),
    decreases ch.len() - i,
{
    if i < ch.len() {
        lemma_post_process_no_edit(ch, v, i + 1, Some(i as usize));
    }
}

/// A script over no old tokens only adds; one over no new tokens only
/// removes.
proof fn lemma_valid_one_sided(cs: Seq<Component>, old: Seq<Seq<char>>, new: Seq<Seq<char>>, o: int, n: int, mode: TokenEq)
    requires
        valid_script(cs, old, new, o, n, mode),
    ensures
        o == 0 ==> forall|i: int| 0 <= i < cs.len() ==> (#[trigger] cs[i]).added,
        n == 0 ==> forall|i: int| 0 <= i < cs.len() ==> (#[trigger] cs[i]).removed,
    decreases cs.len(),
{
    if cs.len() > 0 {
        let c = cs.last();
        let k = c.count as int;
        if c.added {
            lemma_valid_one_sided(cs.drop_last(), old, new, o, n - k, mode);
        } else if c.removed {
            lemma_valid_one_sided(cs.drop_last(), old, new, o - k, n, mode);
        } else {
            lemma_valid_one_sided(cs.drop_last(), old, new, o - k, n - k, mode);
        }
        assert forall|i: int| 0 <= i < cs.len() - 1 implies cs[i] == cs.drop_last()[i] by {}
    }
}

/// Word post-processing: whitespace dedupe around every run of changes.
fn post_process_words(changes: &mut Vec<Change>) -> (r: Result<(), JsDiffError>)
    ensures
        same_shape(old(changes)@, final(changes)@),
        r is Ok <==> post_process_from(old(changes)@, Some(values_of(old(changes)@)), 0, None, None, None) is Some,
        r is Ok ==> post_process_from(old(changes)@, Some(values_of(old(changes)@)), 0, None, None, None)
            == Some(values_of(final(changes)@)),
{
    let ghost orig = changes@;
    let ghost goal = post_process_from(orig, Some(values_of(orig)), 0, None, None, None);
    let mut last_keep: Option<usize> = None;
    let mut insertion: Option<usize> = None;
    let mut deletion: Option<usize> = None;
    let n = changes.len();
    let mut i: usize = 0;
    while i < n
        invariant
            n == changes@.len(),
            i <= n,
            orig == old(changes)@,
            same_shape(orig, changes@),
            last_keep matches Some(k) ==> k < i,
            insertion matches Some(k) ==> k < i,
            deletion matches Some(k) ==> k < i,
            goal == post_process_from(orig, Some(values_of(orig)), 0, None, None, None),
            post_process_from(orig, Some(values_of(changes@)), i as int, last_keep, insertion, deletion) == goal,
        decreases n - i,
    {
        assert(changes@[i as int].added == orig[i as int].added && changes@[i as int].removed == orig[i as int].removed);
        if changes[i].added {
            insertion = Some(i);
        } else if changes[i].removed {
            deletion = Some(i);
        } else {
            if insertion.is_some() || deletion.is_some() {
                let ghost before = changes@;
                let r = dedupe_whitespace(changes, last_keep, deletion, insertion, Some(i));
                proof {
                    lemma_same_shape_trans(orig, before, changes@);
                }
                if let Err(e) = r {
                    assert(goal == post_process_from(orig, None, i + 1, Some(i), None, None));
                    return Err(e);
                }
            }
            last_keep = Some(i);
            insertion = None;
            deletion = None;
        }
        i += 1;
    }
    if insertion.is_some() || deletion.is_some() {
        let ghost before = changes@;
        let r = dedupe_whitespace(changes, last_keep, deletion, insertion, None);
        proof {
            lemma_same_shape_trans(orig, before, changes@);
        }
        if let Err(e) = r {
            return Err(e);
        }
    }
    Ok(())
}


/// Tokens the changes cover on the new side (`on_new`: all but removals)
/// or the old side (all but additions).
pub open spec fn change_tokens(ch: Seq<Change>, on_new: bool) -> int
    decreases ch.len(),
{
    if ch.len() == 0 {
        0
    } else {
        let c = ch.last();
        change_tokens(ch.drop_last(), on_new) + if (on_new && !c.removed) || (!on_new && !c.added) { c.count as int } else { 0 }
    }
}

proof fn lemma_change_tokens_match(ch: Seq<Change>, cs: Seq<Component>, on_new: bool)
    requires
        changes_match(ch, cs),
    ensures
        change_tokens(ch, on_new) == consumed(cs, on_new),
    decreases ch.len(),
{
    if ch.len() > 0 {
        let a = ch.drop_last();
        let b = cs.drop_last();
        assert(changes_match(a, b)) by {
            assert forall|i: int| 0 <= i < a.len() implies (#[trigger] a[i]).count == b[i].count
                && a[i].added == b[i].added && a[i].removed == b[i].removed by {
                assert(a[i] == ch[i]);
                assert(b[i] == cs[i]);
            }
        }
        lemma_change_tokens_match(a, b, on_new);
        assert(ch[ch.len() - 1] == ch.last());
    }
}

proof fn lemma_change_tokens_shape(a: Seq<Change>, b: Seq<Change>, on_new: bool)
    requires
        same_shape(a, b),
    ensures
        change_tokens(a, on_new) == change_tokens(b, on_new),
        well_formed_changes(a) ==> well_formed_changes(b),
    decreases a.len(),
{
    if a.len() > 0 {
        let x = a.drop_last();
        let y = b.drop_last();
        assert(same_shape(x, y)) by {
            assert forall|i: int| 0 <= i < x.len() implies (#[trigger] x[i]).count == y[i].count
                && x[i].added == y[i].added && x[i].removed == y[i].removed by {
                assert(x[i] == a[i]);
                assert(y[i] == b[i]);
            }
        }
        lemma_change_tokens_shape(x, y, on_new);
        assert(a[a.len() - 1] == a.last());
        assert(b[b.len() - 1] == b.last());
    }
    if well_formed_changes(a) {
        assert forall|i: int| 0 <= i < b.len() implies (#[trigger] b[i]).count > 0 && !(b[i].added && b[i].removed) by {
            assert(a[i].count > 0);
        }
    }
}

/// The value of the `i`-th change built from a word script: its tokens
/// joined, taken from the old side for a removal and the new side else.
pub open spec fn word_change_value(cs: Seq<Component>, os: Seq<Seq<char>>, ns: Seq<Seq<char>>, i: int) -> Seq<char> {
    let c = cs[i];
    if c.removed {
        let start = consumed(cs.take(i), false);
        join_words_of(os.subrange(start, start + c.count))
    } else {
        let start = consumed(cs.take(i), true);
        join_words_of(ns.subrange(start, start + c.count))
    }
}

fn build_word_values(cs: &Vec<Component>, olds: &Vec<Vec<char>>, news: &Vec<Vec<char>>) -> (out: Vec<Change>)
    requires
        valid_script(cs@, seqs_of(olds@), seqs_of(news@), olds@.len() as int, news@.len() as int, TokenEq::TrimmedJs),
    ensures
        changes_match(out@, cs@),
        forall|i: int| 0 <= i < out@.len() ==> (#[trigger] out@[i]).value@ == word_change_value(cs@, seqs_of(olds@), seqs_of(news@), i),
{
    let ghost os = seqs_of(olds@);
    let ghost ns = seqs_of(news@);
    let mut out: Vec<Change> = Vec::new();
    let mut new_pos: usize = 0;
    let mut old_pos: usize = 0;
    let mut i: usize = 0;
    let n_old = olds.len();
    let n_new = news.len();
    proof {
        assert(cs@.take(0) =~= Seq::<Component>::empty());
    }
    while i < cs.len()
        invariant
            i <= cs@.len(),
            os == seqs_of(olds@),
            ns == seqs_of(news@),
            n_old == olds@.len(),
            n_new == news@.len(),
            valid_script(cs@, os, ns, olds@.len() as int, news@.len() as int, TokenEq::TrimmedJs),
            old_pos == consumed(cs@.take(i as int), false),
            new_pos == consumed(cs@.take(i as int), true),
            changes_match(out@, cs@.take(i as int)),
            forall|j: int| 0 <= j < out@.len() ==> (#[trigger] out@[j]).value@ == word_change_value(cs@, os, ns, j),
        decreases cs@.len() - i,
    {
        let comp = cs[i];
        let ghost pre = cs@.take(i + 1);
        proof {
            lemma_valid_prefix(cs@, os, ns, olds@.len() as int, news@.len() as int, TokenEq::TrimmedJs, i + 1);
            assert(pre.drop_last() =~= cs@.take(i as int));
            assert(pre.last() == comp);
            assert(consumed(pre, true) == new_pos + if !comp.removed { comp.count as int } else { 0 });
            assert(consumed(pre, false) == old_pos + if !comp.added { comp.count as int } else { 0 });
        }
        let k = comp.count;
        let ghost before = out@;
        let value;
        if !comp.removed {
            value = join_words(news, new_pos, new_pos + k);
            if !comp.added {
                old_pos += k;
            }
            new_pos += k;
        } else {
            value = join_words(olds, old_pos, old_pos + k);
            old_pos += k;
        }
        out.push(Change { value: string_of(value.as_slice()), count: k, added: comp.added, removed: comp.removed });
        assert(out@.drop_last() =~= before);
        assert(changes_match(out@, pre)) by {
            assert forall|j: int| 0 <= j < out@.len() implies (#[trigger] out@[j]).count == pre[j].count
                && out@[j].added == pre[j].added && out@[j].removed == pre[j].removed by {
                if j < i {
                    assert(out@[j] == before[j]);
                }
            }
        }
        assert forall|j: int| 0 <= j < out@.len() implies (#[trigger] out@[j]).value@ == word_change_value(cs@, os, ns, j) by {
            if j < i {
                assert(out@[j] == before[j]);
            }
        }
        i += 1;
    }
    proof {
        assert(cs@.take(cs@.len() as int) =~= cs@);
    }
    out
}

/// `cs` is an edit script between the word tokens of `old` and `new`
/// (tokens equal once trimmed), neighbouring components of different
/// kinds, and `built` its changes before the whitespace dedupe: each
/// holds its tokens joined (from the new side unless removed).
pub open spec fn word_script(old: Seq<char>, new: Seq<char>, cs: Seq<Component>, built: Seq<Change>) -> bool {
    let os = word_tokens_of(word_parts_of(old));
    let ns = word_tokens_of(word_parts_of(new));
    &&& valid_script(cs, os, ns, os.len() as int, ns.len() as int, TokenEq::TrimmedJs)
    &&& comps_alternate(cs)
    &&& changes_match(built, cs)
    &&& forall|i: int| 0 <= i < built.len() ==> (#[trigger] built[i]).value@ == word_change_value(cs, os, ns, i)
}

/// `diffWords(old, new)` with default options: the texts are cut into
/// words, whitespace runs and punctuation, tokens compare equal when they
/// match once trimmed, and whitespace repeated around changes is
/// deduplicated. On success the changes cover every old token (all but
/// additions) and every new token (all but removals) exactly once.
pub fn diff_words(old: &str, new: &str) -> (r: Result<Vec<Change>, JsDiffError>)
    requires
        old@.len() + new@.len() <= isize::MAX / 4,
    ensures
        r matches Ok(ch) ==> {
            &&& well_formed_changes(ch@)
            &&& change_tokens(ch@, false) == word_tokens_of(word_parts_of(old@)).len()
            &&& change_tokens(ch@, true) == word_tokens_of(word_parts_of(new@)).len()
            &&& forall|i: int| 1 <= i < ch@.len() ==> #[trigger] change_differs_at(ch@, i)
        },
        (old@.len() == 0 || new@.len() == 0 || old@ == new@) ==> r is Ok,
        exists|cs: Seq<Component>, built: Seq<Change>| #[trigger] word_script(old@, new@, cs, built)
            && match post_process_from(built, Some(values_of(built)), 0, None, None, None) {
                Some(vs) => r matches Ok(ch) && same_shape(built, ch@) && values_of(ch@) == vs,
                None => r is Err,
            },
{
    let o = chars_of(old);
    let n = chars_of(new);
    let ot = tokenize_words(&o);
    let nt = tokenize_words(&n);
    match diff_core(&ot, &nt, TokenEq::TrimmedJs) {
        Ok(cs) => {
            proof {
                lemma_valid_components(cs@, seqs_of(ot@), seqs_of(nt@), ot@.len() as int, nt@.len() as int, TokenEq::TrimmedJs);
                lemma_valid_consumed(cs@, seqs_of(ot@), seqs_of(nt@), ot@.len() as int, nt@.len() as int, TokenEq::TrimmedJs);
            }
            let mut ch = build_word_values(&cs, &ot, &nt);
            proof {
                lemma_change_tokens_match(ch@, cs@, false);
                lemma_change_tokens_match(ch@, cs@, true);
                assert forall|i: int| 0 <= i < ch@.len() implies (#[trigger] ch@[i]).count > 0 && !(ch@[i].added && ch@[i].removed) by {
                    assert(cs@[i].count > 0);
                }
            }
            let ghost built = ch@;
            assert(word_script(old@, new@, cs@, built));
            proof {
                let os = seqs_of(ot@);
                let ns = seqs_of(nt@);
                lemma_valid_one_sided(cs@, os, ns, ot@.len() as int, nt@.len() as int, TokenEq::TrimmedJs);
                if old@.len() == 0 || new@.len() == 0 {
                    if old@.len() == 0 {
                        assert forall|j: int| 0 <= j < built.len() implies (#[trigger] built[j]).added || built[j].removed by {
                            assert(cs@[j].added);
                        }
                    } else {
                        assert forall|j: int| 0 <= j < built.len() implies (#[trigger] built[j]).added || built[j].removed by {
                            assert(cs@[j].removed);
                        }
                    }
                    lemma_post_process_no_keep(built, values_of(built), 0, None, None);
                } else if old@ == new@ {
                    assert(os == ns);
                    assert forall|j: int| 0 <= j < built.len() implies !(#[trigger] built[j]).added && !built[j].removed by {
                        assert(!cs@[j].added && !cs@[j].removed);
                    }
                    lemma_post_process_no_edit(built, values_of(built), 0, None);
                }
            }
            match post_process_words(&mut ch) {
                Ok(()) => {
                    proof {
                        lemma_change_tokens_shape(built, ch@, false);
                        lemma_change_tokens_shape(built, ch@, true);
                        assert forall|i: int| 1 <= i < ch@.len() implies #[trigger] change_differs_at(ch@, i) by {
                            assert(comp_differs_at(cs@, i));
                            assert(built[i].added == cs@[i].added && built[i].removed == cs@[i].removed);
                            assert(built[i - 1].added == cs@[i - 1].added && built[i - 1].removed == cs@[i - 1].removed);
                            assert(ch@[i].added == built[i].added && ch@[i].removed == built[i].removed);
                            assert(ch@[i - 1].added == built[i - 1].added && ch@[i - 1].removed == built[i - 1].removed);
                        }
                    }
                    Ok(ch)
                },
                Err(e) => Err(e),
            }
        },
        Err(e) => Err(e),
    }
}


// ---------------------------------------------------------------------------
// Unified patches
// ---------------------------------------------------------------------------

/// Which header lines a patch carries: the `Index:` line and the
/// underline (`Include` only) and the `---`/`+++` file lines (all but
/// `Omit`).
#[derive(Clone, Copy, Debug, PartialEq, Eq, Structural)]
pub enum HeaderOptions {
    Include,
    FileHeadersOnly,
    Omit,
}

/// One hunk: where it starts on each side, how many lines it spans there,
/// and its lines (each led by ` `, `-` or `+`).
struct Hunk {
    old_start: usize,
    old_lines: usize,
    new_start: usize,
    new_lines: usize,
    lines: Vec<Vec<char>>,
}

/// One change cut into lines.
struct Entry {
    lines: Vec<Vec<char>>,
    added: bool,
    removed: bool,
}

/// `lead` followed by `line`.
fn prefixed(lead: char, line: &Vec<char>) -> (out: Vec<char>)
    ensures
        out@ == seq![lead] + line@,
{
    let mut out = vec![lead];
    assert(out@ =~= seq![lead]);
    extend_chars(&mut out, line);
    out
}

/// Sum of the lengths of change values.
pub open spec fn values_len(ch: Seq<Change>) -> int
    decreases ch.len(),
{
    if ch.len() == 0 { 0 } else { values_len(ch.drop_last()) + ch.last().value@.len() }
}

proof fn lemma_values_len(ch: Seq<Change>)
    requires
        well_formed_changes(ch),
    ensures
        values_len(ch) <= side_text(ch, false).len() + side_text(ch, true).len(),
    decreases ch.len(),
{
    if ch.len() > 0 {
        let a = ch.drop_last();
        assert(well_formed_changes(a)) by {
            assert forall|i: int| 0 <= i < a.len() implies (#[trigger] a[i]).count > 0 && !(a[i].added && a[i].removed) by {
                assert(a[i] == ch[i]);
            }
        }
        lemma_values_len(a);
        assert(ch[ch.len() - 1] == ch.last());
    }
}

/// Lines held by the first `k` entries.
spec fn entry_lines(es: Seq<Entry>, k: int) -> int
    decreases k,
{
    if k <= 0 { 0 } else { entry_lines(es, k - 1) + es[k - 1].lines@.len() }
}

proof fn lemma_entry_lines_mono(es: Seq<Entry>, a: int, b: int)
    requires
        0 <= a <= b,
    ensures
        entry_lines(es, a) <= entry_lines(es, b),
    decreases b - a,
{
    if a < b {
        lemma_entry_lines_mono(es, a, b - 1);
    }
}

/// A hunk as plain values.
#[verifier::ext_equal]
pub struct HunkView {
    pub old_start: int,
    pub old_lines: int,
    pub new_start: int,
    pub new_lines: int,
    pub lines: Seq<Seq<char>>,
}

/// Where hunk building stands after some changes: the finished hunks,
/// the lines of the open hunk, where it starts on each side (0 when no
/// hunk is open), and the next line number on each side.
#[verifier::ext_equal]
pub struct HunkState {
    pub hunks: Seq<HunkView>,
    pub cur: Seq<Seq<char>>,
    pub ors: int,
    pub nrs: int,
    pub ol: int,
    pub nl: int,
}

/// Each line led by `c`.
pub open spec fn lead_all(c: char, ls: Seq<Seq<char>>) -> Seq<Seq<char>> {
    Seq::new(ls.len(), |i: int| seq![c] + ls[i])
}

/// The changes cut into lines, with their kinds, and an empty kept
/// change at the end that closes the last hunk.
pub open spec fn change_entries(ch: Seq<Change>) -> Seq<(Seq<Seq<char>>, bool, bool)> {
    Seq::new(ch.len(), |i: int| (lines_of(ch[i].value@), ch[i].added, ch[i].removed))
}

pub open spec fn patch_entries(ch: Seq<Change>) -> Seq<(Seq<Seq<char>>, bool, bool)> {
    change_entries(ch).push((Seq::<Seq<char>>::empty(), false, false))
}

/// One change of hunk building: a changed run opens a hunk (with up to
/// `ctx` lines of the kept run before it) and adds its lines led by `+`
/// or `-`; a kept run inside an open hunk either joins it (when it is at
/// most twice `ctx` long and not the last real run) or closes it after
/// `ctx` of its lines.
pub open spec fn hunk_step(st: HunkState, es: Seq<(Seq<Seq<char>>, bool, bool)>, i: int, ctx: int) -> HunkState {
    let lines = es[i].0;
    let added = es[i].1;
    let removed = es[i].2;
    let n = lines.len() as int;
    if added || removed {
        let opened = if st.ors == 0 {
            if i > 0 {
                let prev = es[i - 1].0;
                let start = if prev.len() > ctx { prev.len() - ctx } else { 0 };
                let c = if ctx > 0 { lead_all(' ', prev.subrange(start, prev.len() as int)) } else { Seq::<Seq<char>>::empty() };
                HunkState { hunks: st.hunks, cur: c, ors: st.ol - c.len(), nrs: st.nl - c.len(), ol: st.ol, nl: st.nl }
            } else {
                HunkState { hunks: st.hunks, cur: st.cur, ors: st.ol, nrs: st.nl, ol: st.ol, nl: st.nl }
            }
        } else {
            st
        };
        HunkState {
            hunks: opened.hunks,
            cur: opened.cur + lead_all(if added { '+' } else { '-' }, lines),
            ors: opened.ors,
            nrs: opened.nrs,
            ol: if added { opened.ol } else { opened.ol + n },
            nl: if added { opened.nl + n } else { opened.nl },
        }
    } else {
        let closed = if st.ors != 0 {
            if (n <= ctx || n - ctx <= ctx) && es.len() >= 2 && i < es.len() - 2 {
                HunkState { hunks: st.hunks, cur: st.cur + lead_all(' ', lines), ors: st.ors, nrs: st.nrs, ol: st.ol, nl: st.nl }
            } else {
                let cs = if n < ctx { n } else { ctx };
                let h = HunkView {
                    old_start: st.ors,
                    old_lines: st.ol - st.ors + cs,
                    new_start: st.nrs,
                    new_lines: st.nl - st.nrs + cs,
                    lines: st.cur + lead_all(' ', lines.take(cs)),
                };
                HunkState { hunks: st.hunks.push(h), cur: Seq::empty(), ors: 0, nrs: 0, ol: st.ol, nl: st.nl }
            }
        } else {
            st
        };
        HunkState { hunks: closed.hunks, cur: closed.cur, ors: closed.ors, nrs: closed.nrs, ol: closed.ol + n, nl: closed.nl + n }
    }
}

/// Hunk building over the first `k` entries, from line 1 on each side.
pub open spec fn hunk_fold(es: Seq<(Seq<Seq<char>>, bool, bool)>, k: int, ctx: int) -> HunkState
    decreases k,
{
    if k <= 0 {
        HunkState { hunks: Seq::empty(), cur: Seq::empty(), ors: 0, nrs: 0, ol: 1, nl: 1 }
    } else {
        hunk_step(hunk_fold(es, k - 1, ctx), es, k - 1, ctx)
    }
}

/// The marker after a last line that has no line feed.
pub open spec fn no_newline_marker() -> Seq<char> {
    "\\ No newline at end of file"@
}

/// A hunk's lines without their line feeds; a line that had none is
/// followed by the marker.
pub open spec fn patch_lines(ls: Seq<Seq<char>>) -> Seq<Seq<char>>
    decreases ls.len(),
{
    if ls.len() == 0 {
        Seq::empty()
    } else {
        let l = ls.last();
        patch_lines(ls.drop_last()) + if l.len() > 0 && l.last() == '\n' { seq![l.drop_last()] } else { seq![l, no_newline_marker()] }
    }
}

/// The hunks of a line diff with `ctx` lines of context.
pub open spec fn spec_hunks(ch: Seq<Change>, ctx: int) -> Seq<HunkView> {
    let built = hunk_fold(patch_entries(ch), patch_entries(ch).len() as int, ctx).hunks;
    Seq::new(built.len(), |h: int| HunkView {
        old_start: built[h].old_start,
        old_lines: built[h].old_lines,
        new_start: built[h].new_start,
        new_lines: built[h].new_lines,
        lines: patch_lines(built[h].lines),
    })
}

// ---------------------------------------------------------------------------
// How much context a hunk holds
// ---------------------------------------------------------------------------

/// Whether a hunk line is an unchanged (context) line.
pub open spec fn unchanged_line(l: Seq<char>) -> bool {
    l.len() > 0 && l[0] == ' '
}

/// How many unchanged lines come right before position `k` of a hunk.
pub open spec fn unchanged_run(ls: Seq<Seq<char>>, k: int) -> int
    decreases k,
{
    if k <= 0 || k > ls.len() {
        0
    } else if unchanged_line(ls[k - 1]) {
        1 + unchanged_run(ls, k - 1)
    } else {
        0
    }
}

spec fn runs_bounded(ls: Seq<Seq<char>>, m: int) -> bool {
    forall|k: int| 0 <= k <= ls.len() ==> #[trigger] unchanged_run(ls, k) <= m
}

spec fn lead_bounded(ls: Seq<Seq<char>>, m: int) -> bool {
    forall|k: int| 0 <= k <= ls.len() && #[trigger] unchanged_run(ls, k) == k ==> k <= m
}

spec fn lines_led(ls: Seq<Seq<char>>) -> bool {
    forall|j: int| 0 <= j < ls.len() ==> (#[trigger] ls[j]).len() > 0 && (ls[j][0] == ' ' || ls[j][0] == '+' || ls[j][0] == '-')
}

spec fn raw_hunk_ok(ls: Seq<Seq<char>>, ctx: int) -> bool {
    &&& runs_bounded(ls, 2 * ctx)
    &&& lead_bounded(ls, ctx)
    &&& unchanged_run(ls, ls.len() as int) <= ctx
    &&& lines_led(ls)
}

proof fn lemma_run_bounds(ls: Seq<Seq<char>>, k: int)
    ensures
        0 <= unchanged_run(ls, k),
        0 <= k ==> unchanged_run(ls, k) <= k,
    decreases k,
{
    if k > 0 {
        lemma_run_bounds(ls, k - 1);
    }
}

proof fn lemma_run_prefix(a: Seq<Seq<char>>, b: Seq<Seq<char>>, k: int)
    requires
        0 <= k <= a.len(),
    ensures
        unchanged_run(a + b, k) == unchanged_run(a, k),
    decreases k,
{
    if k > 0 {
        lemma_run_prefix(a, b, k - 1);
        assert((a + b)[k - 1] == a[k - 1]);
    }
}

proof fn lemma_run_after_unchanged(a: Seq<Seq<char>>, x: Seq<Seq<char>>, k: int)
    requires
        forall|j: int| 0 <= j < x.len() ==> unchanged_line(#[trigger] x[j]),
        a.len() <= k <= a.len() + x.len(),
    ensures
        unchanged_run(a + x, k) == k - a.len() + unchanged_run(a, a.len() as int),
    decreases k,
{
    if k > a.len() {
        lemma_run_after_unchanged(a, x, k - 1);
        assert((a + x)[k - 1] == x[k - 1 - a.len()]);
    } else {
        lemma_run_prefix(a, x, k);
    }
}

proof fn lemma_run_after_changed(a: Seq<Seq<char>>, x: Seq<Seq<char>>, k: int)
    requires
        forall|j: int| 0 <= j < x.len() ==> !unchanged_line(#[trigger] x[j]),
        a.len() < k <= a.len() + x.len(),
    ensures
        unchanged_run(a + x, k) == 0,
{
    assert((a + x)[k - 1] == x[k - 1 - a.len()]);
}

proof fn lemma_lead_all_led(c: char, ls: Seq<Seq<char>>)
    ensures
        forall|j: int| 0 <= j < lead_all(c, ls).len() ==> (#[trigger] lead_all(c, ls)[j]).len() > 0 && lead_all(c, ls)[j][0] == c,
        lead_all(c, ls).len() == ls.len(),
{
    assert forall|j: int| 0 <= j < lead_all(c, ls).len() implies (#[trigger] lead_all(c, ls)[j]).len() > 0 && lead_all(c, ls)[j][0] == c by {
        assert(lead_all(c, ls)[j] == seq![c] + ls[j]);
    }
}

/// Changed lines after a hunk's lines keep its bounds and end its run.
proof fn lemma_ok_append_changed(a: Seq<Seq<char>>, c: char, ls: Seq<Seq<char>>, ctx: int)
    requires
        runs_bounded(a, 2 * ctx),
        lead_bounded(a, ctx),
        lines_led(a),
        c == '+' || c == '-',
        ls.len() > 0,
        ctx >= 0,
    ensures
        runs_bounded(a + lead_all(c, ls), 2 * ctx),
        lead_bounded(a + lead_all(c, ls), ctx),
        lines_led(a + lead_all(c, ls)),
        unchanged_run(a + lead_all(c, ls), (a + lead_all(c, ls)).len() as int) == 0,
        (a + lead_all(c, ls)).len() > 0,
{
    let x = lead_all(c, ls);
    let r = a + x;
    lemma_lead_all_led(c, ls);
    assert forall|j: int| 0 <= j < x.len() implies !unchanged_line(#[trigger] x[j]) by {}
    assert forall|k: int| 0 <= k <= r.len() implies #[trigger] unchanged_run(r, k) <= 2 * ctx
        && (unchanged_run(r, k) == k ==> k <= ctx) by {
        if k <= a.len() {
            lemma_run_prefix(a, x, k);
        } else {
            lemma_run_after_changed(a, x, k);
        }
    }
    assert forall|j: int| 0 <= j < r.len() implies (#[trigger] r[j]).len() > 0 && (r[j][0] == ' ' || r[j][0] == '+' || r[j][0] == '-') by {
        if j < a.len() {
            assert(r[j] == a[j]);
        } else {
            assert(r[j] == x[j - a.len()]);
        }
    }
    lemma_run_after_changed(a, x, r.len() as int);
}

/// Unchanged lines after a hunk's changed line: their run is as long as
/// they are, and the hunk's bounds hold when they are not too many.
proof fn lemma_ok_append_unchanged(a: Seq<Seq<char>>, ls: Seq<Seq<char>>, ctx: int)
    requires
        runs_bounded(a, 2 * ctx),
        lead_bounded(a, ctx),
        lines_led(a),
        a.len() > 0,
        unchanged_run(a, a.len() as int) == 0,
        ls.len() <= 2 * ctx,
    ensures
        runs_bounded(a + lead_all(' ', ls), 2 * ctx),
        lead_bounded(a + lead_all(' ', ls), ctx),
        lines_led(a + lead_all(' ', ls)),
        unchanged_run(a + lead_all(' ', ls), (a + lead_all(' ', ls)).len() as int) == ls.len(),
        (a + lead_all(' ', ls)).len() > 0,
{
    let x = lead_all(' ', ls);
    let r = a + x;
    lemma_lead_all_led(' ', ls);
    assert forall|j: int| 0 <= j < x.len() implies unchanged_line(#[trigger] x[j]) by {}
    assert forall|k: int| 0 <= k <= r.len() implies #[trigger] unchanged_run(r, k) <= 2 * ctx
        && (unchanged_run(r, k) == k ==> k <= ctx) by {
        if k <= a.len() {
            lemma_run_prefix(a, x, k);
        } else {
            lemma_run_after_unchanged(a, x, k);
        }
    }
    assert forall|j: int| 0 <= j < r.len() implies (#[trigger] r[j]).len() > 0 && (r[j][0] == ' ' || r[j][0] == '+' || r[j][0] == '-') by {
        if j < a.len() {
            assert(r[j] == a[j]);
        } else {
            assert(r[j] == x[j - a.len()]);
        }
    }
    lemma_run_after_unchanged(a, x, r.len() as int);
}

/// The entries hunk building reads: real runs of at least one line, not
/// both added and removed, no two kept runs in a row, and the empty kept
/// entry that closes the last hunk.
spec fn entries_ok(es: Seq<(Seq<Seq<char>>, bool, bool)>) -> bool {
    &&& es.len() >= 1
    &&& es[es.len() - 1].0.len() == 0 && !es[es.len() - 1].1 && !es[es.len() - 1].2
    &&& forall|i: int| 0 <= i < es.len() - 1 ==> (#[trigger] es[i]).0.len() > 0 && !(es[i].1 && es[i].2)
    &&& forall|i: int| 1 <= i < es.len() - 1 ==> !(!es[i - 1].1 && !es[i - 1].2 && !(#[trigger] es[i]).1 && !es[i].2)
}

/// The line after the last finished hunk, on the old side.
spec fn last_end(st: HunkState) -> int {
    st.hunks.last().old_start + st.hunks.last().old_lines
}

spec fn min_int(a: int, b: int) -> int {
    if a < b { a } else { b }
}

spec fn hunks_apart(hs: Seq<HunkView>) -> bool {
    forall|h: int| 0 <= h < hs.len() - 1 ==> #[trigger] hs[h + 1].old_start > hs[h].old_start + hs[h].old_lines
}

spec fn fold_inv(st: HunkState, es: Seq<(Seq<Seq<char>>, bool, bool)>, i: int, ctx: int) -> bool {
    &&& forall|h: int| 0 <= h < st.hunks.len() ==> raw_hunk_ok(#[trigger] st.hunks[h].lines, ctx)
    &&& hunks_apart(st.hunks)
    &&& (st.hunks.len() > 0 && st.ors != 0) ==> st.ors > last_end(st)
    &&& (st.hunks.len() > 0 && st.ors == 0 && i < es.len() - 1) ==> (i > 0 && !es[i - 1].1 && !es[i - 1].2
        && st.ol - min_int(ctx, es[i - 1].0.len() as int) > last_end(st))
    &&& st.ors >= 0
    &&& st.ors == 0 ==> st.cur.len() == 0
    &&& st.ors != 0 ==> {
        &&& st.cur.len() > 0
        &&& runs_bounded(st.cur, 2 * ctx)
        &&& lead_bounded(st.cur, ctx)
        &&& lines_led(st.cur)
        &&& (unchanged_run(st.cur, st.cur.len() as int) == 0 || (i < es.len() && (es[i].1 || es[i].2)))
    }
    &&& (i > 0 && (es[i - 1].1 || es[i - 1].2)) ==> st.ors != 0
    &&& st.ol >= 1
    &&& (i > 0 && !es[i - 1].1) ==> st.ol >= 1 + es[i - 1].0.len()
}

proof fn lemma_hunk_step_inv(st: HunkState, es: Seq<(Seq<Seq<char>>, bool, bool)>, i: int, ctx: int)
    requires
        entries_ok(es),
        ctx >= 0,
        0 <= i < es.len(),
        fold_inv(st, es, i, ctx),
    ensures
        fold_inv(hunk_step(st, es, i, ctx), es, i + 1, ctx),
{
    let lines = es[i].0;
    let added = es[i].1;
    let removed = es[i].2;
    let n = lines.len() as int;
    let r = hunk_step(st, es, i, ctx);
    if added || removed {
        assert(i < es.len() - 1);
        assert(n > 0);
        let opened = if st.ors == 0 {
            if i > 0 {
                let prev = es[i - 1].0;
                let start = if prev.len() > ctx { prev.len() - ctx } else { 0 };
                let c = if ctx > 0 { lead_all(' ', prev.subrange(start, prev.len() as int)) } else { Seq::<Seq<char>>::empty() };
                HunkState { hunks: st.hunks, cur: c, ors: st.ol - c.len(), nrs: st.nl - c.len(), ol: st.ol, nl: st.nl }
            } else {
                HunkState { hunks: st.hunks, cur: st.cur, ors: st.ol, nrs: st.nl, ol: st.ol, nl: st.nl }
            }
        } else {
            st
        };
        assert(opened.ors >= 1);
        assert(runs_bounded(opened.cur, 2 * ctx) && lead_bounded(opened.cur, ctx) && lines_led(opened.cur)) by {
            if st.ors == 0 {
                if i > 0 {
                    let prev = es[i - 1].0;
                    let start = if prev.len() > ctx { prev.len() - ctx } else { 0 };
                    let c = opened.cur;
                    if ctx > 0 {
                        lemma_lead_all_led(' ', prev.subrange(start, prev.len() as int));
                    }
                    assert(c.len() <= ctx);
                    assert forall|k: int| 0 <= k <= c.len() implies #[trigger] unchanged_run(c, k) <= 2 * ctx
                        && (unchanged_run(c, k) == k ==> k <= ctx) by {
                        lemma_run_bounds(c, k);
                    }
                } else {
                    assert(opened.cur.len() == 0);
                    assert forall|k: int| 0 <= k <= opened.cur.len() implies #[trigger] unchanged_run(opened.cur, k) <= 2 * ctx
                        && (unchanged_run(opened.cur, k) == k ==> k <= ctx) by {
                        assert(k == 0);
                    }
                }
            }
        }
        lemma_ok_append_changed(opened.cur, if added { '+' } else { '-' }, lines, ctx);
        assert(r.cur == opened.cur + lead_all(if added { '+' } else { '-' }, lines));
        assert(r.hunks == st.hunks);
        if st.hunks.len() > 0 && st.ors == 0 {
            let prev = es[i - 1].0;
            assert(opened.cur.len() == min_int(ctx, prev.len() as int));
            assert(r.ors > last_end(st));
        }
        assert(r.ors == opened.ors);
    } else {
        if st.ors != 0 {
            assert(unchanged_run(st.cur, st.cur.len() as int) == 0);
            if (n <= ctx || n - ctx <= ctx) && es.len() >= 2 && i < es.len() - 2 {
                lemma_ok_append_unchanged(st.cur, lines, ctx);
                assert(r.cur == st.cur + lead_all(' ', lines));
                assert(es[i + 1].1 || es[i + 1].2);
            } else {
                let cs = if n < ctx { n } else { ctx };
                lemma_ok_append_unchanged(st.cur, lines.take(cs), ctx);
                let h = r.hunks.len() - 1;
                assert(r.hunks == st.hunks.push(r.hunks[h]));
                assert(r.hunks[h].lines == st.cur + lead_all(' ', lines.take(cs)));
                assert(r.hunks[h].old_start == st.ors);
                assert(last_end(r) == st.ol + cs);
                assert(hunks_apart(r.hunks)) by {
                    assert forall|g: int| 0 <= g < r.hunks.len() - 1 implies #[trigger] r.hunks[g + 1].old_start > r.hunks[g].old_start + r.hunks[g].old_lines by {
                        if g + 1 < st.hunks.len() {
                            assert(r.hunks[g] == st.hunks[g] && r.hunks[g + 1] == st.hunks[g + 1]);
                        } else {
                            assert(r.hunks[g] == st.hunks.last());
                        }
                    }
                }
                assert forall|g: int| 0 <= g < r.hunks.len() implies raw_hunk_ok(#[trigger] r.hunks[g].lines, ctx) by {
                    if g < st.hunks.len() {
                        assert(r.hunks[g] == st.hunks[g]);
                    }
                }
            }
        }
    }
}

proof fn lemma_hunk_fold_inv(es: Seq<(Seq<Seq<char>>, bool, bool)>, k: int, ctx: int)
    requires
        entries_ok(es),
        ctx >= 0,
        0 <= k <= es.len(),
    ensures
        fold_inv(hunk_fold(es, k, ctx), es, k, ctx),
    decreases k,
{
    if k > 0 {
        lemma_hunk_fold_inv(es, k - 1, ctx);
        lemma_hunk_step_inv(hunk_fold(es, k - 1, ctx), es, k - 1, ctx);
    }
}

/// Cutting line feeds (and marking a last line without one) keeps the
/// runs of unchanged lines no longer than they were.
proof fn lemma_patch_lines_runs(ls: Seq<Seq<char>>, m: int, c: int)
    requires
        lines_led(ls),
        runs_bounded(ls, m),
        lead_bounded(ls, c),
    ensures
        runs_bounded(patch_lines(ls), m),
        lead_bounded(patch_lines(ls), c),
        unchanged_run(patch_lines(ls), patch_lines(ls).len() as int) <= unchanged_run(ls, ls.len() as int),
        unchanged_run(patch_lines(ls), patch_lines(ls).len() as int) == patch_lines(ls).len()
            ==> patch_lines(ls).len() == ls.len() && unchanged_run(ls, ls.len() as int) == ls.len(),
        forall|k: int| 0 <= k <= patch_lines(ls).len()
            && (forall|j: int| k <= j < patch_lines(ls).len() ==> #[trigger] patch_lines(ls)[j] == no_newline_marker())
            ==> #[trigger] unchanged_run(patch_lines(ls), k) <= unchanged_run(ls, ls.len() as int),
    decreases ls.len(),
{
    reveal_strlit("\\ No newline at end of file");
    let pl = patch_lines(ls);
    if ls.len() == 0 {
        assert forall|k: int| 0 <= k <= pl.len() implies #[trigger] unchanged_run(pl, k) <= m && (unchanged_run(pl, k) == k ==> k <= c) by {
            assert(k == 0);
            assert(unchanged_run(ls, 0) == 0);
        }
    } else {
        let init = ls.drop_last();
        let l = ls.last();
        assert(init + seq![l] =~= ls);
        assert forall|j: int| 0 <= j < init.len() implies (#[trigger] init[j]).len() > 0 && (init[j][0] == ' ' || init[j][0] == '+' || init[j][0] == '-') by {
            assert(init[j] == ls[j]);
        }
        assert forall|k: int| 0 <= k <= init.len() implies #[trigger] unchanged_run(init, k) == unchanged_run(ls, k) by {
            lemma_run_prefix(init, seq![l], k);
        }
        assert(runs_bounded(init, m)) by {
            assert forall|k: int| 0 <= k <= init.len() implies #[trigger] unchanged_run(init, k) <= m by {
                assert(unchanged_run(init, k) == unchanged_run(ls, k));
            }
        }
        assert(lead_bounded(init, c)) by {
            assert forall|k: int| 0 <= k <= init.len() && #[trigger] unchanged_run(init, k) == k implies k <= c by {
                assert(unchanged_run(init, k) == unchanged_run(ls, k));
            }
        }
        lemma_patch_lines_runs(init, m, c);
        let pi = patch_lines(init);
        let marker = no_newline_marker();
        assert(!unchanged_line(marker));
        assert(ls[ls.len() - 1] == l);
        assert(l.len() > 0 && (l[0] == ' ' || l[0] == '+' || l[0] == '-'));
        let keep = l.len() > 0 && l.last() == '\n';
        let l2 = if keep { l.drop_last() } else { l };
        assert(l2.len() > 0 && l2[0] == l[0]) by {
            if keep {
                assert(l.len() >= 2);
            }
        }
        assert(unchanged_line(l2) == unchanged_line(l));
        assert(l2 != marker) by {
            assert(marker[0] == '\\');
        }
        let t = if keep { seq![l2] } else { seq![l2, marker] };
        assert(pl == pi + t);
        // the run that ends with the last line of the text
        let p1: int = pi.len() as int + 1;
        assert(unchanged_run(pl, pi.len() as int) == unchanged_run(pi, pi.len() as int)) by {
            lemma_run_prefix(pi, t, pi.len() as int);
        }
        assert(pl[p1 - 1] == l2);
        assert(unchanged_run(ls, ls.len() as int) == if unchanged_line(l) { 1 + unchanged_run(init, init.len() as int) } else { 0 });
        assert(unchanged_run(pl, p1) <= unchanged_run(ls, ls.len() as int));
        assert(unchanged_run(pl, p1) == p1 ==> unchanged_run(ls, ls.len() as int) == ls.len() && p1 == ls.len());
        if !keep {
            assert(pl[pl.len() - 1] == marker);
            assert(unchanged_run(pl, pl.len() as int) == 0);
        }
        assert(unchanged_run(ls, ls.len() as int) <= m);
        assert(unchanged_run(ls, ls.len() as int) == ls.len() ==> ls.len() <= c);
        assert forall|k: int| 0 <= k <= pl.len() implies #[trigger] unchanged_run(pl, k) <= m && (unchanged_run(pl, k) == k ==> k <= c) by {
            if k <= pi.len() {
                lemma_run_prefix(pi, t, k);
                assert(unchanged_run(pi, k) <= m);
                assert(unchanged_run(pi, k) == k ==> k <= c);
                assert(unchanged_run(pl, k) == unchanged_run(pi, k));
            } else if k == p1 {
                assert(unchanged_run(pl, p1) <= unchanged_run(ls, ls.len() as int));
                assert(unchanged_run(pl, k) <= m);
                if unchanged_run(pl, k) == k {
                    assert(unchanged_run(ls, ls.len() as int) == ls.len());
                    assert(k <= c);
                }
            } else {
                assert(k == p1 + 1 && !keep);
                assert(pl[k - 1] == marker);
                assert(unchanged_run(pl, k) == 0);
                assert(unchanged_run(pl, k) <= m) by {
                    lemma_run_bounds(ls, ls.len() as int);
                }
            }
        }
        assert forall|k: int| 0 <= k <= pl.len()
            && (forall|j: int| k <= j < pl.len() ==> #[trigger] pl[j] == marker)
            implies #[trigger] unchanged_run(pl, k) <= unchanged_run(ls, ls.len() as int) by {
            if k < p1 {
                assert(k <= p1 - 1 < pl.len());
                assert(pl[p1 - 1] == marker);
                assert(false);
            } else if k == p1 {
                assert(unchanged_run(pl, p1) <= unchanged_run(ls, ls.len() as int));
            } else {
                assert(k == pl.len() && !keep);
                assert(unchanged_run(pl, pl.len() as int) == 0);
                lemma_run_bounds(ls, ls.len() as int);
            }
        }
    }
}

/// Within a hunk, a run of unchanged lines between two changes is at most
/// twice the context long, and a hunk begins and ends with at most the
/// context of unchanged lines (before a no-newline marker, if any): so
/// changes further apart than twice the context land in different hunks.
/// Consecutive hunks never touch: at least one old line lies between
/// them, so changes at most twice the context apart share a hunk.
pub proof fn law_hunk_context_bounded(old: Seq<char>, new: Seq<char>, ch: Seq<Change>, ctx: int)
    requires
        is_line_diff(old, new, ch),
        ctx >= 0,
    ensures
        forall|h: int| 0 <= h < spec_hunks(ch, ctx).len() - 1
            ==> #[trigger] spec_hunks(ch, ctx)[h + 1].old_start > spec_hunks(ch, ctx)[h].old_start + spec_hunks(ch, ctx)[h].old_lines,
        forall|h: int| 0 <= h < spec_hunks(ch, ctx).len() ==> {
            let ls = #[trigger] spec_hunks(ch, ctx)[h].lines;
            &&& forall|k: int| 0 <= k <= ls.len() ==> #[trigger] unchanged_run(ls, k) <= 2 * ctx
            &&& forall|k: int| 0 <= k <= ls.len() && #[trigger] unchanged_run(ls, k) == k ==> k <= ctx
            &&& forall|k: int| 0 <= k <= ls.len() && (forall|j: int| k <= j < ls.len() ==> #[trigger] ls[j] == no_newline_marker())
                ==> #[trigger] unchanged_run(ls, k) <= ctx
        },
{
    let es = patch_entries(ch);
    assert(entries_ok(es)) by {
        assert forall|i: int| 0 <= i < es.len() - 1 implies (#[trigger] es[i]).0.len() > 0 && !(es[i].1 && es[i].2) by {
            assert(es[i] == (lines_of(ch[i].value@), ch[i].added, ch[i].removed));
            assert(ch[i].count > 0);
        }
        assert forall|i: int| 1 <= i < es.len() - 1 implies !(!es[i - 1].1 && !es[i - 1].2 && !(#[trigger] es[i]).1 && !es[i].2) by {
            assert(change_differs_at(ch, i));
            assert(es[i] == (lines_of(ch[i].value@), ch[i].added, ch[i].removed));
            assert(es[i - 1] == (lines_of(ch[i - 1].value@), ch[i - 1].added, ch[i - 1].removed));
        }
    }
    lemma_hunk_fold_inv(es, es.len() as int, ctx);
    let built = hunk_fold(es, es.len() as int, ctx).hunks;
    assert forall|h: int| 0 <= h < spec_hunks(ch, ctx).len() implies {
        let ls = #[trigger] spec_hunks(ch, ctx)[h].lines;
        &&& forall|k: int| 0 <= k <= ls.len() ==> #[trigger] unchanged_run(ls, k) <= 2 * ctx
        &&& forall|k: int| 0 <= k <= ls.len() && #[trigger] unchanged_run(ls, k) == k ==> k <= ctx
        &&& forall|k: int| 0 <= k <= ls.len() && (forall|j: int| k <= j < ls.len() ==> #[trigger] ls[j] == no_newline_marker())
            ==> #[trigger] unchanged_run(ls, k) <= ctx
    } by {
        assert(raw_hunk_ok(built[h].lines, ctx));
        lemma_patch_lines_runs(built[h].lines, 2 * ctx, ctx);
        assert(spec_hunks(ch, ctx)[h].lines == patch_lines(built[h].lines));
    }
    assert forall|h: int| 0 <= h < spec_hunks(ch, ctx).len() - 1
        implies #[trigger] spec_hunks(ch, ctx)[h + 1].old_start > spec_hunks(ch, ctx)[h].old_start + spec_hunks(ch, ctx)[h].old_lines by {
        assert(built[h + 1].old_start > built[h].old_start + built[h].old_lines);
    }
}

/// A hunk's plain values.
spec fn hunk_view(h: Hunk) -> HunkView {
    HunkView {
        old_start: h.old_start as int,
        old_lines: h.old_lines as int,
        new_start: h.new_start as int,
        new_lines: h.new_lines as int,
        lines: seqs_of(h.lines@),
    }
}

spec fn hunk_views(hs: Seq<Hunk>) -> Seq<HunkView> {
    Seq::new(hs.len(), |i: int| hunk_view(hs[i]))
}

/// An entry's plain values.
spec fn entry_views(es: Seq<Entry>) -> Seq<(Seq<Seq<char>>, bool, bool)> {
    Seq::new(es.len(), |i: int| (seqs_of(es[i].lines@), es[i].added, es[i].removed))
}

/// Appends `lines[from..to]`, each led by `c`.
fn push_led(cur: &mut Vec<Vec<char>>, c: char, lines: &Vec<Vec<char>>, from: usize, to: usize)
    requires
        from <= to <= lines@.len(),
    ensures
        seqs_of(final(cur)@) == seqs_of(old(cur)@) + lead_all(c, seqs_of(lines@).subrange(from as int, to as int)),
{
    let ghost base = seqs_of(cur@);
    let mut k = from;
    while k < to
        invariant
            from <= k <= to,
            to <= lines@.len(),
            seqs_of(cur@) == base + lead_all(c, seqs_of(lines@).subrange(from as int, k as int)),
        decreases to - k,
    {
        let ghost before = seqs_of(cur@);
        cur.push(prefixed(c, &lines[k]));
        assert(seqs_of(cur@) =~= before.push(seq![c] + lines@[k as int]@));
        assert(lead_all(c, seqs_of(lines@).subrange(from as int, k + 1))
            =~= lead_all(c, seqs_of(lines@).subrange(from as int, k as int)).push(seq![c] + lines@[k as int]@));
        assert(seqs_of(cur@) =~= base + lead_all(c, seqs_of(lines@).subrange(from as int, k + 1)));
        k += 1;
    }
}

/// A hunk's lines made patch lines (see `patch_lines`).
fn finish_lines(ls: &Vec<Vec<char>>) -> (r: Vec<Vec<char>>)
    ensures
        seqs_of(r@) == patch_lines(seqs_of(ls@)),
{
    let mut out: Vec<Vec<char>> = Vec::new();
    let mut k: usize = 0;
    proof {
        reveal_strlit("\\ No newline at end of file");
    }
    while k < ls.len()
        invariant
            k <= ls@.len(),
            seqs_of(out@) == patch_lines(seqs_of(ls@).take(k as int)),
        decreases ls@.len() - k,
    {
        let ghost pre = seqs_of(ls@).take(k + 1);
        assert(pre.drop_last() =~= seqs_of(ls@).take(k as int));
        assert(pre.last() == ls@[k as int]@);
        let ghost before = seqs_of(out@);
        let line = &ls[k];
        let m = line.len();
        if m > 0 && line[m - 1] == '\n' {
            let t = copy_range(line, 0, m - 1);
            assert(t@ =~= line@.drop_last());
            out.push(t);
            assert(seqs_of(out@) =~= before + seq![line@.drop_last()]);
        } else {
            let whole = copy_range(line, 0, m);
            assert(whole@ =~= line@);
            out.push(whole);
            let mk = chars_of("\\ No newline at end of file");
            out.push(mk);
            assert(seqs_of(out@) =~= before + seq![line@, no_newline_marker()]);
        }
        k += 1;
    }
    assert(seqs_of(ls@).take(ls@.len() as int) =~= seqs_of(ls@));
    out
}

/// Structured patch hunks: runs of changes with up to
/// `context` common lines around them; hunks closer than twice the
/// context are merged. Lines lose their `\n`; a line without one is
/// followed by `\ No newline at end of file` (see `spec_hunks`).
fn structured_patch_hunks(old: &str, new: &str, context: usize) -> (r: Result<Vec<Hunk>, JsDiffError>)
    requires
        old@.len() + new@.len() <= isize::MAX / 4,
    ensures
        r is Ok,
        r matches Ok(hs) ==> exists|ch: Seq<Change>| #[trigger] is_line_diff(old@, new@, ch)
            && hunk_views(hs@) == spec_hunks(ch, context as int),
        r matches Ok(hs) ==> forall|h: int| 0 <= h < hs@.len() ==> (#[trigger] hs@[h]).old_start >= 1 && hs@[h].new_start >= 1,
        old@ == new@ ==> (r matches Ok(hs) && hs@.len() == 0),
{
    let diff = match diff_lines(old, new) {
        Ok(d) => d,
        Err(e) => return Err(e),
    };
    proof {
        lemma_values_len(diff@);
    }
    let mut entries: Vec<Entry> = Vec::new();
    let mut j: usize = 0;
    while j < diff.len()
        invariant
            j <= diff@.len(),
            entries@.len() == j,
            values_len(diff@) <= isize::MAX / 4,
            entry_lines(entries@, j as int) <= values_len(diff@.take(j as int)),
            entry_views(entries@) == change_entries(diff@).take(j as int),
        decreases diff@.len() - j,
    {
        let v = chars_of(diff[j].value.as_str());
        let lines = tokenize_lines(&v);
        proof {
            lemma_lines_of(v@);
            assert(diff@.take(j + 1).drop_last() =~= diff@.take(j as int));
            lemma_values_len_prefix(diff@, j + 1);
        }
        let ghost before = entries@;
        entries.push(Entry { lines, added: diff[j].added, removed: diff[j].removed });
        proof {
            lemma_entry_lines_push(before, entries@, j as int);
            assert(entry_views(entries@) =~= change_entries(diff@).take(j + 1)) by {
                assert forall|g: int| 0 <= g < j + 1 implies entry_views(entries@)[g] == change_entries(diff@).take(j + 1)[g] by {
                    if g < j {
                        assert(entries@[g] == before[g]);
                        assert(entry_views(before)[g] == change_entries(diff@).take(j as int)[g]);
                    }
                }
            }
        }
        j += 1;
    }
    let ghost before = entries@;
    entries.push(Entry { lines: Vec::new(), added: false, removed: false });
    let ghost ev = entry_views(entries@);
    proof {
        assert(diff@.take(diff@.len() as int) =~= diff@);
        lemma_entry_lines_push(before, entries@, j as int);
        assert(change_entries(diff@).take(diff@.len() as int) =~= change_entries(diff@));
        assert(ev =~= patch_entries(diff@)) by {
            assert forall|g: int| 0 <= g < ev.len() implies ev[g] == patch_entries(diff@)[g] by {
                if g < diff@.len() {
                    assert(entries@[g] == before[g]);
                    assert(entry_views(before)[g] == change_entries(diff@)[g]);
                } else {
                    assert(seqs_of(entries@[g].lines@) =~= Seq::<Seq<char>>::empty());
                }
            }
        }
    }
    let total = entries.len();
    let ghost all = entry_lines(entries@, total as int);
    let ghost unchanged: bool = forall|g: int| 0 <= g < entries@.len() ==> !(#[trigger] entries@[g]).added && !entries@[g].removed;
    assert(old@ == new@ ==> unchanged) by {
        if old@ == new@ {
            assert forall|g: int| 0 <= g < entries@.len() implies !(#[trigger] entries@[g]).added && !entries@[g].removed by {
                if g < diff@.len() {
                    assert(entries@[g] == before[g]);
                    assert(entry_views(before)[g] == change_entries(diff@)[g]);
                    assert(!diff@[g].added && !diff@[g].removed);
                }
            }
        }
    }
    assert(all <= isize::MAX / 4);
    let ghost ctx = context as int;

    let mut hunks: Vec<Hunk> = Vec::new();
    let mut old_range_start: usize = 0;
    let mut new_range_start: usize = 0;
    let mut cur_range: Vec<Vec<char>> = Vec::new();
    let mut old_line: usize = 1;
    let mut new_line: usize = 1;
    let mut i: usize = 0;
    assert(hunk_views(hunks@) =~= Seq::<HunkView>::empty());
    assert(seqs_of(cur_range@) =~= Seq::<Seq<char>>::empty());
    while i < total
        invariant
            total == entries@.len(),
            ev == entry_views(entries@),
            ctx == context as int,
            i <= total,
            all == entry_lines(entries@, total as int),
            all <= isize::MAX / 4,
            1 <= old_line <= 1 + entry_lines(entries@, i as int),
            1 <= new_line <= 1 + entry_lines(entries@, i as int),
            old_range_start <= old_line,
            new_range_start <= new_line,
            i > 0 && old_range_start == 0 ==> !entries@[i - 1].added && !entries@[i - 1].removed
                && old_line >= 1 + entries@[i - 1].lines@.len() && new_line >= 1 + entries@[i - 1].lines@.len(),
            (old_range_start == 0) == (new_range_start == 0),
            forall|h: int| 0 <= h < hunks@.len() ==> (#[trigger] hunks@[h]).old_start >= 1 && hunks@[h].new_start >= 1,
            unchanged == forall|g: int| 0 <= g < entries@.len() ==> !(#[trigger] entries@[g]).added && !entries@[g].removed,
            unchanged ==> hunks@.len() == 0 && old_range_start == 0,
            hunk_fold(ev, i as int, ctx) == (HunkState {
                hunks: hunk_views(hunks@),
                cur: seqs_of(cur_range@),
                ors: old_range_start as int,
                nrs: new_range_start as int,
                ol: old_line as int,
                nl: new_line as int,
            }),
        decreases total - i,
    {
        proof {
            lemma_entry_lines_mono(entries@, i + 1, total as int);
        }
        let ghost st = hunk_fold(ev, i as int, ctx);
        let ghost cur0 = seqs_of(cur_range@);
        let ghost hv0 = hunk_views(hunks@);
        let ghost el = seqs_of(entries@[i as int].lines@);
        assert(st.cur == cur0 && st.hunks == hv0);
        assert(ev.len() == total);
        let added = entries[i].added;
        let removed = entries[i].removed;
        let n_lines = entries[i].lines.len();
        assert(ev[i as int] == (el, added, removed));
        assert(el.len() == n_lines);
        assert(unchanged ==> !added && !removed);
        if added || removed {
            if old_range_start == 0 {
                old_range_start = old_line;
                new_range_start = new_line;
                if i > 0 {
                    let prev_len = entries[i - 1].lines.len();
                    assert(ev[i - 1] == (seqs_of(entries@[i - 1].lines@), entries@[i - 1].added, entries@[i - 1].removed));
                    let mut ctxl: Vec<Vec<char>> = Vec::new();
                    assert(seqs_of(ctxl@) =~= Seq::<Seq<char>>::empty());
                    if context > 0 {
                        let start = if prev_len > context { prev_len - context } else { 0 };
                        push_led(&mut ctxl, ' ', &entries[i - 1].lines, start, prev_len);
                        assert(seqs_of(ctxl@) =~= lead_all(' ', seqs_of(entries@[i - 1].lines@).subrange(start as int, prev_len as int)));
                    }
                    cur_range = ctxl;
                    old_range_start -= cur_range.len();
                    new_range_start -= cur_range.len();
                }
            }
            let ghost opened_cur = seqs_of(cur_range@);
            push_led(&mut cur_range, if added { '+' } else { '-' }, &entries[i].lines, 0, n_lines);
            assert(el.subrange(0, n_lines as int) =~= el);
            assert(seqs_of(cur_range@) == opened_cur + lead_all(if added { '+' } else { '-' }, el));
            assert(hunk_views(hunks@) == hv0);
            if added {
                new_line += n_lines;
            } else {
                old_line += n_lines;
            }
        } else {
            if old_range_start != 0 {
                let overlapping = (n_lines <= context || n_lines - context <= context) && total >= 2 && i < total - 2;
                assert(overlapping == ((el.len() <= ctx || el.len() - ctx <= ctx) && ev.len() >= 2 && i < ev.len() - 2));
                if overlapping {
                    push_led(&mut cur_range, ' ', &entries[i].lines, 0, n_lines);
                    assert(el.subrange(0, n_lines as int) =~= el);
                    assert(seqs_of(cur_range@) == cur0 + lead_all(' ', el));
                } else {
                    let context_size = if n_lines < context { n_lines } else { context };
                    push_led(&mut cur_range, ' ', &entries[i].lines, 0, context_size);
                    assert(seqs_of(entries@[i as int].lines@).subrange(0, context_size as int)
                        =~= seqs_of(entries@[i as int].lines@).take(context_size as int));
                    let lines = cur_range;
                    cur_range = Vec::new();
                    let ghost hb = hunks@;
                    hunks.push(Hunk {
                        old_start: old_range_start,
                        old_lines: old_line - old_range_start + context_size,
                        new_start: new_range_start,
                        new_lines: new_line - new_range_start + context_size,
                        lines,
                    });
                    assert(hunk_views(hunks@) =~= hunk_views(hb).push(hunk_view(hunks@[hb.len() as int])));
                    assert(hunk_view(hunks@[hb.len() as int]) == (HunkView {
                        old_start: st.ors,
                        old_lines: st.ol - st.ors + context_size,
                        new_start: st.nrs,
                        new_lines: st.nl - st.nrs + context_size,
                        lines: cur0 + lead_all(' ', el.take(context_size as int)),
                    }));
                    assert(seqs_of(cur_range@) =~= Seq::<Seq<char>>::empty());
                    old_range_start = 0;
                    new_range_start = 0;
                }
            }
            old_line += n_lines;
            new_line += n_lines;
        }
        proof {
            let nst = hunk_step(st, ev, i as int, ctx);
            assert(nst.hunks =~= hunk_views(hunks@));
            assert(nst.cur =~= seqs_of(cur_range@));
            assert(nst.ors == old_range_start as int);
            assert(nst.nrs == new_range_start as int);
            assert(nst.ol == old_line as int);
            assert(nst.nl == new_line as int);
            assert(hunk_fold(ev, i + 1, ctx) == nst);
        }
        i += 1;
    }

    let ghost built = hunk_views(hunks@);
    assert(built == hunk_fold(ev, total as int, ctx).hunks);
    let mut out: Vec<Hunk> = Vec::new();
    let mut h: usize = 0;
    while h < hunks.len()
        invariant
            h <= hunks@.len(),
            out@.len() == h,
            built == hunk_views(hunks@),
            forall|g: int| 0 <= g < hunks@.len() ==> (#[trigger] hunks@[g]).old_start >= 1 && hunks@[g].new_start >= 1,
            forall|g: int| 0 <= g < out@.len() ==> (#[trigger] out@[g]).old_start >= 1 && out@[g].new_start >= 1,
            old@ == new@ ==> hunks@.len() == 0,
            forall|g: int| 0 <= g < h ==> #[trigger] hunk_view(out@[g]) == (HunkView {
                old_start: built[g].old_start,
                old_lines: built[g].old_lines,
                new_start: built[g].new_start,
                new_lines: built[g].new_lines,
                lines: patch_lines(built[g].lines),
            }),
        decreases hunks@.len() - h,
    {
        let lines = finish_lines(&hunks[h].lines);
        let ghost ob = out@;
        out.push(Hunk {
            old_start: hunks[h].old_start,
            old_lines: hunks[h].old_lines,
            new_start: hunks[h].new_start,
            new_lines: hunks[h].new_lines,
            lines,
        });
        assert(built[h as int] == hunk_view(hunks@[h as int]));
        assert forall|g: int| 0 <= g < h + 1 implies #[trigger] hunk_view(out@[g]) == (HunkView {
            old_start: built[g].old_start,
            old_lines: built[g].old_lines,
            new_start: built[g].new_start,
            new_lines: built[g].new_lines,
            lines: patch_lines(built[g].lines),
        }) by {
            if g < h {
                assert(out@[g] == ob[g]);
            }
        }
        h += 1;
    }
    assert(hunk_views(out@) =~= spec_hunks(diff@, ctx));
    Ok(out)
}

proof fn lemma_values_len_prefix(ch: Seq<Change>, k: int)
    requires
        0 < k <= ch.len(),
    ensures
        values_len(ch.take(k)) == values_len(ch.take(k - 1)) + ch[k - 1].value@.len(),
        values_len(ch.take(k)) <= values_len(ch),
    decreases ch.len(),
{
    assert(ch.take(k).drop_last() =~= ch.take(k - 1));
    if k < ch.len() {
        assert(ch.drop_last().take(k) =~= ch.take(k));
        assert(ch.drop_last().take(k - 1) =~= ch.take(k - 1));
        lemma_values_len_prefix(ch.drop_last(), k);
    } else {
        assert(ch.take(k) =~= ch);
    }
}

proof fn lemma_entry_lines_push(a: Seq<Entry>, b: Seq<Entry>, j: int)
    requires
        a.len() == j,
        b.len() == j + 1,
        forall|k: int| 0 <= k < j ==> a[k] == b[k],
    ensures
        entry_lines(b, j + 1) == entry_lines(a, j) + b[j].lines@.len(),
{
    lemma_entry_lines_same(a, b, j);
}

proof fn lemma_entry_lines_same(a: Seq<Entry>, b: Seq<Entry>, k: int)
    requires
        0 <= k <= a.len(),
        k <= b.len(),
        forall|i: int| 0 <= i < k ==> a[i] == b[i],
    ensures
        entry_lines(a, k) == entry_lines(b, k),
    decreases k,
{
    if k > 0 {
        lemma_entry_lines_same(a, b, k - 1);
    }
}


/// The underline between the `Index:` line and the file lines.
pub open spec fn underline() -> Seq<char> {
    Seq::new(67, |i: int| '=')
}

/// The header of a patch: each line followed by a newline.
pub open spec fn patch_header(old_name: Seq<char>, new_name: Seq<char>, headers: HeaderOptions) -> Seq<char> {
    let index = if headers == HeaderOptions::Include && old_name == new_name {
        "Index: "@ + old_name + seq!['\n']
    } else {
        Seq::<char>::empty()
    };
    let under = if headers == HeaderOptions::Include { underline() + seq!['\n'] } else { Seq::<char>::empty() };
    let files = if headers != HeaderOptions::Omit {
        "--- "@ + old_name + seq!['\n'] + "+++ "@ + new_name + seq!['\n']
    } else {
        Seq::<char>::empty()
    };
    index + under + files
}

fn push_line(out: &mut Vec<char>, line: &Vec<char>)
    ensures
        final(out)@ == old(out)@ + line@ + seq!['\n'],
{
    extend_chars(out, line);
    out.push('\n');
}

/// A hunk's `@@ -a,b +c,d @@` line (with its line feed); an empty side
/// reports the line before its start.
pub open spec fn hunk_header_line(h: HunkView) -> Seq<char> {
    let os = if h.old_lines == 0 { h.old_start - 1 } else { h.old_start };
    let ns = if h.new_lines == 0 { h.new_start - 1 } else { h.new_start };
    "@@ -"@ + crate::error::decimal_digits(os as nat) + seq![','] + crate::error::decimal_digits(h.old_lines as nat)
        + seq![' ', '+'] + crate::error::decimal_digits(ns as nat) + seq![','] + crate::error::decimal_digits(h.new_lines as nat)
        + " @@"@ + seq!['\n']
}

/// Lines, each followed by a line feed.
pub open spec fn lines_text(ls: Seq<Seq<char>>) -> Seq<char>
    decreases ls.len(),
{
    if ls.len() == 0 { Seq::empty() } else { lines_text(ls.drop_last()) + ls.last() + seq!['\n'] }
}

/// The hunks as patch text.
pub open spec fn hunks_text(hs: Seq<HunkView>) -> Seq<char>
    decreases hs.len(),
{
    if hs.len() == 0 { Seq::empty() } else { hunks_text(hs.drop_last()) + hunk_header_line(hs.last()) + lines_text(hs.last().lines) }
}

/// A whole patch: the header and the hunks; a patch that would be empty
/// is a single line feed.
pub open spec fn patch_text(header: Seq<char>, hs: Seq<HunkView>) -> Seq<char> {
    let t = header + hunks_text(hs);
    if t.len() == 0 { seq!['\n'] } else { t }
}

/// Appends a hunk's `@@` line and its lines, each with a line feed.
fn push_hunk(out: &mut Vec<char>, hk: &Hunk)
    requires
        hk.old_start >= 1,
        hk.new_start >= 1,
    ensures
        final(out)@ == old(out)@ + hunk_header_line(hunk_view(*hk)) + lines_text(seqs_of(hk.lines@)),
{
    let ghost start = out@;
    let old_start = if hk.old_lines == 0 { hk.old_start - 1 } else { hk.old_start };
    let new_start = if hk.new_lines == 0 { hk.new_start - 1 } else { hk.new_start };
    let mut line = chars_of("@@ -");
    push_unsigned(&mut line, old_start as u64);
    line.push(',');
    push_unsigned(&mut line, hk.old_lines as u64);
    line.push(' ');
    line.push('+');
    push_unsigned(&mut line, new_start as u64);
    line.push(',');
    push_unsigned(&mut line, hk.new_lines as u64);
    extend_chars(&mut line, &chars_of(" @@"));
    proof {
        reveal_strlit("@@ -");
        reveal_strlit(" @@");
    }
    assert(line@ + seq!['\n'] =~= hunk_header_line(hunk_view(*hk)));
    push_line(out, &line);
    let ghost after_head = out@;
    let ghost hl = seqs_of(hk.lines@);
    assert(lines_text(hl.take(0)) =~= Seq::<char>::empty());
    assert(out@ =~= after_head + lines_text(hl.take(0)));
    let mut k: usize = 0;
    while k < hk.lines.len()
        invariant
            k <= hk.lines@.len(),
            hl == seqs_of(hk.lines@),
            out@ == after_head + lines_text(hl.take(k as int)),
            after_head == start + hunk_header_line(hunk_view(*hk)),
        decreases hk.lines@.len() - k,
    {
        push_line(out, &hk.lines[k]);
        assert(hl.take(k + 1).drop_last() =~= hl.take(k as int));
        assert(out@ =~= after_head + lines_text(hl.take(k + 1)));
        k += 1;
    }
    assert(hl.take(hl.len() as int) =~= hl);
}

/// `createTwoFilesPatch(oldName, newName, oldStr, newStr, undefined,
/// undefined, { context, headerOptions })`: a unified patch whose lines
/// each end with a newline, opening with the requested header lines.
#[verifier::spinoff_prover]
#[verifier::rlimit(40)]
pub fn create_two_files_patch(
    old_file_name: &str,
    new_file_name: &str,
    old_str: &str,
    new_str: &str,
    context: usize,
    headers: HeaderOptions,
) -> (r: Result<String, JsDiffError>)
    requires
        old_str@.len() + new_str@.len() <= isize::MAX / 4,
    ensures
        r is Ok,
        r matches Ok(p) ==> exists|ch: Seq<Change>| #[trigger] is_line_diff(old_str@, new_str@, ch)
            && p@ == patch_text(patch_header(old_file_name@, new_file_name@, headers), spec_hunks(ch, context as int)),
        r matches Ok(p) ==> has_prefix(p@, patch_header(old_file_name@, new_file_name@, headers))
            && p@.len() > 0 && p@.last() == '\n',
        old_str@ == new_str@ ==> (r matches Ok(p) && p@ == (if patch_header(old_file_name@, new_file_name@, headers).len() == 0 {
            seq!['\n']
        } else {
            patch_header(old_file_name@, new_file_name@, headers)
        })),
{
    let hunks = match structured_patch_hunks(old_str, new_str, context) {
        Ok(h) => h,
        Err(e) => return Err(e),
    };
    let old_name = chars_of(old_file_name);
    let new_name = chars_of(new_file_name);
    let mut out: Vec<char> = Vec::new();
    let with_index = match headers { HeaderOptions::Include => true, _ => false };
    let omit = match headers { HeaderOptions::Omit => true, _ => false };
    proof {
        reveal_strlit("Index: ");
        reveal_strlit("--- ");
        reveal_strlit("+++ ");
    }
    if with_index && chars_eq(&old_name, &new_name) {
        let mut line = chars_of("Index: ");
        extend_chars(&mut line, &old_name);
        push_line(&mut out, &line);
        assert(out@.last() == '\n');
    }
    if with_index {
        let mut line: Vec<char> = Vec::new();
        let mut k: usize = 0;
        while k < 67
            invariant
                k <= 67,
                line@ == Seq::new(k as nat, |i: int| '='),
            decreases 67 - k,
        {
            line.push('=');
            assert(line@ =~= Seq::new((k + 1) as nat, |i: int| '='));
            k += 1;
        }
        assert(line@ =~= underline());
        push_line(&mut out, &line);
        assert(out@.last() == '\n');
    }
    if !omit {
        let mut line = chars_of("--- ");
        extend_chars(&mut line, &old_name);
        push_line(&mut out, &line);
        let mut line2 = chars_of("+++ ");
        extend_chars(&mut line2, &new_name);
        push_line(&mut out, &line2);
        assert(out@.last() == '\n');
    }
    let ghost header = out@;
    assert(header =~= patch_header(old_file_name@, new_file_name@, headers));
    assert(out@.take(header.len() as int) =~= header);
    let ghost hv = hunk_views(hunks@);
    assert(hunks_text(hv.take(0)) =~= Seq::<char>::empty());
    assert(out@ =~= header + hunks_text(hv.take(0)));
    let mut h: usize = 0;
    while h < hunks.len()
        invariant
            h <= hunks@.len(),
            hv == hunk_views(hunks@),
            out@ == header + hunks_text(hv.take(h as int)),
            has_prefix(out@, header),
            out@.len() > 0 ==> out@.last() == '\n',
            forall|g: int| 0 <= g < hunks@.len() ==> (#[trigger] hunks@[g]).old_start >= 1 && hunks@[g].new_start >= 1,
            old_str@ == new_str@ ==> hunks@.len() == 0 && out@ == header,
        decreases hunks@.len() - h,
    {
        let ghost start = out@;
        push_hunk(&mut out, &hunks[h]);
        assert(hv[h as int] == hunk_view(hunks@[h as int]));
        assert(hv.take(h + 1).drop_last() =~= hv.take(h as int));
        assert(out@ =~= header + hunks_text(hv.take(h + 1)));
        assert(out@.take(header.len() as int) =~= start.take(header.len() as int)) by {
            assert(start.take(header.len() as int) =~= header);
        }
        h += 1;
    }
    assert(hv.take(hv.len() as int) =~= hv);
    if out.len() == 0 {
        out.push('\n');
        assert(header.len() == 0);
        assert(out@.take(0) =~= header);
    }
    proof {
        let ch = choose|ch: Seq<Change>| #[trigger] is_line_diff(old_str@, new_str@, ch) && hv == spec_hunks(ch, context as int);
        assert(out@ == patch_text(header, spec_hunks(ch, context as int)));
    }
    Ok(string_of(out.as_slice()))
}

} // verus!
