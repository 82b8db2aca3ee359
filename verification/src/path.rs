//! POSIX path manipulation with Node's `path.posix` semantics.

use vstd::prelude::*;

use crate::text::{chars_eq, chars_of, copy_range, join_chars, join_with, seqs_of, split_chars, split_on, string_of};

verus! {

/// `.` as a path segment.
pub open spec fn dot() -> Seq<char> {
    seq!['.']
}

/// `..` as a path segment.
pub open spec fn dot_dot() -> Seq<char> {
    seq!['.', '.']
}

/// One step of segment resolution: empty and `.` segments vanish, `..`
/// cancels the previous real segment (or is kept when the path is
/// relative and there is nothing to cancel), anything else is pushed.
pub open spec fn norm_step(stack: Seq<Seq<char>>, part: Seq<char>, absolute: bool) -> Seq<Seq<char>> {
    if part.len() == 0 || part == dot() {
        stack
    } else if part == dot_dot() {
        if stack.len() > 0 && stack.last() != dot_dot() {
            stack.drop_last()
        } else if !absolute {
            stack.push(part)
        } else {
            stack
        }
    } else {
        stack.push(part)
    }
}

/// Segment resolution over a whole list of segments, left to right.
pub open spec fn norm_fold(parts: Seq<Seq<char>>, absolute: bool) -> Seq<Seq<char>>
    decreases parts.len(),
{
    if parts.len() == 0 {
        Seq::<Seq<char>>::empty()
    } else {
        norm_step(norm_fold(parts.drop_last(), absolute), parts.last(), absolute)
    }
}

/// Node `path.posix.normalize`.
pub open spec fn spec_normalize(p: Seq<char>) -> Seq<char> {
    if p.len() == 0 {
        dot()
    } else {
        let absolute = p[0] == '/';
        let trailing = p.len() > 1 && p.last() == '/';
        let res0 = join_with(norm_fold(split_on(p, '/'), absolute), '/');
        if res0.len() == 0 && absolute {
            seq!['/']
        } else {
            let res1 = if res0.len() == 0 { dot() } else { res0 };
            let res2 = if trailing && res1.last() != '/' { res1.push('/') } else { res1 };
            if absolute { seq!['/'] + res2 } else { res2 }
        }
    }
}

proof fn lemma_split_on_no_sep(s: Seq<char>, sep: char)
    ensures
        forall|i: int, j: int| 0 <= i < split_on(s, sep).len() && 0 <= j < split_on(s, sep)[i].len()
            ==> #[trigger] split_on(s, sep)[i][j] != sep,
    decreases s.len(),
{
    if s.len() > 0 {
        lemma_split_on_no_sep(s.drop_last(), sep);
        crate::text::lemma_split_on_nonempty(s.drop_last(), sep);
        let p = split_on(s.drop_last(), sep);
        let q = split_on(s, sep);
        assert forall|i: int, j: int| 0 <= i < q.len() && 0 <= j < q[i].len() implies #[trigger] q[i][j] != sep by {
            if s.last() == sep {
                if i < p.len() {
                    assert(q[i] == p[i]);
                }
            } else if i < p.len() - 1 {
                assert(q[i] == p[i]);
            } else {
                assert(q[i] == p.last().push(s.last()));
                if j < p.last().len() {
                    assert(q[i][j] == p[p.len() - 1][j]);
                }
            }
        }
    }
}

proof fn lemma_norm_fold_segments(parts: Seq<Seq<char>>, absolute: bool)
    requires
        forall|i: int, j: int| 0 <= i < parts.len() && 0 <= j < parts[i].len() ==> #[trigger] parts[i][j] != '/',
    ensures
        forall|k: int| 0 <= k < norm_fold(parts, absolute).len() ==> (#[trigger] norm_fold(parts, absolute)[k]).len() > 0
            && norm_fold(parts, absolute)[k][0] != '/',
    decreases parts.len(),
{
    if parts.len() > 0 {
        let init = parts.drop_last();
        assert forall|i: int, j: int| 0 <= i < init.len() && 0 <= j < init[i].len() implies #[trigger] init[i][j] != '/' by {
            assert(init[i] == parts[i]);
        }
        lemma_norm_fold_segments(init, absolute);
        let st = norm_fold(init, absolute);
        let part = parts.last();
        let r = norm_fold(parts, absolute);
        assert(r == norm_step(st, part, absolute));
        assert forall|k: int| 0 <= k < r.len() implies (#[trigger] r[k]).len() > 0 && r[k][0] != '/' by {
            if k < st.len() {
                assert(r[k] == st[k]);
            } else {
                assert(r[k] == part);
                assert(part.len() > 0);
                assert(parts[parts.len() - 1][0] != '/');
            }
        }
    }
}

proof fn lemma_join_with_first(parts: Seq<Seq<char>>, sep: char)
    requires
        parts.len() > 0,
        parts[0].len() > 0,
    ensures
        join_with(parts, sep).len() > 0,
        join_with(parts, sep)[0] == parts[0][0],
    decreases parts.len(),
{
    if parts.len() > 1 {
        lemma_join_with_first(parts.drop_last(), sep);
    }
}

/// A normalized path is never empty, and it starts with `/` exactly when
/// the path does.
pub proof fn law_normalize_keeps_root(p: Seq<char>)
    ensures
        spec_normalize(p).len() > 0,
        (spec_normalize(p)[0] == '/') == (p.len() > 0 && p[0] == '/'),
{
    if p.len() > 0 {
        let absolute = p[0] == '/';
        let parts = split_on(p, '/');
        lemma_split_on_no_sep(p, '/');
        lemma_norm_fold_segments(parts, absolute);
        let segs = norm_fold(parts, absolute);
        let res0 = join_with(segs, '/');
        if segs.len() > 0 {
            lemma_join_with_first(segs, '/');
            assert(res0[0] != '/');
        } else {
            assert(res0.len() == 0);
        }
    }
}

proof fn lemma_split_on_concat(a: Seq<char>, b: Seq<char>, sep: char)
    ensures
        split_on(a + seq![sep] + b, sep) == split_on(a, sep) + split_on(b, sep),
    decreases b.len(),
{
    let s = a + seq![sep] + b;
    if b.len() == 0 {
        assert(s.drop_last() =~= a);
        assert(split_on(a, sep) + split_on(b, sep) =~= split_on(a, sep).push(Seq::<char>::empty()));
    } else {
        lemma_split_on_concat(a, b.drop_last(), sep);
        assert(s.drop_last() =~= a + seq![sep] + b.drop_last());
        crate::text::lemma_split_on_nonempty(b.drop_last(), sep);
        let pa = split_on(a, sep);
        let pb = split_on(b.drop_last(), sep);
        if b.last() == sep {
            assert(split_on(s, sep) =~= (pa + pb).push(Seq::<char>::empty()));
            assert(split_on(b, sep) =~= pb.push(Seq::<char>::empty()));
            assert((pa + pb).push(Seq::<char>::empty()) =~= pa + pb.push(Seq::<char>::empty()));
        } else {
            let q = pa + pb;
            assert(split_on(s, sep) =~= q.update(q.len() - 1, q.last().push(b.last())));
            assert(split_on(b, sep) =~= pb.update(pb.len() - 1, pb.last().push(b.last())));
            assert(q.update(q.len() - 1, q.last().push(b.last())) =~= pa + pb.update(pb.len() - 1, pb.last().push(b.last())));
        }
    }
}

proof fn lemma_split_on_plain(s: Seq<char>, sep: char)
    requires
        forall|j: int| 0 <= j < s.len() ==> s[j] != sep,
    ensures
        split_on(s, sep) == seq![s],
    decreases s.len(),
{
    if s.len() > 0 {
        lemma_split_on_plain(s.drop_last(), sep);
        assert(s.drop_last().push(s.last()) =~= s);
        assert(split_on(s, sep) =~= seq![s]);
    } else {
        assert(s =~= Seq::<char>::empty());
    }
}

proof fn lemma_split_join(segs: Seq<Seq<char>>, sep: char)
    requires
        segs.len() > 0,
        forall|k: int, j: int| 0 <= k < segs.len() && 0 <= j < segs[k].len() ==> #[trigger] segs[k][j] != sep,
    ensures
        split_on(join_with(segs, sep), sep) == segs,
    decreases segs.len(),
{
    if segs.len() == 1 {
        assert forall|j: int| 0 <= j < segs[0].len() implies segs[0][j] != sep by {
            assert(segs[0][j] != sep);
        }
        lemma_split_on_plain(segs[0], sep);
        assert(segs =~= seq![segs[0]]);
    } else {
        let init = segs.drop_last();
        assert forall|k: int, j: int| 0 <= k < init.len() && 0 <= j < init[k].len() implies #[trigger] init[k][j] != sep by {
            assert(init[k] == segs[k]);
        }
        lemma_split_join(init, sep);
        let last = segs.last();
        assert forall|j: int| 0 <= j < last.len() implies last[j] != sep by {
            assert(segs[segs.len() - 1][j] != sep);
        }
        lemma_split_on_plain(last, sep);
        lemma_split_on_concat(join_with(init, sep), last, sep);
        assert(init + seq![last] =~= segs);
    }
}

proof fn lemma_join_with_last(segs: Seq<Seq<char>>, sep: char)
    requires
        segs.len() > 0,
        segs.last().len() > 0,
    ensures
        join_with(segs, sep).len() > 0,
        join_with(segs, sep).last() == segs.last().last(),
{
}

/// Segment resolution from a given stack.
spec fn norm_fold_from(stack: Seq<Seq<char>>, parts: Seq<Seq<char>>, absolute: bool) -> Seq<Seq<char>>
    decreases parts.len(),
{
    if parts.len() == 0 {
        stack
    } else {
        norm_step(norm_fold_from(stack, parts.drop_last(), absolute), parts.last(), absolute)
    }
}

proof fn lemma_fold_from_empty(parts: Seq<Seq<char>>, absolute: bool)
    ensures
        norm_fold_from(Seq::<Seq<char>>::empty(), parts, absolute) == norm_fold(parts, absolute),
    decreases parts.len(),
{
    if parts.len() > 0 {
        lemma_fold_from_empty(parts.drop_last(), absolute);
    }
}

proof fn lemma_fold_from_concat(s: Seq<Seq<char>>, a: Seq<Seq<char>>, b: Seq<Seq<char>>, absolute: bool)
    ensures
        norm_fold_from(s, a + b, absolute) == norm_fold_from(norm_fold_from(s, a, absolute), b, absolute),
    decreases b.len(),
{
    if b.len() == 0 {
        assert(a + b =~= a);
    } else {
        lemma_fold_from_concat(s, a, b.drop_last(), absolute);
        assert((a + b).drop_last() =~= a + b.drop_last());
    }
}

/// Segments as resolution leaves them: no empty, `.` or `/`-holding
/// segment, and `..` only in a leading run of a relative path.
spec fn normal_segs(segs: Seq<Seq<char>>, absolute: bool) -> bool {
    forall|k: int| 0 <= k < segs.len() ==> {
        &&& (#[trigger] segs[k]).len() > 0
        &&& segs[k] != dot()
        &&& forall|j: int| 0 <= j < segs[k].len() ==> segs[k][j] != '/'
        &&& segs[k] == dot_dot() ==> !absolute && forall|i: int| 0 <= i < k ==> segs[i] == dot_dot()
    }
}

proof fn lemma_norm_fold_normal(parts: Seq<Seq<char>>, absolute: bool)
    requires
        forall|i: int, j: int| 0 <= i < parts.len() && 0 <= j < parts[i].len() ==> #[trigger] parts[i][j] != '/',
    ensures
        normal_segs(norm_fold(parts, absolute), absolute),
    decreases parts.len(),
{
    if parts.len() > 0 {
        let init = parts.drop_last();
        assert forall|i: int, j: int| 0 <= i < init.len() && 0 <= j < init[i].len() implies #[trigger] init[i][j] != '/' by {
            assert(init[i] == parts[i]);
        }
        lemma_norm_fold_normal(init, absolute);
        let st = norm_fold(init, absolute);
        let part = parts.last();
        let r = norm_fold(parts, absolute);
        assert forall|j: int| 0 <= j < part.len() implies part[j] != '/' by {
            assert(parts[parts.len() - 1][j] != '/');
        }
        if part.len() == 0 || part == dot() {
        } else if part == dot_dot() {
            if st.len() > 0 && st.last() != dot_dot() {
                assert forall|k: int| 0 <= k < r.len() implies st[k] == #[trigger] r[k] by {}
            } else if !absolute {
                assert forall|k: int| 0 <= k < st.len() implies #[trigger] st[k] == dot_dot() by {
                    assert(st[st.len() - 1] == dot_dot());
                }
                assert forall|k: int| 0 <= k < r.len() implies {
                    &&& (#[trigger] r[k]).len() > 0
                    &&& r[k] != dot()
                    &&& forall|j: int| 0 <= j < r[k].len() ==> r[k][j] != '/'
                    &&& r[k] == dot_dot() ==> !absolute && forall|i: int| 0 <= i < k ==> r[i] == dot_dot()
                } by {
                    if k < st.len() {
                        assert(r[k] == st[k]);
                        assert forall|i: int| 0 <= i < k implies r[i] == dot_dot() by {
                            assert(r[i] == st[i]);
                        }
                    } else {
                        assert(r[k] == dot_dot());
                        assert(dot_dot() != dot());
                        assert forall|i: int| 0 <= i < k implies r[i] == dot_dot() by {
                            assert(r[i] == st[i]);
                        }
                    }
                }
            }
        } else {
            assert forall|k: int| 0 <= k < r.len() implies {
                &&& (#[trigger] r[k]).len() > 0
                &&& r[k] != dot()
                &&& forall|j: int| 0 <= j < r[k].len() ==> r[k][j] != '/'
                &&& r[k] == dot_dot() ==> !absolute && forall|i: int| 0 <= i < k ==> r[i] == dot_dot()
            } by {
                if k < st.len() {
                    assert(r[k] == st[k]);
                    assert forall|i: int| 0 <= i < k implies r[i] == st[i] by {}
                } else {
                    assert(r[k] == part);
                }
            }
        }
    }
}

proof fn lemma_norm_fold_fixed(segs: Seq<Seq<char>>, absolute: bool)
    requires
        normal_segs(segs, absolute),
    ensures
        norm_fold(segs, absolute) == segs,
    decreases segs.len(),
{
    if segs.len() > 0 {
        let init = segs.drop_last();
        assert(normal_segs(init, absolute)) by {
            assert forall|k: int| 0 <= k < init.len() implies #[trigger] init[k] == segs[k] by {}
            assert forall|k: int| 0 <= k < init.len() implies {
                &&& (#[trigger] init[k]).len() > 0
                &&& init[k] != dot()
                &&& forall|j: int| 0 <= j < init[k].len() ==> init[k][j] != '/'
                &&& init[k] == dot_dot() ==> !absolute && forall|i: int| 0 <= i < k ==> init[i] == dot_dot()
            } by {
                assert(init[k] == segs[k]);
                assert forall|i: int| 0 <= i < k implies init[i] == segs[i] by {}
            }
        }
        lemma_norm_fold_fixed(init, absolute);
        let last = segs.last();
        assert(last.len() > 0 && last != dot());
        if last == dot_dot() {
            if init.len() > 0 {
                assert(init.last() == dot_dot());
            }
        }
        assert(init.push(last) =~= segs);
    }
}

proof fn lemma_fold_single_vanishes(e: Seq<char>, absolute: bool)
    requires
        e.len() == 0 || e == dot(),
    ensures
        norm_fold(seq![e], absolute) == Seq::<Seq<char>>::empty(),
{
    let one = seq![e];
    assert(one.drop_last() =~= Seq::<Seq<char>>::empty());
    assert(one.last() == e);
    assert(norm_fold(one.drop_last(), absolute) == Seq::<Seq<char>>::empty());
    assert(norm_fold(one, absolute) == norm_step(norm_fold(one.drop_last(), absolute), e, absolute));
}

proof fn lemma_fold_drops_lead(e: Seq<char>, x: Seq<Seq<char>>, absolute: bool)
    requires
        e.len() == 0 || e == dot(),
    ensures
        norm_fold(seq![e] + x, absolute) == norm_fold(x, absolute),
{
    lemma_fold_from_empty(seq![e] + x, absolute);
    lemma_fold_from_concat(Seq::<Seq<char>>::empty(), seq![e], x, absolute);
    lemma_fold_from_empty(seq![e], absolute);
    lemma_fold_single_vanishes(e, absolute);
    lemma_fold_from_empty(x, absolute);
}

proof fn lemma_fold_drops_tail(x: Seq<Seq<char>>, absolute: bool)
    ensures
        norm_fold(x.push(Seq::<char>::empty()), absolute) == norm_fold(x, absolute),
{
    assert(x.push(Seq::<char>::empty()).drop_last() =~= x);
}

/// Normalizing a normalized path changes nothing.
pub proof fn law_normalize_idempotent(p: Seq<char>)
    ensures
        spec_normalize(spec_normalize(p)) == spec_normalize(p),
{
    let q = spec_normalize(p);
    law_normalize_keeps_root(p);
    if p.len() == 0 {
        assert(split_on(dot(), '/') =~= seq![dot()]) by {
            lemma_split_on_plain(dot(), '/');
        }
        lemma_fold_single_vanishes(dot(), false);
    } else {
        let absolute = p[0] == '/';
        let trailing = p.len() > 1 && p.last() == '/';
        let parts = split_on(p, '/');
        lemma_split_on_no_sep(p, '/');
        lemma_norm_fold_normal(parts, absolute);
        let segs = norm_fold(parts, absolute);
        let res0 = join_with(segs, '/');
        assert forall|k: int, j: int| 0 <= k < segs.len() && 0 <= j < segs[k].len() implies #[trigger] segs[k][j] != '/' by {
            assert(segs[k][j] != '/');
        }
        if segs.len() > 0 {
            lemma_join_with_first(segs, '/');
            lemma_join_with_last(segs, '/');
            lemma_split_join(segs, '/');
            assert(segs.last().last() != '/') by {
                assert(segs[segs.len() - 1][segs[segs.len() - 1].len() - 1] != '/');
            }
        } else {
            assert(res0.len() == 0);
        }
        if res0.len() == 0 && absolute {
            assert(q =~= seq!['/']);
            let e = Seq::<char>::empty();
            lemma_split_on_concat(e, e, '/');
            assert(e + seq!['/'] + e =~= q);
            assert(split_on(e, '/') =~= seq![e]);
            lemma_fold_drops_tail(seq![e], true);
            lemma_fold_drops_lead(e, Seq::<Seq<char>>::empty(), true);
            assert(seq![e] + Seq::<Seq<char>>::empty() =~= seq![e]);
            assert(seq![e].push(e) =~= seq![e] + seq![e]);
        } else {
            let res1 = if res0.len() == 0 { dot() } else { res0 };
            let res2 = if trailing && res1.last() != '/' { res1.push('/') } else { res1 };
            // What the pieces of `res1` split into and resolve to.
            let pieces = if res0.len() == 0 { seq![dot()] } else { segs };
            assert(split_on(res1, '/') == pieces) by {
                if res0.len() == 0 {
                    lemma_split_on_plain(dot(), '/');
                }
            }
            assert(norm_fold(pieces, absolute) == segs) by {
                if res0.len() == 0 {
                    lemma_fold_single_vanishes(dot(), absolute);
                } else {
                    lemma_norm_fold_fixed(segs, absolute);
                }
            }
            assert(res1.len() > 0 && res1.last() != '/');
            assert(res2 == if trailing { res1.push('/') } else { res1 });
            let e = Seq::<char>::empty();
            let split2 = if trailing { pieces.push(e) } else { pieces };
            assert(split_on(res2, '/') == split2) by {
                if trailing {
                    lemma_split_on_concat(res1, e, '/');
                    assert(res1 + seq!['/'] + e =~= res1.push('/'));
                    assert(split_on(e, '/') =~= seq![e]);
                    assert(pieces + seq![e] =~= pieces.push(e));
                }
            }
            assert(norm_fold(split2, absolute) == segs) by {
                if trailing {
                    lemma_fold_drops_tail(pieces, absolute);
                }
            }
            if absolute {
                assert(q == seq!['/'] + res2);
                lemma_split_on_concat(e, res2, '/');
                assert(e + seq!['/'] + res2 =~= q);
                assert(split_on(e, '/') =~= seq![e]);
                lemma_fold_drops_lead(e, split2, true);
                assert(q.len() > 1);
                assert(q.last() == res2.last());
            } else {
                assert(q == res2);
            }
            assert(trailing ==> q.len() > 1 && q.last() == '/');
            assert(q.last() == '/' ==> trailing);
        }
    }
}

fn is_dot(v: &Vec<char>) -> (r: bool)
    ensures
        r == (v@ == dot()),
{
    let r = v.len() == 1 && v[0] == '.';
    proof {
        if v@.len() == 1 && v@[0] == '.' {
            assert(v@ =~= dot());
        }
    }
    r
}

fn is_dot_dot(v: &Vec<char>) -> (r: bool)
    ensures
        r == (v@ == dot_dot()),
{
    let r = v.len() == 2 && v[0] == '.' && v[1] == '.';
    proof {
        if v@.len() == 2 && v@[0] == '.' && v@[1] == '.' {
            assert(v@ =~= dot_dot());
        }
    }
    r
}

fn normalize_chars(p: &Vec<char>) -> (out: Vec<char>)
    ensures
        out@ == spec_normalize(p@),
{
    if p.len() == 0 {
        let mut out = Vec::new();
        out.push('.');
        assert(out@ =~= dot());
        return out;
    }
    let absolute = p[0] == '/';
    let trailing = p.len() > 1 && p[p.len() - 1] == '/';
    let parts = split_chars(p, '/');
    let mut stack: Vec<Vec<char>> = Vec::new();
    let mut i: usize = 0;
    assert(seqs_of(stack@) =~= norm_fold(seqs_of(parts@).take(0), absolute));
    while i < parts.len()
        invariant
            i <= parts@.len(),
            seqs_of(stack@) == norm_fold(seqs_of(parts@).take(i as int), absolute),
        decreases parts@.len() - i,
    {
        let ghost t = seqs_of(parts@).take(i + 1);
        assert(t.drop_last() =~= seqs_of(parts@).take(i as int));
        assert(t.last() == parts@[i as int]@);
        let ghost before = seqs_of(stack@);
        let part = &parts[i];
        if part.len() == 0 || is_dot(part) {
        } else if is_dot_dot(part) {
            let n = stack.len();
            if n > 0 && !is_dot_dot(&stack[n - 1]) {
                stack.pop();
                assert(seqs_of(stack@) =~= before.drop_last());
            } else if !absolute {
                stack.push(part.clone());
                assert(seqs_of(stack@) =~= before.push(part@));
            }
        } else {
            stack.push(part.clone());
            assert(seqs_of(stack@) =~= before.push(part@));
        }
        i += 1;
    }
    assert(seqs_of(parts@).take(parts@.len() as int) =~= seqs_of(parts@));
    let res0 = join_chars(&stack, '/');
    if res0.len() == 0 && absolute {
        let mut out = Vec::new();
        out.push('/');
        assert(out@ =~= seq!['/']);
        return out;
    }
    let mut res = if res0.len() == 0 {
        let mut d = Vec::new();
        d.push('.');
        assert(d@ =~= dot());
        d
    } else {
        res0
    };
    if trailing && res[res.len() - 1] != '/' {
        res.push('/');
    }
    if absolute {
        let mut out = Vec::new();
        out.push('/');
        let mut j: usize = 0;
        while j < res.len()
            invariant
                j <= res@.len(),
                out@ == seq!['/'] + res@.take(j as int),
            decreases res@.len() - j,
        {
            out.push(res[j]);
            assert(res@.take(j + 1) =~= res@.take(j as int).push(res@[j as int]));
            j += 1;
        }
        assert(res@.take(res@.len() as int) =~= res@);
        out
    } else {
        res
    }
}

/// Node `path.posix.normalize`: resolves `.` and `..` segments and
/// collapses repeated separators, keeping a leading and a trailing `/`.
pub fn normalize(path: &str) -> (out: String)
    ensures
        out@ == spec_normalize(path@),
{
    let p = chars_of(path);
    let out = normalize_chars(&p);
    string_of(out.as_slice())
}


/// The non-empty parts, in order.
pub open spec fn nonempty_parts(parts: Seq<Seq<char>>) -> Seq<Seq<char>>
    decreases parts.len(),
{
    if parts.len() == 0 {
        Seq::<Seq<char>>::empty()
    } else {
        let rest = nonempty_parts(parts.drop_last());
        if parts.last().len() > 0 { rest.push(parts.last()) } else { rest }
    }
}

/// The character sequences of a slice of strings.
pub open spec fn strings_view(parts: Seq<String>) -> Seq<Seq<char>> {
    Seq::new(parts.len(), |i: int| parts[i]@)
}

/// Node `path.posix.join`.
pub open spec fn spec_join(parts: Seq<Seq<char>>) -> Seq<char> {
    let kept = nonempty_parts(parts);
    if kept.len() == 0 { dot() } else { spec_normalize(join_with(kept, '/')) }
}

fn nonempty_chars(parts: &[String]) -> (out: Vec<Vec<char>>)
    ensures
        seqs_of(out@) == nonempty_parts(strings_view(parts@)),
{
    let mut out: Vec<Vec<char>> = Vec::new();
    let mut i: usize = 0;
    while i < parts.len()
        invariant
            i <= parts@.len(),
            seqs_of(out@) == nonempty_parts(strings_view(parts@).take(i as int)),
        decreases parts@.len() - i,
    {
        let ghost t = strings_view(parts@).take(i + 1);
        assert(t.drop_last() =~= strings_view(parts@).take(i as int));
        assert(t.last() == parts@[i as int]@);
        let c = chars_of(parts[i].as_str());
        if c.len() > 0 {
            let ghost before = seqs_of(out@);
            out.push(c);
            assert(seqs_of(out@) =~= before.push(t.last()));
        }
        i += 1;
    }
    assert(strings_view(parts@).take(parts@.len() as int) =~= strings_view(parts@));
    out
}

/// Node `path.posix.join`: the non-empty parts joined with `/`, then
/// normalized; `.` when there is nothing to join.
pub fn join(parts: &[String]) -> (out: String)
    ensures
        out@ == spec_join(strings_view(parts@)),
{
    let kept = nonempty_chars(parts);
    if kept.len() == 0 {
        return string_of(&['.']);
    }
    let joined = join_chars(&kept, '/');
    string_of(normalize_chars(&joined).as_slice())
}

/// Scan for the end of the directory part: walking down from `i`, the
/// first `/` seen after a non-separator character (index 0 excluded).
pub open spec fn dirname_end(s: Seq<char>, i: int, matched_slash: bool) -> Option<int>
    decreases i,
{
    if i <= 1 {
        None
    } else {
        let k = i - 1;
        if s[k] == '/' {
            if !matched_slash { Some(k) } else { dirname_end(s, k, matched_slash) }
        } else {
            dirname_end(s, k, false)
        }
    }
}

proof fn lemma_dirname_end_range(s: Seq<char>, i: int, m: bool)
    ensures
        dirname_end(s, i, m) matches Some(k) ==> 1 <= k < i,
    decreases i,
{
    if i > 1 {
        lemma_dirname_end_range(s, i - 1, m);
        lemma_dirname_end_range(s, i - 1, false);
    }
}

proof fn lemma_dirname_end_slash(s: Seq<char>, i: int, m: bool)
    requires
        i <= s.len(),
    ensures
        dirname_end(s, i, m) matches Some(k) ==> 1 <= k < i && s[k] == '/',
    decreases i,
{
    if i > 1 {
        lemma_dirname_end_slash(s, i - 1, m);
        lemma_dirname_end_slash(s, i - 1, false);
    }
}

/// The parent of an absolute path, when it differs from the path, is a
/// proper prefix of it.
pub proof fn law_dirname_is_prefix(s: Seq<char>)
    requires
        s.len() > 0,
        s[0] == '/',
        spec_dirname(s) != s,
    ensures
        spec_dirname(s).len() < s.len(),
        s.take(spec_dirname(s).len() as int) == spec_dirname(s),
{
    lemma_dirname_end_slash(s, s.len() as int, true);
    match dirname_end(s, s.len() as int, true) {
        None => {
            assert(s.take(1) =~= seq!['/']);
            if s.len() == 1 {
                assert(s =~= seq!['/']);
            }
        },
        Some(e) => {
            if e == 1 {
                assert(s.take(2) =~= seq!['/', '/']);
                if s.len() == 2 {
                    assert(s =~= seq!['/', '/']);
                }
            }
        },
    }
}

proof fn lemma_dirname_end_gap(s: Seq<char>, i: int)
    ensures
        dirname_end(s, i, true) matches Some(k) ==> k + 2 <= i,
    decreases i,
{
    if i > 1 {
        let j = i - 1;
        if s[j] == '/' {
            lemma_dirname_end_gap(s, j);
        } else {
            lemma_dirname_end_range(s, j, false);
        }
    }
}

/// Unless it is a fixed point, the parent of a path is `.` or shorter
/// than the path.
pub proof fn lemma_dirname_shorter(s: Seq<char>)
    ensures
        spec_dirname(s) != s ==> (spec_dirname(s) == seq!['.'] || spec_dirname(s).len() < s.len()),
{
    if s.len() > 0 {
        lemma_dirname_end_range(s, s.len() as int, true);
        lemma_dirname_end_gap(s, s.len() as int);
        if s.len() == 1 && s[0] == '/' {
            assert(s =~= seq!['/']);
        }
    }
}

/// Node `path.posix.dirname`.
pub open spec fn spec_dirname(s: Seq<char>) -> Seq<char> {
    if s.len() == 0 {
        dot()
    } else {
        let has_root = s[0] == '/';
        match dirname_end(s, s.len() as int, true) {
            None => if has_root { seq!['/'] } else { dot() },
            Some(e) => if e == 1 && has_root { seq!['/', '/'] } else { s.take(e) },
        }
    }
}

fn dirname_chars(s: &Vec<char>) -> (out: Vec<char>)
    ensures
        out@ == spec_dirname(s@),
{
    if s.len() == 0 {
        return vec!['.'];
    }
    let has_root = s[0] == '/';
    let mut end: Option<usize> = None;
    let mut matched_slash = true;
    let mut i = s.len();
    while i > 1
        invariant_except_break
            dirname_end(s@, s@.len() as int, true) == dirname_end(s@, i as int, matched_slash),
            end is None,
        invariant
            1 <= i <= s@.len(),
        ensures
            end matches Some(k) ==> dirname_end(s@, s@.len() as int, true) == Some(k as int),
            end is None ==> dirname_end(s@, s@.len() as int, true) is None,
        decreases i,
    {
        i -= 1;
        if s[i] == '/' {
            if !matched_slash {
                end = Some(i);
                break;
            }
        } else {
            matched_slash = false;
        }
    }
    let ghost e = dirname_end(s@, s@.len() as int, true);
    proof {
        lemma_dirname_end_range(s@, s@.len() as int, true);
    }
    assert(end matches Some(k) ==> e == Some(k as int));
    assert(end is None ==> e is None);
    match end {
        None => {
            if has_root {
                vec!['/']
            } else {
                vec!['.']
            }
        },
        Some(k) => {
            if k == 1 && has_root {
                vec!['/', '/']
            } else {
                let mut out = Vec::new();
                let mut j: usize = 0;
                while j < k
                    invariant
                        k <= s@.len(),
                        j <= k,
                        out@ == s@.take(j as int),
                    decreases k - j,
                {
                    out.push(s[j]);
                    assert(s@.take(j + 1) =~= s@.take(j as int).push(s@[j as int]));
                    j += 1;
                }
                out
            }
        },
    }
}

/// Node `path.posix.dirname`: everything before the last separator that
/// precedes a final non-separator run; `/` or `.` when there is none.
pub fn dirname(path: &str) -> (out: String)
    ensures
        out@ == spec_dirname(path@),
{
    let p = chars_of(path);
    let out = dirname_chars(&p);
    proof {
        assert(seq!['.'] == dot());
    }
    string_of(out.as_slice())
}


/// Scan for the last path component: walking down from `i`, `end` is the
/// index after the last non-separator character and the start is the
/// index after the separator that precedes it.
pub open spec fn base_scan(s: Seq<char>, i: int, end: Option<int>, matched_slash: bool) -> (int, Option<int>)
    decreases i,
{
    if i <= 0 {
        (0, end)
    } else {
        let k = i - 1;
        if s[k] == '/' {
            if !matched_slash { (k + 1, end) } else { base_scan(s, k, end, matched_slash) }
        } else if end is None {
            base_scan(s, k, Some(k + 1), false)
        } else {
            base_scan(s, k, end, matched_slash)
        }
    }
}

/// `s` ends with `suffix`.
pub open spec fn ends_with(s: Seq<char>, suffix: Seq<char>) -> bool {
    suffix.len() <= s.len() && s.skip(s.len() - suffix.len()) == suffix
}

/// Node `path.posix.basename`, with the optional suffix removed unless it
/// is the whole name.
pub open spec fn spec_basename(s: Seq<char>, suffix: Option<Seq<char>>) -> Seq<char> {
    let (start, end) = base_scan(s, s.len() as int, None, true);
    match end {
        None => Seq::<char>::empty(),
        Some(e) => {
            let res = s.subrange(start, e);
            match suffix {
                Some(sfx) => if res != sfx && ends_with(res, sfx) {
                    res.take(res.len() - sfx.len())
                } else {
                    res
                },
                None => res,
            }
        },
    }
}

proof fn lemma_base_scan_range(s: Seq<char>, i: int, end: Option<int>, m: bool)
    requires
        0 <= i <= s.len(),
        end matches Some(e) ==> i <= e <= s.len(),
        end is None ==> m,
    ensures
        ({
            let (st, en) = base_scan(s, i, end, m);
            &&& 0 <= st
            &&& (en matches Some(e) ==> st <= e <= s.len())
            &&& (end is Some ==> en == end)
        }),
    decreases i,
{
    if i > 0 {
        let k = i - 1;
        if s[k] == '/' {
            if m {
                lemma_base_scan_range(s, k, end, m);
            }
        } else if end is None {
            lemma_base_scan_range(s, k, Some(k + 1), false);
        } else {
            lemma_base_scan_range(s, k, end, m);
        }
    }
}

fn ends_with_chars(s: &Vec<char>, suffix: &Vec<char>) -> (r: bool)
    ensures
        r == ends_with(s@, suffix@),
{
    if suffix.len() > s.len() {
        return false;
    }
    let off = s.len() - suffix.len();
    let mut i: usize = 0;
    while i < suffix.len()
        invariant
            off + suffix@.len() == s@.len(),
            s@.len() <= usize::MAX,
            i <= suffix@.len(),
            forall|k: int| 0 <= k < i ==> s@[off + k] == suffix@[k],
        decreases suffix@.len() - i,
    {
        if s[off + i] != suffix[i] {
            assert(s@.skip(off as int)[i as int] != suffix@[i as int]);
            return false;
        }
        i += 1;
    }
    assert(s@.skip(off as int) =~= suffix@);
    true
}

fn basename_chars(s: &Vec<char>, suffix: Option<&Vec<char>>) -> (out: Vec<char>)
    ensures
        out@ == spec_basename(s@, match suffix { Some(x) => Some(x@), None => None }),
{
    let mut start: usize = 0;
    let mut end: Option<usize> = None;
    let mut matched_slash = true;
    let mut i = s.len();
    proof {
        lemma_base_scan_range(s@, s@.len() as int, None, true);
    }
    while i > 0
        invariant_except_break
            base_scan(s@, s@.len() as int, None, true) == base_scan(
                s@,
                i as int,
                match end { Some(e) => Some(e as int), None => None },
                matched_slash,
            ),
            start == 0,
        invariant
            i <= s@.len(),
            end matches Some(e) ==> i <= e <= s@.len(),
            end is None ==> matched_slash,
        ensures
            base_scan(s@, s@.len() as int, None, true) == (
                start as int,
                match end { Some(e) => Some(e as int), None => None },
            ),
        decreases i,
    {
        i -= 1;
        if s[i] == '/' {
            if !matched_slash {
                start = i + 1;
                break;
            }
        } else if end.is_none() {
            matched_slash = false;
            end = Some(i + 1);
        }
    }
    let e = match end {
        None => {
            return Vec::new();
        },
        Some(e) => e,
    };
    proof {
        lemma_base_scan_range(s@, s@.len() as int, None, true);
    }
    let res = copy_range(s, start, e);
    match suffix {
        Some(sfx) => {
            if !chars_eq(&res, sfx) && ends_with_chars(&res, sfx) {
                let n = res.len() - sfx.len();
                let out = copy_range(&res, 0, n);
                assert(out@ =~= res@.take(n as int));
                out
            } else {
                res
            }
        },
        None => res,
    }
}

/// Node `path.posix.basename`: the last non-empty component, with
/// `suffix` removed from its end unless it is the whole component.
pub fn basename(path: &str, suffix: Option<&str>) -> (out: String)
    ensures
        out@ == spec_basename(path@, match suffix { Some(x) => Some(x@), None => None }),
{
    let p = chars_of(path);
    let out = match suffix {
        Some(x) => {
            let sx = chars_of(x);
            basename_chars(&p, Some(&sx))
        },
        None => basename_chars(&p, None),
    };
    string_of(out.as_slice())
}

/// The index of the last occurrence of `c` in `s`.
pub open spec fn last_index_of(s: Seq<char>, c: char) -> Option<int>
    decreases s.len(),
{
    if s.len() == 0 {
        None
    } else if s.last() == c {
        Some(s.len() - 1)
    } else {
        last_index_of(s.drop_last(), c)
    }
}

/// Node `path.posix.extname`: from the last `.` of the last component,
/// unless that dot starts the component (or the component is `..`).
pub open spec fn spec_extname(s: Seq<char>) -> Seq<char> {
    let base = spec_basename(s, None);
    if base == dot_dot() {
        Seq::<char>::empty()
    } else {
        match last_index_of(base, '.') {
            None => Seq::<char>::empty(),
            Some(i) => if i == 0 { Seq::<char>::empty() } else { base.skip(i) },
        }
    }
}

fn last_index_of_chars(s: &Vec<char>, c: char) -> (r: Option<usize>)
    ensures
        match r { Some(i) => last_index_of(s@, c) == Some(i as int) && i < s@.len(), None => last_index_of(s@, c) is None },
{
    let mut i = s.len();
    assert(s@.take(s@.len() as int) =~= s@);
    while i > 0
        invariant
            i <= s@.len(),
            last_index_of(s@, c) == last_index_of(s@.take(i as int), c),
        decreases i,
    {
        assert(s@.take(i as int).drop_last() =~= s@.take(i - 1));
        if s[i - 1] == c {
            return Some(i - 1);
        }
        i -= 1;
    }
    None
}

/// Node `path.posix.extname`: the extension of the last component,
/// including its dot, or the empty string.
pub fn extname(path: &str) -> (out: String)
    ensures
        out@ == spec_extname(path@),
{
    let p = chars_of(path);
    let base = basename_chars(&p, None);
    if is_dot_dot(&base) {
        return String::new();
    }
    match last_index_of_chars(&base, '.') {
        None => String::new(),
        Some(i) => {
            if i == 0 {
                String::new()
            } else {
                let out = copy_range(&base, i, base.len());
                assert(out@ =~= base@.skip(i as int));
                string_of(out.as_slice())
            }
        },
    }
}


/// The `k`-th candidate of `resolve`: the parts from right to left, then
/// the working directory.
pub open spec fn resolve_item(parts: Seq<Seq<char>>, cwd: Seq<char>, k: int) -> Seq<char> {
    if k < parts.len() { parts[parts.len() - 1 - k] } else { cwd }
}

/// The first `n` candidates prepended one by one (empty ones skipped)
/// until one is absolute.
pub open spec fn resolve_fold(parts: Seq<Seq<char>>, cwd: Seq<char>, n: int) -> (Seq<char>, bool)
    decreases n,
{
    if n <= 0 {
        (Seq::<char>::empty(), false)
    } else {
        let (r, a) = resolve_fold(parts, cwd, n - 1);
        let part = resolve_item(parts, cwd, n - 1);
        if a || part.len() == 0 { (r, a) } else { (part + seq!['/'] + r, part[0] == '/') }
    }
}

/// `s` without trailing separators, keeping at least one character.
pub open spec fn strip_trailing_slashes(s: Seq<char>) -> Seq<char>
    decreases s.len(),
{
    if s.len() > 1 && s.last() == '/' { strip_trailing_slashes(s.drop_last()) } else { s }
}

/// Node `path.posix.resolve` against the given working directory.
pub open spec fn spec_resolve(parts: Seq<Seq<char>>, cwd: Seq<char>) -> Seq<char> {
    let r = resolve_fold(parts, cwd, parts.len() + 1int).0;
    let n = strip_trailing_slashes(spec_normalize(r));
    if n.len() == 0 { dot() } else { n }
}

fn concat3(a: &Vec<char>, sep: char, b: &Vec<char>) -> (out: Vec<char>)
    ensures
        out@ == a@ + seq![sep] + b@,
{
    let mut out = a.clone();
    out.push(sep);
    let mut j: usize = 0;
    while j < b.len()
        invariant
            j <= b@.len(),
            out@ == a@ + seq![sep] + b@.take(j as int),
        decreases b@.len() - j,
    {
        out.push(b[j]);
        assert(b@.take(j + 1) =~= b@.take(j as int).push(b@[j as int]));
        j += 1;
    }
    assert(b@.take(b@.len() as int) =~= b@);
    out
}

fn resolve_chars(parts: &Vec<Vec<char>>, cwd: &Vec<char>) -> (out: Vec<char>)
    ensures
        out@ == spec_resolve(seqs_of(parts@), cwd@),
{
    let ghost ps = seqs_of(parts@);
    let mut resolved: Vec<char> = Vec::new();
    let mut absolute = false;
    let mut k: usize = 0;
    while k < parts.len()
        invariant
            k <= parts@.len(),
            (resolved@, absolute) == resolve_fold(ps, cwd@, k as int),
            ps == seqs_of(parts@),
        decreases parts@.len() - k,
    {
        let part = &parts[parts.len() - 1 - k];
        assert(part@ == resolve_item(ps, cwd@, k as int));
        if !absolute && part.len() > 0 {
            resolved = concat3(part, '/', &resolved);
            absolute = part[0] == '/';
        }
        k += 1;
    }
    assert(cwd@ == resolve_item(ps, cwd@, k as int));
    if !absolute && cwd.len() > 0 {
        resolved = concat3(cwd, '/', &resolved);
        absolute = cwd[0] == '/';
    }
    proof {
        lemma_resolve_fold_stable(ps, cwd@, k + 1, parts@.len() + 1int);
    }
    let mut norm = normalize_chars(&resolved);
    let ghost full = norm@;
    while norm.len() > 1 && norm[norm.len() - 1] == '/'
        invariant
            strip_trailing_slashes(full) == strip_trailing_slashes(norm@),
        decreases norm@.len(),
    {
        norm.pop();
    }
    if norm.len() == 0 {
        vec!['.']
    } else {
        norm
    }
}

proof fn lemma_resolve_fold_stable(parts: Seq<Seq<char>>, cwd: Seq<char>, n: int, m: int)
    requires
        n == m,
    ensures
        resolve_fold(parts, cwd, n) == resolve_fold(parts, cwd, m),
{
}

/// The character sequences of a slice of strings, as vectors.
fn chars_of_all(parts: &[String]) -> (out: Vec<Vec<char>>)
    ensures
        seqs_of(out@) == strings_view(parts@),
{
    let mut out: Vec<Vec<char>> = Vec::new();
    let mut i: usize = 0;
    while i < parts.len()
        invariant
            i <= parts@.len(),
            seqs_of(out@) == strings_view(parts@).take(i as int),
        decreases parts@.len() - i,
    {
        let ghost before = seqs_of(out@);
        let c = chars_of(parts[i].as_str());
        out.push(c);
        assert(seqs_of(out@) =~= before.push(c@));
        assert(seqs_of(out@) =~= strings_view(parts@).take(i + 1));
        i += 1;
    }
    assert(strings_view(parts@).take(parts@.len() as int) =~= strings_view(parts@));
    out
}

/// Node `path.posix.resolve`: the parts from right to left are prepended
/// until one is absolute (the working directory `cwd` last), and the
/// result is normalized without a trailing separator.
pub fn resolve(parts: &[String], cwd: &str) -> (out: String)
    ensures
        out@ == spec_resolve(strings_view(parts@), cwd@),
{
    let ps = chars_of_all(parts);
    let c = chars_of(cwd);
    string_of(resolve_chars(&ps, &c).as_slice())
}

/// An absolute path from its segments.
pub open spec fn rooted(segs: Seq<Seq<char>>) -> Seq<char> {
    if segs.len() == 0 { seq!['/'] } else { seq!['/'] + join_with(segs, '/') }
}

proof fn lemma_normalize_absolute(p: Seq<char>)
    requires
        p.len() > 0,
        p[0] == '/',
    ensures
        normal_segs(norm_fold(split_on(p, '/'), true), true),
        strip_trailing_slashes(spec_normalize(p)) == rooted(norm_fold(split_on(p, '/'), true)),
{
    let parts = split_on(p, '/');
    lemma_split_on_no_sep(p, '/');
    lemma_norm_fold_normal(parts, true);
    let segs = norm_fold(parts, true);
    let res0 = join_with(segs, '/');
    let trailing = p.len() > 1 && p.last() == '/';
    if segs.len() > 0 {
        lemma_join_with_first(segs, '/');
        lemma_join_with_last(segs, '/');
        assert(segs.last().last() != '/') by {
            assert(segs[segs.len() - 1][segs[segs.len() - 1].len() - 1] != '/');
        }
        let base = seq!['/'] + res0;
        assert(base.last() != '/');
        assert(strip_trailing_slashes(base) == base);
        if trailing {
            assert(spec_normalize(p) == base.push('/'));
            assert(base.push('/').drop_last() =~= base);
        } else {
            assert(spec_normalize(p) == base);
        }
    } else {
        assert(res0.len() == 0);
        assert(spec_normalize(p) == seq!['/']);
    }
}

proof fn lemma_resolve_fold_rooted(parts: Seq<Seq<char>>, cwd: Seq<char>, n: int)
    ensures
        resolve_fold(parts, cwd, n).1 ==> resolve_fold(parts, cwd, n).0.len() > 0 && resolve_fold(parts, cwd, n).0[0] == '/',
        (cwd.len() > 0 && cwd[0] == '/' && n == parts.len() + 1) ==> resolve_fold(parts, cwd, n).1,
        resolve_fold(parts, cwd, n).0.len() == 0 || resolve_fold(parts, cwd, n).0.last() == '/',
    decreases n,
{
    if n > 0 {
        lemma_resolve_fold_rooted(parts, cwd, n - 1);
    }
}

/// With an absolute working directory, `resolve` gives the rooted path of
/// the segments that resolution leaves.
proof fn lemma_resolve_rooted(parts: Seq<Seq<char>>, cwd: Seq<char>)
    requires
        cwd.len() > 0,
        cwd[0] == '/',
    ensures
        normal_segs(norm_fold(split_on(resolve_fold(parts, cwd, parts.len() + 1int).0, '/'), true), true),
        spec_resolve(parts, cwd) == rooted(norm_fold(split_on(resolve_fold(parts, cwd, parts.len() + 1int).0, '/'), true)),
{
    lemma_resolve_fold_rooted(parts, cwd, parts.len() + 1int);
    let r = resolve_fold(parts, cwd, parts.len() + 1int).0;
    lemma_normalize_absolute(r);
}

proof fn lemma_nonempty_parts_concat(a: Seq<Seq<char>>, b: Seq<Seq<char>>)
    ensures
        nonempty_parts(a + b) == nonempty_parts(a) + nonempty_parts(b),
    decreases b.len(),
{
    if b.len() == 0 {
        assert(a + b =~= a);
    } else {
        lemma_nonempty_parts_concat(a, b.drop_last());
        assert((a + b).drop_last() =~= a + b.drop_last());
        if b.last().len() > 0 {
            assert(nonempty_parts(a) + nonempty_parts(b) =~= (nonempty_parts(a) + nonempty_parts(b.drop_last())).push(b.last()));
        }
    }
}

proof fn lemma_nonempty_parts_all(a: Seq<Seq<char>>)
    requires
        forall|k: int| 0 <= k < a.len() ==> (#[trigger] a[k]).len() > 0,
    ensures
        nonempty_parts(a) == a,
    decreases a.len(),
{
    if a.len() > 0 {
        lemma_nonempty_parts_all(a.drop_last());
        assert(a.drop_last().push(a.last()) =~= a);
        assert(a[a.len() - 1].len() > 0);
    }
}

/// The segments of a rooted path are the ones it was made of.
proof fn lemma_segments_rooted(segs: Seq<Seq<char>>)
    requires
        normal_segs(segs, true),
    ensures
        segments(rooted(segs)) == segs,
{
    let e = Seq::<char>::empty();
    lemma_split_on_plain(e, '/');
    assert(nonempty_parts(seq![e]) =~= Seq::<Seq<char>>::empty()) by {
        assert(seq![e].drop_last() =~= Seq::<Seq<char>>::empty());
        assert(seq![e].last() == e);
        assert(nonempty_parts(seq![e].drop_last()) == Seq::<Seq<char>>::empty());
    }
    if segs.len() == 0 {
        lemma_split_on_concat(e, e, '/');
        assert(e + seq!['/'] + e =~= rooted(segs));
        lemma_nonempty_parts_concat(seq![e], seq![e]);
    } else {
        assert forall|k: int, j: int| 0 <= k < segs.len() && 0 <= j < segs[k].len() implies #[trigger] segs[k][j] != '/' by {
            assert(segs[k][j] != '/');
        }
        lemma_split_join(segs, '/');
        lemma_split_on_concat(e, join_with(segs, '/'), '/');
        assert(e + seq!['/'] + join_with(segs, '/') =~= rooted(segs));
        lemma_nonempty_parts_concat(seq![e], segs);
        assert forall|k: int| 0 <= k < segs.len() implies (#[trigger] segs[k]).len() > 0 by {}
        lemma_nonempty_parts_all(segs);
        assert(Seq::<Seq<char>>::empty() + segs =~= segs);
    }
}

/// Number of leading positions on which two segment lists agree.
pub open spec fn common_len(f: Seq<Seq<char>>, t: Seq<Seq<char>>) -> nat
    decreases f.len(),
{
    if f.len() == 0 || t.len() == 0 || f[0] != t[0] {
        0
    } else {
        1 + common_len(f.drop_first(), t.drop_first())
    }
}

proof fn lemma_common_len_bound(f: Seq<Seq<char>>, t: Seq<Seq<char>>)
    ensures
        common_len(f, t) <= f.len(),
        common_len(f, t) <= t.len(),
    decreases f.len(),
{
    if !(f.len() == 0 || t.len() == 0 || f[0] != t[0]) {
        lemma_common_len_bound(f.drop_first(), t.drop_first());
    }
}

/// The non-empty segments of a path.
pub open spec fn segments(p: Seq<char>) -> Seq<Seq<char>> {
    nonempty_parts(split_on(p, '/'))
}

/// Node `path.posix.relative`: `..` for each segment of `from` below the
/// common ancestor, then the rest of `to`; empty when both resolve to the
/// same path.
pub open spec fn spec_relative(from: Seq<char>, to: Seq<char>, cwd: Seq<char>) -> Seq<char> {
    let f0 = spec_resolve(seq![from], cwd);
    let t0 = spec_resolve(seq![to], cwd);
    if f0 == t0 {
        Seq::<char>::empty()
    } else {
        spec_climb(segments(f0), segments(t0))
    }
}

/// The way from the path with segments `f` to the one with segments `t`:
/// `..` for each segment of `f` past their common prefix, then the rest
/// of `t`, joined by `/`.
pub open spec fn spec_climb(f: Seq<Seq<char>>, t: Seq<Seq<char>>) -> Seq<char> {
    let c = common_len(f, t);
    join_with(Seq::new((f.len() - c) as nat, |i: int| dot_dot()) + t.skip(c as int), '/')
}

proof fn lemma_common_len_prefix(f: Seq<Seq<char>>, t: Seq<Seq<char>>)
    ensures
        f.take(common_len(f, t) as int) == t.take(common_len(f, t) as int),
    decreases f.len(),
{
    lemma_common_len_bound(f, t);
    if !(f.len() == 0 || t.len() == 0 || f[0] != t[0]) {
        lemma_common_len_prefix(f.drop_first(), t.drop_first());
        let c = common_len(f, t) as int;
        assert(f.take(c) =~= seq![f[0]] + f.drop_first().take(c - 1));
        assert(t.take(c) =~= seq![t[0]] + t.drop_first().take(c - 1));
    } else {
        assert(f.take(0) =~= t.take(0));
    }
}

/// `k` copies of `..`.
spec fn dot_dots(k: nat) -> Seq<Seq<char>> {
    Seq::new(k, |i: int| dot_dot())
}

proof fn lemma_fold_climbs(stack: Seq<Seq<char>>, k: nat)
    requires
        k <= stack.len(),
        forall|i: int| 0 <= i < stack.len() ==> #[trigger] stack[i] != dot_dot(),
    ensures
        norm_fold_from(stack, dot_dots(k), true) == stack.take(stack.len() - k),
    decreases k,
{
    if k == 0 {
        assert(stack.take(stack.len() as int) =~= stack);
    } else {
        lemma_fold_climbs(stack, (k - 1) as nat);
        assert(dot_dots(k).drop_last() =~= dot_dots((k - 1) as nat));
        assert(dot_dots(k).last() == dot_dot());
        let s = stack.take(stack.len() - (k - 1));
        assert(s.last() == stack[stack.len() - k]);
        assert(s.drop_last() =~= stack.take(stack.len() - k));
    }
}

proof fn lemma_fold_descends(stack: Seq<Seq<char>>, tail: Seq<Seq<char>>)
    requires
        normal_segs(tail, true),
    ensures
        norm_fold_from(stack, tail, true) == stack + tail,
    decreases tail.len(),
{
    if tail.len() == 0 {
        assert(stack + tail =~= stack);
    } else {
        let init = tail.drop_last();
        assert(normal_segs(init, true)) by {
            assert forall|k: int| 0 <= k < init.len() implies {
                &&& (#[trigger] init[k]).len() > 0
                &&& init[k] != dot()
                &&& forall|j: int| 0 <= j < init[k].len() ==> init[k][j] != '/'
                &&& init[k] == dot_dot() ==> !true && forall|i: int| 0 <= i < k ==> init[i] == dot_dot()
            } by {
                assert(init[k] == tail[k]);
            }
        }
        lemma_fold_descends(stack, init);
        let last = tail.last();
        assert(last.len() > 0 && last != dot() && last != dot_dot());
        assert((stack + init).push(last) =~= stack + tail);
    }
}

proof fn lemma_resolve_fold_pair(from: Seq<char>, rel: Seq<char>, cwd: Seq<char>)
    requires
        rel.len() > 0,
        rel[0] != '/',
        cwd.len() > 0,
    ensures
        resolve_fold(seq![from, rel], cwd, 3).0 == resolve_fold(seq![from], cwd, 2).0 + rel + seq!['/'],
        resolve_fold(seq![from, Seq::<char>::empty()], cwd, 3) == resolve_fold(seq![from], cwd, 2),
{
    let two = seq![from, rel];
    let one = seq![from];
    let e = Seq::<char>::empty();
    let twe = seq![from, e];
    assert(resolve_item(two, cwd, 0) == rel);
    assert(resolve_item(two, cwd, 1) == from);
    assert(resolve_item(two, cwd, 2) == cwd);
    assert(resolve_item(one, cwd, 0) == from);
    assert(resolve_item(one, cwd, 1) == cwd);
    assert(resolve_item(twe, cwd, 0) == e);
    assert(resolve_item(twe, cwd, 1) == from);
    assert(resolve_item(twe, cwd, 2) == cwd);
    let a0 = resolve_fold(one, cwd, 0);
    let a1 = resolve_fold(one, cwd, 1);
    let a2 = resolve_fold(one, cwd, 2);
    let b1 = resolve_fold(two, cwd, 1);
    let b2 = resolve_fold(two, cwd, 2);
    let b3 = resolve_fold(two, cwd, 3);
    assert(resolve_fold(two, cwd, 0) == (e, false));
    assert(resolve_fold(twe, cwd, 0) == (e, false));
    assert(a0 == (e, false));
    assert(b1 == (rel + seq!['/'] + e, false));
    assert(resolve_fold(twe, cwd, 1) == a0);
    assert(resolve_fold(twe, cwd, 2) == a1);
    if from.len() == 0 {
        assert(a1 == a0);
        assert(b2 == b1);
        assert(a2 == (cwd + seq!['/'] + e, cwd[0] == '/'));
        assert(b3.0 =~= a2.0 + rel + seq!['/']);
    } else {
        assert(a1 == (from + seq!['/'] + e, from[0] == '/'));
        assert(b2 == (from + seq!['/'] + b1.0, from[0] == '/'));
        if from[0] == '/' {
            assert(b3.0 =~= a2.0 + rel + seq!['/']);
        } else {
            assert(b3.0 =~= a2.0 + rel + seq!['/']);
        }
    }
}

/// With an absolute working directory, the way from `from` to `to` is
/// empty exactly when both resolve to the same path.
pub proof fn law_relative_empty_iff_same(from: Seq<char>, to: Seq<char>, cwd: Seq<char>)
    requires
        cwd.len() > 0,
        cwd[0] == '/',
    ensures
        (spec_relative(from, to, cwd).len() == 0) == (spec_resolve(seq![from], cwd) == spec_resolve(seq![to], cwd)),
{
    let f0 = spec_resolve(seq![from], cwd);
    let t0 = spec_resolve(seq![to], cwd);
    if f0 != t0 {
        lemma_resolve_rooted(seq![from], cwd);
        lemma_resolve_rooted(seq![to], cwd);
        let sf = norm_fold(split_on(resolve_fold(seq![from], cwd, 2).0, '/'), true);
        let st = norm_fold(split_on(resolve_fold(seq![to], cwd, 2).0, '/'), true);
        lemma_segments_rooted(sf);
        lemma_segments_rooted(st);
        lemma_common_len_bound(sf, st);
        lemma_common_len_prefix(sf, st);
        let c = common_len(sf, st) as int;
        let list = dot_dots((sf.len() - c) as nat) + st.skip(c);
        assert(Seq::new((sf.len() - c) as nat, |i: int| dot_dot()) == dot_dots((sf.len() - c) as nat));
        if sf.len() == c && st.len() == c {
            assert(sf =~= sf.take(c));
            assert(st =~= st.take(c));
        }
        assert(list.len() > 0);
        assert(list[0].len() > 0) by {
            if sf.len() > c {
                assert(list[0] == dot_dot());
            } else {
                assert(list[0] == st[c]);
            }
        }
        lemma_join_with_first(list, '/');
    }
}

/// With an absolute working directory, resolving the way from `from` to
/// `to` against `from` gives `to`.
pub proof fn law_resolve_relative_round_trip(from: Seq<char>, to: Seq<char>, cwd: Seq<char>)
    requires
        cwd.len() > 0,
        cwd[0] == '/',
    ensures
        spec_resolve(seq![from, spec_relative(from, to, cwd)], cwd) == spec_resolve(seq![to], cwd),
{
    let f0 = spec_resolve(seq![from], cwd);
    let t0 = spec_resolve(seq![to], cwd);
    let rel = spec_relative(from, to, cwd);
    let e = Seq::<char>::empty();
    if f0 == t0 {
        assert(rel == e);
        lemma_resolve_fold_pair(from, seq!['x'], cwd);
    } else {
        lemma_resolve_rooted(seq![from], cwd);
        lemma_resolve_rooted(seq![to], cwd);
        let rf = resolve_fold(seq![from], cwd, 2).0;
        let sf = norm_fold(split_on(rf, '/'), true);
        let st = norm_fold(split_on(resolve_fold(seq![to], cwd, 2).0, '/'), true);
        lemma_segments_rooted(sf);
        lemma_segments_rooted(st);
        lemma_common_len_bound(sf, st);
        lemma_common_len_prefix(sf, st);
        let c = common_len(sf, st) as int;
        let k = (sf.len() - c) as nat;
        let list = dot_dots(k) + st.skip(c);
        assert(Seq::new(k, |i: int| dot_dot()) == dot_dots(k));
        assert(rel == join_with(list, '/'));
        if sf.len() == c && st.len() == c {
            assert(sf =~= sf.take(c));
            assert(st =~= st.take(c));
        }
        assert(list.len() > 0);
        assert forall|i: int| 0 <= i < list.len() implies (#[trigger] list[i]).len() > 0 && (list[i] == dot_dot() || i >= k) by {
            if i < k {
                assert(list[i] == dot_dot());
            } else {
                assert(list[i] == st[c + i - k]);
            }
        }
        assert forall|i: int, j: int| 0 <= i < list.len() && 0 <= j < list[i].len() implies #[trigger] list[i][j] != '/' by {
            if i < k {
                assert(list[i] == dot_dot());
            } else {
                assert(list[i] == st[c + i - k]);
                assert(st[c + i - k][j] != '/');
            }
        }
        lemma_join_with_first(list, '/');
        assert(list[0][0] != '/') by {
            if k > 0 {
                assert(list[0] == dot_dot());
            } else {
                assert(list[0] == st[c]);
            }
        }
        lemma_split_join(list, '/');
        // The resolved text of `from` ends with `/`.
        lemma_resolve_fold_pair(from, rel, cwd);
        lemma_resolve_fold_rooted(seq![from], cwd, 2);
        assert(rf.len() > 0 && rf.last() == '/');
        let x = rf.drop_last();
        assert(x + seq!['/'] + e =~= rf);
        lemma_split_on_concat(x, e, '/');
        lemma_split_on_plain(e, '/');
        let r2 = resolve_fold(seq![from, rel], cwd, 3).0;
        assert(x + seq!['/'] + (rel + seq!['/']) =~= r2);
        lemma_split_on_concat(x, rel + seq!['/'], '/');
        assert(rel + seq!['/'] + e =~= rel + seq!['/']);
        lemma_split_on_concat(rel, e, '/');
        let px = split_on(x, '/');
        assert(split_on(rf, '/') =~= px.push(e));
        lemma_fold_drops_tail(px, true);
        assert(split_on(r2, '/') =~= (px + list).push(e));
        lemma_fold_drops_tail(px + list, true);
        lemma_fold_from_empty(px + list, true);
        lemma_fold_from_concat(Seq::<Seq<char>>::empty(), px, list, true);
        lemma_fold_from_empty(px, true);
        lemma_fold_from_concat(sf, dot_dots(k), st.skip(c), true);
        assert forall|i: int| 0 <= i < sf.len() implies #[trigger] sf[i] != dot_dot() by {
            assert(sf[i].len() > 0);
        }
        lemma_fold_climbs(sf, k);
        assert(normal_segs(st.skip(c), true)) by {
            assert forall|i: int| 0 <= i < st.skip(c).len() implies #[trigger] st.skip(c)[i] == st[c + i] by {}
        }
        lemma_fold_descends(sf.take(c), st.skip(c));
        assert(st.take(c) + st.skip(c) =~= st);
        lemma_resolve_rooted(seq![from, rel], cwd);
    }
}

fn segments_chars(p: &Vec<char>) -> (out: Vec<Vec<char>>)
    ensures
        seqs_of(out@) == segments(p@),
{
    let parts = split_chars(p, '/');
    let mut out: Vec<Vec<char>> = Vec::new();
    let mut i: usize = 0;
    while i < parts.len()
        invariant
            i <= parts@.len(),
            seqs_of(out@) == nonempty_parts(seqs_of(parts@).take(i as int)),
        decreases parts@.len() - i,
    {
        let ghost t = seqs_of(parts@).take(i + 1);
        assert(t.drop_last() =~= seqs_of(parts@).take(i as int));
        if parts[i].len() > 0 {
            let ghost before = seqs_of(out@);
            out.push(parts[i].clone());
            assert(seqs_of(out@) =~= before.push(t.last()));
        }
        i += 1;
    }
    assert(seqs_of(parts@).take(parts@.len() as int) =~= seqs_of(parts@));
    out
}

/// Node `path.posix.relative`: the path from `from` to `to`, both
/// resolved against `cwd`.
pub fn relative(from: &str, to: &str, cwd: &str) -> (out: String)
    ensures
        out@ == spec_relative(from@, to@, cwd@),
{
    let c = chars_of(cwd);
    let fv = vec![chars_of(from)];
    let tv = vec![chars_of(to)];
    assert(seqs_of(fv@) =~= seq![from@]);
    assert(seqs_of(tv@) =~= seq![to@]);
    let f0 = resolve_chars(&fv, &c);
    let t0 = resolve_chars(&tv, &c);
    if chars_eq(&f0, &t0) {
        return String::new();
    }
    let f = segments_chars(&f0);
    let t = segments_chars(&t0);
    climb(&f, &t)
}

/// The way from the path with segments `f` to the one with segments `t`.
pub fn climb(f: &Vec<Vec<char>>, t: &Vec<Vec<char>>) -> (out: String)
    ensures
        out@ == spec_climb(seqs_of(f@), seqs_of(t@)),
{
    let ghost fs = seqs_of(f@);
    let ghost ts = seqs_of(t@);
    let mut common: usize = 0;
    proof {
        lemma_common_len_bound(fs, ts);
        assert(fs.skip(0) =~= fs);
        assert(ts.skip(0) =~= ts);
    }
    while common < f.len() && common < t.len() && chars_eq(&f[common], &t[common])
        invariant
            common <= f@.len(),
            common <= t@.len(),
            fs == seqs_of(f@),
            ts == seqs_of(t@),
            common_len(fs, ts) == common + common_len(fs.skip(common as int), ts.skip(common as int)),
        decreases f@.len() - common,
    {
        assert(fs.skip(common as int).drop_first() =~= fs.skip(common + 1));
        assert(ts.skip(common as int).drop_first() =~= ts.skip(common + 1));
        common += 1;
    }
    let mut out: Vec<Vec<char>> = Vec::new();
    let mut k: usize = common;
    let ghost ups = Seq::new((fs.len() - common) as nat, |i: int| dot_dot());
    while k < f.len()
        invariant
            common <= k <= f@.len(),
            seqs_of(out@) == ups.take(k - common),
            ups == Seq::new((fs.len() - common) as nat, |i: int| dot_dot()),
            fs == seqs_of(f@),
        decreases f@.len() - k,
    {
        let ghost before = seqs_of(out@);
        let dd = vec!['.', '.'];
        assert(dd@ =~= dot_dot());
        out.push(dd);
        assert(seqs_of(out@) =~= before.push(dot_dot()));
        assert(seqs_of(out@) =~= ups.take(k + 1 - common));
        k += 1;
    }
    assert(ups.take(fs.len() - common) =~= ups);
    let mut j: usize = common;
    while j < t.len()
        invariant
            common <= j <= t@.len(),
            seqs_of(out@) == ups + ts.skip(common as int).take(j - common),
            ts == seqs_of(t@),
        decreases t@.len() - j,
    {
        let ghost before = seqs_of(out@);
        let seg = t[j].clone();
        out.push(seg);
        assert(seqs_of(out@) =~= before.push(ts[j as int]));
        assert(seqs_of(out@) =~= ups + ts.skip(common as int).take(j + 1 - common));
        j += 1;
    }
    assert(ts.skip(common as int).take(t@.len() - common) =~= ts.skip(common as int));
    string_of(join_chars(&out, '/').as_slice())
}

} // verus!
