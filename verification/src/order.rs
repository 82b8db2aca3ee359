//! Orderings of registrations: texts compared character by character
//! (the order of `str`), keys of a rank, a tie-breaking number and two
//! texts, and a stable sort of indices by key.

use vstd::prelude::*;

verus! {

/// `a` comes before `b` in the order of `str`: at the first differing
/// character, or `a` is a proper prefix of `b`.
pub open spec fn text_lt(a: Seq<char>, b: Seq<char>) -> bool
    decreases a.len(),
{
    if a.len() == 0 {
        b.len() > 0
    } else if b.len() == 0 {
        false
    } else if a[0] != b[0] {
        a[0] < b[0]
    } else {
        text_lt(a.drop_first(), b.drop_first())
    }
}

/// No text comes before itself, and of two texts at most one comes first.
pub proof fn lemma_text_lt_asymmetric(a: Seq<char>, b: Seq<char>)
    ensures
        !(text_lt(a, b) && text_lt(b, a)),
        !text_lt(a, a),
    decreases a.len(),
{
    if a.len() > 0 && b.len() > 0 && a[0] == b[0] {
        lemma_text_lt_asymmetric(a.drop_first(), b.drop_first());
    }
    if a.len() > 0 {
        lemma_text_lt_asymmetric(a.drop_first(), a.drop_first());
    }
}

/// Of two different texts one comes first.
pub proof fn lemma_text_lt_total(a: Seq<char>, b: Seq<char>)
    requires
        a != b,
    ensures
        text_lt(a, b) || text_lt(b, a),
    decreases a.len(),
{
    if a.len() > 0 && b.len() > 0 {
        if a[0] == b[0] {
            if a.drop_first() == b.drop_first() {
                assert(a =~= seq![a[0]] + a.drop_first());
                assert(b =~= seq![b[0]] + b.drop_first());
            }
            lemma_text_lt_total(a.drop_first(), b.drop_first());
        }
    } else if a.len() == 0 && b.len() == 0 {
        assert(a =~= b);
    }
}

/// The order of texts is transitive.
pub proof fn lemma_text_lt_transitive(a: Seq<char>, b: Seq<char>, c: Seq<char>)
    requires
        text_lt(a, b),
        text_lt(b, c),
    ensures
        text_lt(a, c),
    decreases a.len(),
{
    if a.len() > 0 && b.len() > 0 && c.len() > 0 && a[0] == b[0] && b[0] == c[0] {
        lemma_text_lt_transitive(a.drop_first(), b.drop_first(), c.drop_first());
    }
}

/// Whether `a` comes before `b` in the order of `str`.
pub fn text_less(a: &Vec<char>, b: &Vec<char>) -> (r: bool)
    ensures
        r == text_lt(a@, b@),
{
    let mut i: usize = 0;
    assert(a@.skip(0) =~= a@);
    assert(b@.skip(0) =~= b@);
    while i < a.len() && i < b.len() && a[i] == b[i]
        invariant
            i <= a@.len(),
            i <= b@.len(),
            text_lt(a@, b@) == text_lt(a@.skip(i as int), b@.skip(i as int)),
        decreases a@.len() - i,
    {
        assert(a@.skip(i as int).drop_first() =~= a@.skip(i + 1));
        assert(b@.skip(i as int).drop_first() =~= b@.skip(i + 1));
        i += 1;
    }
    if i == a.len() {
        i < b.len()
    } else if i == b.len() {
        false
    } else {
        a[i] < b[i]
    }
}

/// A sort key as plain values: a rank, a tie-breaking number, and two
/// texts, compared in that order.
pub type KeyView = (int, int, Seq<char>, Seq<char>);

/// A sort key.
pub struct SortKey {
    pub rank: i64,
    pub tie: u64,
    pub first: Vec<char>,
    pub second: Vec<char>,
}

/// The plain value of a sort key.
pub open spec fn key_view(k: SortKey) -> KeyView {
    (k.rank as int, k.tie as int, k.first@, k.second@)
}

/// The plain values of sort keys.
pub open spec fn keys_view(ks: Seq<SortKey>) -> Seq<KeyView> {
    Seq::new(ks.len(), |i: int| key_view(ks[i]))
}

/// `a` comes before `b`: by rank, then tie, then the first text, then the
/// second.
pub open spec fn key_lt(a: KeyView, b: KeyView) -> bool {
    ||| a.0 < b.0
    ||| a.0 == b.0 && a.1 < b.1
    ||| a.0 == b.0 && a.1 == b.1 && text_lt(a.2, b.2)
    ||| a.0 == b.0 && a.1 == b.1 && a.2 == b.2 && text_lt(a.3, b.3)
}

/// The order of keys is a strict total order.
pub proof fn lemma_key_lt_order(a: KeyView, b: KeyView, c: KeyView)
    ensures
        !(key_lt(a, b) && key_lt(b, a)),
        a != b ==> key_lt(a, b) || key_lt(b, a),
        key_lt(a, b) && key_lt(b, c) ==> key_lt(a, c),
{
    lemma_text_lt_asymmetric(a.2, b.2);
    lemma_text_lt_asymmetric(a.3, b.3);
    if a.2 != b.2 {
        lemma_text_lt_total(a.2, b.2);
    }
    if a.3 != b.3 {
        lemma_text_lt_total(a.3, b.3);
    }
    if a.0 == b.0 && a.1 == b.1 && a.2 == b.2 && a.3 == b.3 {
        assert(a == b);
    }
    if text_lt(a.2, b.2) && text_lt(b.2, c.2) {
        lemma_text_lt_transitive(a.2, b.2, c.2);
    }
    if text_lt(a.3, b.3) && text_lt(b.3, c.3) {
        lemma_text_lt_transitive(a.3, b.3, c.3);
    }
}

/// Index `x` comes before index `y`: by key, equal keys by position.
pub open spec fn index_before(keys: Seq<KeyView>, x: int, y: int) -> bool {
    key_lt(keys[x], keys[y]) || (keys[x] == keys[y] && x < y)
}

proof fn lemma_index_before_order(keys: Seq<KeyView>, x: int, y: int, z: int)
    ensures
        !(index_before(keys, x, y) && index_before(keys, y, x)),
        !index_before(keys, x, x),
        x != y ==> index_before(keys, x, y) || index_before(keys, y, x),
        index_before(keys, x, y) && index_before(keys, y, z) ==> index_before(keys, x, z),
{
    lemma_key_lt_order(keys[x], keys[y], keys[z]);
    lemma_key_lt_order(keys[x], keys[x], keys[x]);
    lemma_key_lt_order(keys[y], keys[x], keys[z]);
    lemma_key_lt_order(keys[x], keys[z], keys[y]);
}

/// `x` is one of the indices in `r`.
pub open spec fn holds_index(r: Seq<usize>, x: int) -> bool {
    exists|k: int| 0 <= k < r.len() && r[k] == x
}

/// `r` lists the indices below `n` each once, in the order of their keys
/// (equal keys in the order of their indices).
pub open spec fn sorted_indices_of(keys: Seq<KeyView>, n: int, r: Seq<usize>) -> bool {
    &&& r.len() == n
    &&& forall|k: int| 0 <= k < r.len() ==> r[k] < n
    &&& forall|x: int| 0 <= x < n ==> holds_index(r, x)
    &&& forall|i: int, j: int| 0 <= i < j < r.len() ==> index_before(keys, #[trigger] r[i] as int, #[trigger] r[j] as int)
}

/// The indices of `keys` in the order of their keys; a stable sort.
pub fn sort_indices(keys: &Vec<SortKey>) -> (r: Vec<usize>)
    ensures
        sorted_indices_of(keys_view(keys@), keys@.len() as int, r@),
{
    let ghost kv = keys_view(keys@);
    let mut out: Vec<usize> = Vec::new();
    let mut i: usize = 0;
    while i < keys.len()
        invariant
            i <= keys@.len(),
            kv == keys_view(keys@),
            out@.len() == i,
            forall|k: int| 0 <= k < out@.len() ==> out@[k] < i,
            forall|x: int| 0 <= x < i ==> holds_index(out@, x),
            forall|a: int, b: int| 0 <= a < b < out@.len() ==> index_before(kv, #[trigger] out@[a] as int, #[trigger] out@[b] as int),
        decreases keys@.len() - i,
    {
        let mut p: usize = 0;
        while p < out.len() && !key_less(&keys[i], &keys[out[p]])
            invariant
                p <= out@.len(),
                i < keys@.len(),
                kv == keys_view(keys@),
                out@.len() == i,
                forall|k: int| 0 <= k < out@.len() ==> out@[k] < i,
                forall|x: int| 0 <= x < i ==> holds_index(out@, x),
                forall|a: int, b: int| 0 <= a < b < out@.len() ==> index_before(kv, #[trigger] out@[a] as int, #[trigger] out@[b] as int),
                forall|k: int| 0 <= k < p ==> index_before(kv, #[trigger] out@[k] as int, i as int),
            decreases out@.len() - p,
        {
            proof {
                let y = out@[p as int] as int;
                lemma_index_before_order(kv, y, i as int, y);
                assert(!key_lt(kv[i as int], kv[y]));
                assert(y < i);
                if kv[i as int] != kv[y] {
                    lemma_key_lt_order(kv[i as int], kv[y], kv[y]);
                }
                assert(index_before(kv, y, i as int));
            }
            p += 1;
        }
        let ghost before = out@;
        proof {
            if p < out@.len() {
                assert(index_before(kv, i as int, out@[p as int] as int));
            }
        }
        out.insert(p, i);
        proof {
            assert(out@ =~= before.subrange(0, p as int).push(i).add(before.subrange(p as int, before.len() as int)));
            assert forall|a: int, b: int| 0 <= a < b < out@.len() implies index_before(kv, #[trigger] out@[a] as int, #[trigger] out@[b] as int) by {
                if b < p {
                    assert(out@[a] == before[a] && out@[b] == before[b]);
                } else if b == p {
                    assert(out@[a] == before[a]);
                } else if a == p {
                    assert(out@[b] == before[b - 1]);
                    if b - 1 > p {
                        lemma_index_before_order(kv, i as int, before[p as int] as int, before[b - 1] as int);
                    }
                } else if a < p {
                    assert(out@[a] == before[a] && out@[b] == before[b - 1]);
                } else {
                    assert(out@[a] == before[a - 1] && out@[b] == before[b - 1]);
                }
            }
            assert forall|x: int| 0 <= x < i + 1 implies holds_index(out@, x) by {
                if x == i {
                    assert(out@[p as int] == i);
                } else {
                    assert(holds_index(before, x));
                    let k = choose|k: int| 0 <= k < before.len() && before[k] == x;
                    if k < p {
                        assert(out@[k] == x);
                    } else {
                        assert(out@[k + 1] == x);
                    }
                }
            }
        }
        i += 1;
    }
    out
}

fn key_less(a: &SortKey, b: &SortKey) -> (r: bool)
    ensures
        r == key_lt(key_view(*a), key_view(*b)),
{
    if a.rank != b.rank {
        return a.rank < b.rank;
    }
    if a.tie != b.tie {
        return a.tie < b.tie;
    }
    proof {
        lemma_text_lt_asymmetric(a.first@, b.first@);
    }
    if crate::text::chars_eq(&a.first, &b.first) {
        text_less(&a.second, &b.second)
    } else {
        text_less(&a.first, &b.first)
    }
}


proof fn lemma_sorted_step(keys: Seq<KeyView>, n: int, r1: Seq<usize>, r2: Seq<usize>, k: int)
    requires
        sorted_indices_of(keys, n, r1),
        sorted_indices_of(keys, n, r2),
        0 <= k < n,
        forall|j: int| 0 <= j < k ==> r1[j] == r2[j],
    ensures
        r1[k] == r2[k],
{
    let a = r1[k] as int;
    let b = r2[k] as int;
    if a != b {
        lemma_index_before_order(keys, a, b, a);
        lemma_index_before_order(keys, a, a, a);
        lemma_index_before_order(keys, b, b, b);
        if index_before(keys, a, b) {
            assert(holds_index(r2, a));
            let m = choose|m: int| 0 <= m < r2.len() && r2[m] == a;
            if m < k {
                assert(r1[m] == r2[m]);
                assert(index_before(keys, r1[m] as int, r1[k] as int));
            } else {
                assert(m != k);
                assert(index_before(keys, r2[k] as int, r2[m] as int));
            }
        } else {
            assert(index_before(keys, b, a));
            assert(holds_index(r1, b));
            let m = choose|m: int| 0 <= m < r1.len() && r1[m] == b;
            if m < k {
                assert(r1[m] == r2[m]);
                assert(index_before(keys, r2[m] as int, r2[k] as int));
            } else {
                assert(m != k);
                assert(index_before(keys, r1[k] as int, r1[m] as int));
            }
        }
    }
}

proof fn lemma_sorted_prefix(keys: Seq<KeyView>, n: int, r1: Seq<usize>, r2: Seq<usize>, k: int)
    requires
        sorted_indices_of(keys, n, r1),
        sorted_indices_of(keys, n, r2),
        0 <= k <= n,
    ensures
        forall|j: int| 0 <= j < k ==> r1[j] == r2[j],
    decreases k,
{
    if k > 0 {
        lemma_sorted_prefix(keys, n, r1, r2, k - 1);
        lemma_sorted_step(keys, n, r1, r2, k - 1);
    }
}

/// Only one list of indices is sorted by the keys.
pub proof fn lemma_sorted_indices_unique(keys: Seq<KeyView>, n: int, r1: Seq<usize>, r2: Seq<usize>)
    requires
        sorted_indices_of(keys, n, r1),
        sorted_indices_of(keys, n, r2),
    ensures
        r1 == r2,
{
    lemma_sorted_prefix(keys, n, r1, r2, n);
    assert(r1 =~= r2);
}

} // verus!
