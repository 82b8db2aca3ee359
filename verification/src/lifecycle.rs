//! Spatiotemporal host lifecycle.
//!
//! - **Spatial**: a mounted [`Scope`] declares the keys it reads; a committed
//!   change of a declared key fires the reactions of exactly the scopes that
//!   declared it ([`HostLifecycle::set`] names them); an undeclared change
//!   fires nothing.
//! - **Temporal**: [`HostLifecycle::dispose`] and [`HostLifecycle::drain`]
//!   hand back each scope's resource disposes in the order they must run:
//!   within a unit in reverse registration order, across units in reverse
//!   topological order (dependencies first). Each dispose is handed out at
//!   most once, and after a drain no scope remains mounted.
//! - **Generations**: an [`Epoch`] identifies a session/settings generation
//!   by `[key, provider, version, schema hash]`; a dependent reloads only
//!   when the epoch changes.

use vstd::prelude::*;

use crate::text::{chars_eq, chars_of};

verus! {

/// Stable identity of one mounted host unit.
pub type ScopeId = usize;

/// One host-owned effect scope: the keys it reads, the reaction fired when
/// one of them changes, and the disposes of the resources it owns.
pub struct Scope<D, C> {
    pub reads: Vec<String>,
    pub on_change: Option<C>,
    pub dispose: Vec<D>,
}

impl<D, C> Scope<D, C> {
    /// A scope that reads nothing and owns nothing.
    pub fn new() -> (s: Scope<D, C>)
        ensures
            s.reads@.len() == 0,
            s.on_change is None,
            s.dispose@.len() == 0,
    {
        Scope { reads: Vec::new(), on_change: None, dispose: Vec::new() }
    }

    /// Declares a key this unit reads.
    pub fn with_read(self, key: &str) -> (s: Scope<D, C>)
        ensures
            s.reads@.len() == self.reads@.len() + 1,
            forall|i: int| 0 <= i < self.reads@.len() ==> #[trigger] s.reads@[i] == self.reads@[i],
            s.reads@.last()@ == key@,
            s.on_change == self.on_change,
            s.dispose@ == self.dispose@,
    {
        let mut s = self;
        s.reads.push(key.to_owned());
        s
    }

    /// Registers one live resource dispose; disposes run in reverse
    /// registration order.
    pub fn track(self, dispose: D) -> (s: Scope<D, C>)
        ensures
            s.dispose@ == self.dispose@.push(dispose),
            s.reads@ == self.reads@,
            s.on_change == self.on_change,
    {
        let mut s = self;
        s.dispose.push(dispose);
        s
    }

    /// Declares several keys this unit reads.
    pub fn reads(self, keys: &[&str]) -> (s: Scope<D, C>)
        ensures
            s.reads@.len() == self.reads@.len() + keys@.len(),
            forall|i: int| 0 <= i < self.reads@.len() ==> #[trigger] s.reads@[i] == self.reads@[i],
            forall|i: int| 0 <= i < keys@.len() ==> #[trigger] s.reads@[self.reads@.len() + i]@ == keys@[i]@,
            s.on_change == self.on_change,
            s.dispose@ == self.dispose@,
    {
        let mut s = self;
        let ghost start = s.reads@;
        let mut i: usize = 0;
        while i < keys.len()
            invariant
                i <= keys@.len(),
                s.reads@.len() == start.len() + i,
                forall|k: int| 0 <= k < start.len() ==> #[trigger] s.reads@[k] == start[k],
                forall|k: int| 0 <= k < i ==> #[trigger] s.reads@[start.len() + k]@ == keys@[k]@,
                s.on_change == self.on_change,
                s.dispose@ == self.dispose@,
                start == self.reads@,
            decreases keys@.len() - i,
        {
            s.reads.push(keys[i].to_owned());
            i += 1;
        }
        s
    }

    /// Sets the reaction fired when a declared key changes.
    pub fn on_change(self, cb: C) -> (s: Scope<D, C>)
        ensures
            s.on_change == Some(cb),
            s.reads@ == self.reads@,
            s.dispose@ == self.dispose@,
    {
        let mut s = self;
        s.on_change = Some(cb);
        s
    }
}

/// The identity of a session/settings generation.
#[derive(Clone)]
pub struct Epoch {
    /// The reactive key this generation shadows.
    pub key: String,
    /// Provider generating the value.
    pub provider: String,
    /// Provider version.
    pub version: String,
    /// Canonical schema hash of the value's shape.
    pub schema_hash: String,
}

impl View for Epoch {
    type V = (Seq<char>, Seq<char>, Seq<char>, Seq<char>);

    open spec fn view(&self) -> (Seq<char>, Seq<char>, Seq<char>, Seq<char>) {
        (self.key@, self.provider@, self.version@, self.schema_hash@)
    }
}

impl Epoch {
    pub fn new(key: &str, provider: &str, version: &str, schema_hash: &str) -> (e: Epoch)
        ensures
            e@ == (key@, provider@, version@, schema_hash@),
    {
        Epoch {
            key: key.to_owned(),
            provider: provider.to_owned(),
            version: version.to_owned(),
            schema_hash: schema_hash.to_owned(),
        }
    }

    /// Whether two epochs are the same generation identity.
    pub fn same_as(&self, other: &Epoch) -> (r: bool)
        ensures
            r == (self@ == other@),
    {
        chars_eq(&chars_of(self.key.as_str()), &chars_of(other.key.as_str()))
            && chars_eq(&chars_of(self.provider.as_str()), &chars_of(other.provider.as_str()))
            && chars_eq(&chars_of(self.version.as_str()), &chars_of(other.version.as_str()))
            && chars_eq(&chars_of(self.schema_hash.as_str()), &chars_of(other.schema_hash.as_str()))
    }
}

/// A generation-gated value: consumers reload only when the epoch changes.
pub struct Generation<T> {
    pub value: T,
    pub epoch: Epoch,
}

impl<T> Generation<T> {
    /// True exactly when `epoch` differs from this generation's.
    pub fn reloads_on(&self, epoch: &Epoch) -> (r: bool)
        ensures
            r == (self.epoch@ != epoch@),
    {
        !self.epoch.same_as(epoch)
    }
}


impl<D, C> Default for Scope<D, C> {
    fn default() -> (s: Scope<D, C>)
        ensures
            s.reads@.len() == 0,
            s.on_change is None,
            s.dispose@.len() == 0,
    {
        Scope::new()
    }
}

/// One mounted unit: its reads, its reaction, the disposes it still owns,
/// and whether it is mounted.
pub struct Unit<D, C> {
    pub reads: Vec<String>,
    pub on_change: Option<C>,
    pub disposes: Vec<D>,
    pub mounted: bool,
}

/// The controller of the host's live scopes: every unit ever mounted
/// (its id is its position), the declared dependencies `(scope, dep)`, and
/// the mounted ids in registration order.
pub struct HostLifecycle<D, C, V> {
    pub values: Vec<(String, V)>,
    pub units: Vec<Unit<D, C>>,
    pub deps: Vec<(ScopeId, ScopeId)>,
    pub order: Vec<ScopeId>,
}

/// Whether a sequence holds no value twice.
pub open spec fn distinct_ids(s: Seq<ScopeId>) -> bool {
    forall|i: int, j: int| 0 <= i < j < s.len() ==> s[i] != s[j]
}

/// Whether `scope` declared a dependency on `dep`.
pub open spec fn depends(deps: Seq<(ScopeId, ScopeId)>, scope: ScopeId, dep: ScopeId) -> bool {
    exists|k: int| 0 <= k < deps.len() && deps[k] == (scope, dep)
}

impl<D, C, V> HostLifecycle<D, C, V> {
    /// `order` lists exactly the mounted units, each once.
    pub open spec fn wf(&self) -> bool {
        &&& distinct_ids(self.order@)
        &&& forall|k: int| 0 <= k < self.order@.len() ==> (#[trigger] self.order@[k]) < self.units@.len()
        &&& forall|id: ScopeId| id < self.units@.len() ==> (#[trigger] self.units@[id as int].mounted <==> self.order@.contains(id))
    }

    /// Number of mounted units.
    pub open spec fn live(&self) -> nat {
        self.order@.len()
    }

    pub fn new() -> (l: HostLifecycle<D, C, V>)
        ensures
            l.wf(),
            l.values@.len() == 0,
            l.units@.len() == 0,
            l.deps@.len() == 0,
            l.order@.len() == 0,
    {
        HostLifecycle { values: Vec::new(), units: Vec::new(), deps: Vec::new(), order: Vec::new() }
    }

    /// Mounts a unit: its reads are declared and its disposes owned; the
    /// new id is returned.
    pub fn mount(&mut self, scope: Scope<D, C>) -> (id: ScopeId)
        requires
            old(self).wf(),
        ensures
            final(self).wf(),
            id == old(self).units@.len(),
            final(self).units@.len() == old(self).units@.len() + 1,
            forall|k: int| 0 <= k < old(self).units@.len() ==> #[trigger] final(self).units@[k] == old(self).units@[k],
            final(self).units@[id as int].reads@ == scope.reads@,
            final(self).units@[id as int].disposes@ == scope.dispose@,
            final(self).units@[id as int].on_change == scope.on_change,
            final(self).units@[id as int].mounted,
            final(self).order@ == old(self).order@.push(id),
            final(self).deps@ == old(self).deps@,
            final(self).values@ == old(self).values@,
    {
        let id = self.units.len();
        let ghost before = self.units@;
        self.units.push(Unit { reads: scope.reads, on_change: scope.on_change, disposes: scope.dispose, mounted: true });
        assert(!self.order@.contains(id)) by {
            if self.order@.contains(id) {
                let k = choose|k: int| 0 <= k < self.order@.len() && self.order@[k] == id;
                assert(self.order@[k] < before.len());
            }
        }
        let ghost old_order = self.order@;
        self.order.push(id);
        assert forall|x: ScopeId| x < self.units@.len() implies (#[trigger] self.units@[x as int].mounted <==> self.order@.contains(x)) by {
            if x < id {
                assert(self.units@[x as int] == before[x as int]);
                if old_order.contains(x) {
                    let k = choose|k: int| 0 <= k < old_order.len() && old_order[k] == x;
                    assert(self.order@[k] == x);
                }
                if self.order@.contains(x) {
                    let k = choose|k: int| 0 <= k < self.order@.len() && self.order@[k] == x;
                    assert(old_order[k] == x);
                }
            } else {
                assert(self.order@[old_order.len() as int] == id);
            }
        }
        id
    }

    /// Declares that `scope` depends on `dep`: a drain disposes `dep`
    /// first.
    pub fn depends_on(&mut self, scope: ScopeId, dep: ScopeId)
        requires
            old(self).wf(),
        ensures
            final(self).wf(),
            final(self).deps@ == old(self).deps@.push((scope, dep)),
            final(self).values@ == old(self).values@,
            final(self).units@ == old(self).units@,
            final(self).order@ == old(self).order@,
    {
        self.deps.push((scope, dep));
    }

    /// The mounted units that declared `key`: the reactions a committed
    /// change of `key` fires, in registration order.
    pub fn readers(&self, key: &str) -> (r: Vec<ScopeId>)
        requires
            self.wf(),
        ensures
            forall|id: ScopeId| r@.contains(id) <==> (id < self.units@.len() && self.units@[id as int].mounted
                && exists|k: int| 0 <= k < self.units@[id as int].reads@.len() && #[trigger] self.units@[id as int].reads@[k]@ == key@),
    {
        let want = chars_of(key);
        let mut out: Vec<ScopeId> = Vec::new();
        let mut p: usize = 0;
        while p < self.order.len()
            invariant
                self.wf(),
                want@ == key@,
                p <= self.order@.len(),
                forall|id: ScopeId| out@.contains(id) <==> (self.order@.take(p as int).contains(id)
                    && exists|k: int| 0 <= k < self.units@[id as int].reads@.len() && #[trigger] self.units@[id as int].reads@[k]@ == key@),
            decreases self.order@.len() - p,
        {
            let id = self.order[p];
            let ghost pre = self.order@.take(p as int);
            assert(self.order@.take(p + 1) =~= pre.push(id));
            let mut found = false;
            let mut k: usize = 0;
            let n = self.units[id].reads.len();
            while k < n
                invariant
                    id < self.units@.len(),
                    n == self.units@[id as int].reads@.len(),
                    k <= n,
                    want@ == key@,
                    found <==> exists|j: int| 0 <= j < k && #[trigger] self.units@[id as int].reads@[j]@ == key@,
                decreases n - k,
            {
                if chars_eq(&chars_of(self.units[id].reads[k].as_str()), &want) {
                    found = true;
                }
                k += 1;
            }
            let ghost before = out@;
            if found {
                out.push(id);
            }
            assert forall|x: ScopeId| out@.contains(x) <==> (self.order@.take(p + 1).contains(x)
                && exists|k: int| 0 <= k < self.units@[x as int].reads@.len() && #[trigger] self.units@[x as int].reads@[k]@ == key@) by {
                if x == id {
                    assert(self.order@.take(p + 1)[p as int] == id);
                    if found {
                        assert(out@[before.len() as int] == id);
                    }
                } else {
                    if out@.contains(x) {
                        let j = choose|j: int| 0 <= j < out@.len() && out@[j] == x;
                        assert(j < before.len());
                        assert(before[j] == x);
                        assert(before.contains(x));
                        assert(pre.contains(x));
                        let m = choose|m: int| 0 <= m < pre.len() && pre[m] == x;
                        assert(self.order@.take(p + 1)[m] == x);
                    }
                    if self.order@.take(p + 1).contains(x) {
                        let m = choose|m: int| 0 <= m < p + 1 && #[trigger] self.order@.take(p + 1)[m] == x;
                        assert(pre[m] == x);
                        assert(pre.contains(x));
                        if exists|k: int| 0 <= k < self.units@[x as int].reads@.len() && #[trigger] self.units@[x as int].reads@[k]@ == key@ {
                            assert(before.contains(x));
                            let j = choose|j: int| 0 <= j < before.len() && before[j] == x;
                            assert(out@[j] == x);
                        }
                    }
                }
            }
            p += 1;
        }
        assert(self.order@.take(self.order@.len() as int) =~= self.order@);
        proof {
            assert forall|id: ScopeId| #![auto] self.order@.contains(id) <==> (id < self.units@.len() && self.units@[id as int].mounted) by {
                if self.order@.contains(id) {
                    let k = choose|k: int| 0 <= k < self.order@.len() && self.order@[k] == id;
                    assert(self.order@[k] < self.units@.len());
                }
            }
        }
        out
    }

    /// Number of mounted units (0 after a full drain).
    pub fn len(&self) -> (n: usize)
        ensures
            n == self.order@.len(),
    {
        self.order.len()
    }

    pub fn is_empty(&self) -> (b: bool)
        ensures
            b == (self.order@.len() == 0),
    {
        self.order.len() == 0
    }
}

/// The disposes of the units in `ord`, each unit's in reverse
/// registration order.
pub open spec fn disposes_in_order<D, C>(units: Seq<Unit<D, C>>, ord: Seq<ScopeId>) -> Seq<D>
    decreases ord.len(),
{
    if ord.len() == 0 {
        Seq::<D>::empty()
    } else {
        disposes_in_order(units, ord.drop_last()) + units[ord.last() as int].disposes@.reverse()
    }
}

/// The units of `order` from position `q` on that `placed` lacks, last
/// registered first.
pub open spec fn rev_unplaced(order: Seq<ScopeId>, placed: Seq<ScopeId>, q: int) -> Seq<ScopeId>
    decreases order.len() - q,
{
    if q < 0 || q >= order.len() {
        Seq::<ScopeId>::empty()
    } else {
        rev_unplaced(order, placed, q + 1) + if placed.contains(order[q]) { Seq::<ScopeId>::empty() } else { seq![order[q]] }
    }
}

/// Whether unit `x` depends on a mounted unit that `placed` lacks.
pub open spec fn blocked(order: Seq<ScopeId>, deps: Seq<(ScopeId, ScopeId)>, placed: Seq<ScopeId>, x: ScopeId) -> bool {
    exists|d: ScopeId| #[trigger] depends(deps, x, d) && order.contains(d) && !placed.contains(d)
}

/// `ord` lists the mounted units of `order` once each; its first `topo`
/// units come after every mounted unit they depend on; each later unit
/// depends on a mounted unit outside that prefix (a dependency cycle, or
/// a unit waiting on one), and they follow in reverse registration order.
pub open spec fn drain_order_ok(order: Seq<ScopeId>, deps: Seq<(ScopeId, ScopeId)>, ord: Seq<ScopeId>, topo: int) -> bool {
    &&& ord.len() == order.len()
    &&& distinct_ids(ord)
    &&& forall|x: ScopeId| ord.contains(x) <==> order.contains(x)
    &&& 0 <= topo <= ord.len()
    &&& forall|i: int, d: ScopeId| 0 <= i < topo && #[trigger] depends(deps, ord[i], d) && order.contains(d)
        ==> exists|j: int| 0 <= j < i && ord[j] == d
    &&& ord.skip(topo) == rev_unplaced(order, ord.take(topo), 0)
    &&& forall|i: int| topo <= i < ord.len() ==> blocked(order, deps, ord.take(topo), #[trigger] ord[i])
}

/// A drain disposes each mounted unit exactly once and nothing else: every
/// mounted unit stands once in the drain order, every unit there is
/// mounted, and with nothing mounted a drain hands back no dispose.
pub proof fn law_drain_disposes_each_once<D, C>(
    units: Seq<Unit<D, C>>,
    order: Seq<ScopeId>,
    deps: Seq<(ScopeId, ScopeId)>,
    ord: Seq<ScopeId>,
    topo: int,
)
    requires
        drain_order_ok(order, deps, ord, topo),
    ensures
        forall|x: ScopeId| #[trigger] order.contains(x) ==> exists|i: int| 0 <= i < ord.len() && ord[i] == x
            && forall|j: int| 0 <= j < ord.len() && #[trigger] ord[j] == x ==> j == i,
        forall|i: int| 0 <= i < ord.len() ==> order.contains(#[trigger] ord[i]),
        order.len() == 0 ==> disposes_in_order(units, ord).len() == 0,
{
    assert forall|x: ScopeId| #[trigger] order.contains(x) implies exists|i: int| 0 <= i < ord.len() && ord[i] == x
        && forall|j: int| 0 <= j < ord.len() && #[trigger] ord[j] == x ==> j == i by {
        assert(ord.contains(x));
        let i = choose|i: int| 0 <= i < ord.len() && ord[i] == x;
        assert forall|j: int| 0 <= j < ord.len() && #[trigger] ord[j] == x implies j == i by {
            if j < i {
                assert(ord[j] != ord[i]);
            } else if i < j {
                assert(ord[i] != ord[j]);
            }
        }
    }
    assert forall|i: int| 0 <= i < ord.len() implies order.contains(#[trigger] ord[i]) by {
        assert(ord.contains(ord[i]));
    }
    if order.len() == 0 {
        assert(ord.len() == 0);
    }
}

/// The units `rev_unplaced` lists come from `order` at or after `q`, and
/// `placed` lacks them.
proof fn lemma_rev_unplaced(order: Seq<ScopeId>, placed: Seq<ScopeId>, q: int)
    requires
        0 <= q,
    ensures
        forall|i: int| 0 <= i < rev_unplaced(order, placed, q).len() ==> exists|k: int| q <= k < order.len()
            && order[k] == #[trigger] rev_unplaced(order, placed, q)[i] && !placed.contains(order[k]),
        (forall|k: int| q <= k < order.len() ==> placed.contains(#[trigger] order[k])) ==> rev_unplaced(order, placed, q).len() == 0,
    decreases order.len() - q,
{
    if q < order.len() {
        lemma_rev_unplaced(order, placed, q + 1);
        let r = rev_unplaced(order, placed, q + 1);
        let t = rev_unplaced(order, placed, q);
        assert forall|i: int| 0 <= i < t.len() implies exists|k: int| q <= k < order.len()
            && order[k] == #[trigger] t[i] && !placed.contains(order[k]) by {
            if i < r.len() {
                assert(t[i] == r[i]);
                let k = choose|k: int| q + 1 <= k < order.len() && order[k] == r[i] && !placed.contains(order[k]);
            } else {
                assert(t[i] == order[q]);
            }
        }
    }
}

fn contains_id(v: &Vec<ScopeId>, x: ScopeId) -> (r: bool)
    ensures
        r == v@.contains(x),
{
    let mut i: usize = 0;
    while i < v.len()
        invariant
            i <= v@.len(),
            forall|k: int| 0 <= k < i ==> v@[k] != x,
        decreases v@.len() - i,
    {
        if v[i] == x {
            return true;
        }
        i += 1;
    }
    false
}

proof fn lemma_same_elems_same_len(a: Seq<ScopeId>, b: Seq<ScopeId>)
    requires
        distinct_ids(a),
        distinct_ids(b),
        forall|x: ScopeId| a.contains(x) <==> b.contains(x),
    ensures
        a.len() == b.len(),
{
    assert(a.no_duplicates());
    assert(b.no_duplicates());
    a.unique_seq_to_set();
    b.unique_seq_to_set();
    assert(a.to_set() =~= b.to_set());
}

proof fn lemma_subset_len(a: Seq<ScopeId>, b: Seq<ScopeId>)
    requires
        distinct_ids(a),
        distinct_ids(b),
        forall|x: ScopeId| a.contains(x) ==> b.contains(x),
    ensures
        a.len() <= b.len(),
{
    assert(a.no_duplicates());
    assert(b.no_duplicates());
    a.unique_seq_to_set();
    b.unique_seq_to_set();
    assert(a.to_set().subset_of(b.to_set()));
    vstd::set_lib::lemma_len_subset(a.to_set(), b.to_set());
}

impl<D, C, V> HostLifecycle<D, C, V> {
    /// Whether every mounted unit `id` depends on has been placed.
    fn deps_placed(&self, id: ScopeId, out: &Vec<ScopeId>) -> (r: bool)
        ensures
            r == forall|d: ScopeId| #[trigger] depends(self.deps@, id, d) && self.order@.contains(d) ==> out@.contains(d),
    {
        let mut k: usize = 0;
        while k < self.deps.len()
            invariant
                k <= self.deps@.len(),
                forall|j: int| 0 <= j < k && self.deps@[j].0 == id && self.order@.contains(self.deps@[j].1) ==> out@.contains(#[trigger] self.deps@[j].1),
            decreases self.deps@.len() - k,
        {
            let (s, d) = self.deps[k];
            if s == id && contains_id(&self.order, d) && !contains_id(out, d) {
                assert(depends(self.deps@, id, d));
                return false;
            }
            k += 1;
        }
        assert forall|d: ScopeId| #[trigger] depends(self.deps@, id, d) && self.order@.contains(d) implies out@.contains(d) by {
            let j = choose|j: int| 0 <= j < self.deps@.len() && self.deps@[j] == (id, d);
            assert(self.deps@[j].1 == d);
        }
        true
    }

    /// The order in which a drain disposes the mounted units: passes over
    /// the registration order place every unit whose mounted dependencies
    /// are placed; when a pass places nothing (a dependency cycle) the
    /// rest follow in reverse registration order. The second value counts
    /// the units placed by the passes.
    pub fn drain_order(&self) -> (r: (Vec<ScopeId>, usize))
        requires
            self.wf(),
        ensures
            drain_order_ok(self.order@, self.deps@, r.0@, r.1 as int),
    {
        let n = self.order.len();
        let mut out: Vec<ScopeId> = Vec::new();
        let mut topo: usize = 0;
        let mut fell_back = false;
        while out.len() < n
            invariant
                self.wf(),
                n == self.order@.len(),
                out@.len() <= n,
                distinct_ids(out@),
                forall|x: ScopeId| out@.contains(x) ==> self.order@.contains(x),
                !fell_back ==> topo == out@.len(),
                fell_back ==> out@.len() == n,
                topo <= out@.len(),
                fell_back ==> out@.skip(topo as int) == rev_unplaced(self.order@, out@.take(topo as int), 0),
                fell_back ==> forall|i: int| topo <= i < out@.len()
                    ==> blocked(self.order@, self.deps@, out@.take(topo as int), #[trigger] out@[i]),
                forall|i: int, d: ScopeId| 0 <= i < topo && #[trigger] depends(self.deps@, out@[i], d) && self.order@.contains(d)
                    ==> exists|j: int| 0 <= j < i && out@[j] == d,
            decreases n - out@.len(), (if fell_back { 0int } else { 1int }),
        {
            let start_len = out.len();
            let ghost start_out = out@;
            let mut p: usize = 0;
            while p < n
                invariant
                    self.wf(),
                    n == self.order@.len(),
                    !fell_back,
                    p <= n,
                    start_len <= out@.len(),
                    start_out.len() == start_len,
                    out@.len() == start_len ==> out@ == start_out
                        && forall|k: int| 0 <= k < p ==> out@.contains(#[trigger] self.order@[k])
                            || blocked(self.order@, self.deps@, out@, self.order@[k]),
                    out@.len() <= n,
                    distinct_ids(out@),
                    forall|x: ScopeId| out@.contains(x) ==> self.order@.contains(x),
                    topo == out@.len(),
                    forall|i: int, d: ScopeId| 0 <= i < topo && #[trigger] depends(self.deps@, out@[i], d) && self.order@.contains(d)
                        ==> exists|j: int| 0 <= j < i && out@[j] == d,
                decreases n - p,
            {
                let id = self.order[p];
                if !contains_id(&out, id) && self.deps_placed(id, &out) {
                    let ghost before = out@;
                    out.push(id);
                    topo = out.len();
                    proof {
                        assert forall|a: int, b: int| 0 <= a < b < out@.len() implies out@[a] != out@[b] by {
                            if b == out@.len() - 1 {
                                assert(before.contains(out@[a]));
                            }
                        }
                        assert forall|x: ScopeId| out@.contains(x) implies self.order@.contains(x) by {
                            if x != id {
                                let k = choose|k: int| 0 <= k < out@.len() && out@[k] == x;
                                assert(before[k] == x);
                                assert(before.contains(x));
                            } else {
                                assert(0 <= p < self.order@.len() && self.order@[p as int] == id);
                            }
                        }
                        assert forall|i: int, d: ScopeId| 0 <= i < topo && #[trigger] depends(self.deps@, out@[i], d) && self.order@.contains(d)
                            implies exists|j: int| 0 <= j < i && out@[j] == d by {
                            if i < before.len() {
                                assert(out@[i] == before[i]);
                                let j = choose|j: int| 0 <= j < i && before[j] == d;
                                assert(out@[j] == d);
                            } else {
                                assert(out@[i] == id);
                                assert(before.contains(d));
                                let j = choose|j: int| 0 <= j < before.len() && before[j] == d;
                                assert(out@[j] == d);
                            }
                        }
                    }
                }
                proof {
                    lemma_subset_len(out@, self.order@);
                }
                p += 1;
            }
            if out.len() == start_len {
                fell_back = true;
                let ghost prefix = out@;
                let mut q = n;
                assert(out@ =~= prefix + rev_unplaced(self.order@, prefix, n as int));
                while q > 0
                    invariant
                        self.wf(),
                        n == self.order@.len(),
                        q <= n,
                        distinct_ids(out@),
                        topo <= out@.len(),
                        topo == prefix.len(),
                        out@ == prefix + rev_unplaced(self.order@, prefix, q as int),
                        forall|k: int| 0 <= k < n ==> prefix.contains(#[trigger] self.order@[k])
                            || blocked(self.order@, self.deps@, prefix, self.order@[k]),
                        forall|x: ScopeId| out@.contains(x) ==> self.order@.contains(x),
                        forall|k: int| q <= k < n ==> out@.contains(#[trigger] self.order@[k]),
                        forall|i: int, d: ScopeId| 0 <= i < topo && #[trigger] depends(self.deps@, out@[i], d) && self.order@.contains(d)
                            ==> exists|j: int| 0 <= j < i && out@[j] == d,
                    decreases q,
                {
                    q -= 1;
                    let id = self.order[q];
                    let ghost before = out@;
                    proof {
                        lemma_rev_unplaced(self.order@, prefix, q + 1);
                        let r = rev_unplaced(self.order@, prefix, q + 1);
                        assert(!r.contains(id)) by {
                            if r.contains(id) {
                                let i = choose|i: int| 0 <= i < r.len() && r[i] == id;
                                let k = choose|k: int| q + 1 <= k < self.order@.len() && self.order@[k] == #[trigger] r[i]
                                    && !prefix.contains(self.order@[k]);
                                assert(self.order@[k] == self.order@[q as int]);
                            }
                        }
                        assert(before.contains(id) <==> prefix.contains(id)) by {
                            if before.contains(id) {
                                let i = choose|i: int| 0 <= i < before.len() && before[i] == id;
                                if i >= prefix.len() {
                                    assert(r[i - prefix.len()] == id);
                                } else {
                                    assert(prefix[i] == id);
                                }
                            }
                            if prefix.contains(id) {
                                let i = choose|i: int| 0 <= i < prefix.len() && prefix[i] == id;
                                assert(before[i] == id);
                            }
                        }
                    }
                    if !contains_id(&out, id) {
                        out.push(id);
                        proof {
                            assert forall|a: int, b: int| 0 <= a < b < out@.len() implies out@[a] != out@[b] by {
                                if b == out@.len() - 1 {
                                    assert(before.contains(out@[a]));
                                }
                            }
                            assert forall|x: ScopeId| out@.contains(x) implies self.order@.contains(x) by {
                                if x != id {
                                    let k = choose|k: int| 0 <= k < out@.len() && out@[k] == x;
                                    assert(before[k] == x);
                                    assert(before.contains(x));
                                } else {
                                    assert(0 <= q < self.order@.len() && self.order@[q as int] == id);
                                }
                            }
                            assert forall|i: int, d: ScopeId| 0 <= i < topo && #[trigger] depends(self.deps@, out@[i], d) && self.order@.contains(d)
                                implies exists|j: int| 0 <= j < i && out@[j] == d by {
                                assert(out@[i] == before[i]);
                                let j = choose|j: int| 0 <= j < i && before[j] == d;
                                assert(out@[j] == d);
                            }
                        }
                    }
                    assert(out@ =~= prefix + rev_unplaced(self.order@, prefix, q as int));
                    proof {
                        assert forall|k: int| q <= k < n implies out@.contains(#[trigger] self.order@[k]) by {
                            if k == q {
                                if !before.contains(id) {
                                    assert(out@[before.len() as int] == id);
                                }
                            } else {
                                let j = choose|j: int| 0 <= j < before.len() && before[j] == self.order@[k];
                                assert(out@[j] == self.order@[k]);
                            }
                        }
                    }
                }
                proof {
                    assert forall|x: ScopeId| self.order@.contains(x) implies out@.contains(x) by {
                        let k = choose|k: int| 0 <= k < self.order@.len() && self.order@[k] == x;
                    }
                    lemma_same_elems_same_len(out@, self.order@);
                    assert(out@.take(topo as int) =~= prefix);
                    assert(out@.skip(topo as int) =~= rev_unplaced(self.order@, prefix, 0));
                    lemma_rev_unplaced(self.order@, prefix, 0);
                    assert forall|i: int| topo <= i < out@.len()
                        implies blocked(self.order@, self.deps@, out@.take(topo as int), #[trigger] out@[i]) by {
                        let r = rev_unplaced(self.order@, prefix, 0);
                        assert(out@[i] == r[i - topo]);
                        let k = choose|k: int| 0 <= k < self.order@.len() && self.order@[k] == #[trigger] r[i - topo]
                            && !prefix.contains(self.order@[k]);
                    }
                }
            }
        }
        proof {
            assert forall|x: ScopeId| out@.contains(x) <==> self.order@.contains(x) by {
                if self.order@.contains(x) && !out@.contains(x) {
                    assert(distinct_ids(out@.push(x))) by {
                        assert forall|a: int, b: int| 0 <= a < b < out@.push(x).len() implies out@.push(x)[a] != out@.push(x)[b] by {
                            if b == out@.len() {
                                assert(out@.push(x)[a] == out@[a]);
                            }
                        }
                    }
                    assert forall|y: ScopeId| out@.push(x).contains(y) implies self.order@.contains(y) by {
                        let k = choose|k: int| 0 <= k < out@.push(x).len() && out@.push(x)[k] == y;
                        if k < out@.len() {
                            assert(out@[k] == y);
                            assert(out@.contains(y));
                        } else {
                            assert(y == x);
                        }
                    }
                    lemma_subset_len(out@.push(x), self.order@);
                }
            }
            if fell_back {
            } else {
                assert(topo == out@.len());
            }
        }
        proof {
            if !fell_back {
                assert(out@.take(topo as int) =~= out@);
                assert(out@.skip(topo as int) =~= Seq::<ScopeId>::empty());
                lemma_rev_unplaced(self.order@, out@, 0);
                assert forall|k: int| 0 <= k < self.order@.len() implies out@.contains(#[trigger] self.order@[k]) by {
                    assert(self.order@.contains(self.order@[k]));
                }
            }
        }
        (out, topo)
    }
}

/// `order` without `id`.
pub open spec fn without(order: Seq<ScopeId>, id: ScopeId) -> Seq<ScopeId>
    decreases order.len(),
{
    if order.len() == 0 {
        Seq::<ScopeId>::empty()
    } else if order.last() != id {
        without(order.drop_last(), id).push(order.last())
    } else {
        without(order.drop_last(), id)
    }
}

impl<D, C, V> HostLifecycle<D, C, V> {
    /// Disposes one scope: its disposes are handed back in reverse
    /// registration order (to be run in that order) and it is unmounted.
    /// A scope that is not mounted (never was, or already disposed) gives
    /// nothing back, so each dispose is handed out at most once.
    pub fn dispose(&mut self, id: ScopeId) -> (r: Vec<D>)
        requires
            old(self).wf(),
        ensures
            final(self).wf(),
            final(self).units@.len() == old(self).units@.len(),
            final(self).deps@ == old(self).deps@,
            final(self).values@ == old(self).values@,
            !(id < old(self).units@.len() && old(self).units@[id as int].mounted) ==> r@.len() == 0 && *final(self) == *old(self),
            id < old(self).units@.len() && old(self).units@[id as int].mounted ==> {
                &&& r@ == old(self).units@[id as int].disposes@.reverse()
                &&& !final(self).units@[id as int].mounted
                &&& final(self).units@[id as int].disposes@.len() == 0
                &&& final(self).units@[id as int].reads@ == old(self).units@[id as int].reads@
                &&& final(self).order@ == without(old(self).order@, id)
                &&& forall|k: int| 0 <= k < old(self).units@.len() && k != id ==> #[trigger] final(self).units@[k] == old(self).units@[k]
            },
    {
        if id >= self.units.len() || !self.units[id].mounted {
            return Vec::new();
        }
        let ghost before = self.units@;
        let ghost old_order = self.order@;
        let mut kept: Vec<ScopeId> = Vec::new();
        let mut p: usize = 0;
        while p < self.order.len()
            invariant
                p <= self.order@.len(),
                self.order@ == old_order,
                kept@ == without(old_order.take(p as int), id),
            decreases self.order@.len() - p,
        {
            let x = self.order[p];
            assert(old_order.take(p + 1) =~= old_order.take(p as int).push(x));
            assert(old_order.take(p + 1).drop_last() =~= old_order.take(p as int));
            if x != id {
                kept.push(x);
            }
            p += 1;
        }
        assert(old_order.take(old_order.len() as int) =~= old_order);
        let unit = self.units.remove(id);
        let mut disposes = unit.disposes;
        let ghost ds = disposes@;
        let mut out: Vec<D> = Vec::new();
        while disposes.len() > 0
            invariant
                ds.len() == disposes@.len() + out@.len(),
                disposes@ == ds.take(disposes@.len() as int),
                out@ == ds.reverse().take(out@.len() as int),
            decreases disposes@.len(),
        {
            let ghost n = disposes@.len();
            let d = disposes.pop().unwrap();
            out.push(d);
            assert(disposes@ =~= ds.take(disposes@.len() as int));
            assert(out@ =~= ds.reverse().take(out@.len() as int));
        }
        assert(out@ =~= ds.reverse());
        self.units.insert(id, Unit { reads: unit.reads, on_change: unit.on_change, disposes: Vec::new(), mounted: false });
        self.order = kept;
        proof {
            lemma_without(old_order, id);
            assert forall|k: int| 0 <= k < before.len() && k != id implies #[trigger] self.units@[k] == before[k] by {}
            assert forall|x: ScopeId| x < self.units@.len() implies (#[trigger] self.units@[x as int].mounted <==> self.order@.contains(x)) by {
                if x != id {
                    assert(self.units@[x as int] == before[x as int]);
                }
            }
            assert forall|k: int| 0 <= k < self.order@.len() implies (#[trigger] self.order@[k]) < self.units@.len() by {
                assert(self.order@.contains(self.order@[k]));
                assert(old_order.contains(self.order@[k]));
                let j = choose|j: int| 0 <= j < old_order.len() && old_order[j] == self.order@[k];
            }
        }
        out
    }

    /// Disposes every mounted scope, dependencies before their dependents
    /// (falling back to reverse registration order on a cycle), handing
    /// back all their disposes in the order to run them. Afterwards no
    /// scope is mounted; a second drain gives nothing back.
    pub fn drain(&mut self) -> (r: Vec<D>)
        requires
            old(self).wf(),
        ensures
            final(self).wf(),
            final(self).order@.len() == 0,
            final(self).deps@ == old(self).deps@,
            final(self).values@ == old(self).values@,
            exists|ord: Seq<ScopeId>, topo: int| drain_order_ok(old(self).order@, old(self).deps@, ord, topo)
                && r@ == disposes_in_order(old(self).units@, ord),
    {
        let (ord, topo) = self.drain_order();
        let ghost units0 = self.units@;
        let ghost order0 = self.order@;
        let mut out: Vec<D> = Vec::new();
        let mut i: usize = 0;
        while i < ord.len()
            invariant
                self.wf(),
                drain_order_ok(order0, self.deps@, ord@, topo as int),
                self.deps@ == old(self).deps@,
                self.values@ == old(self).values@,
                order0 == old(self).order@,
                units0 == old(self).units@,
                i <= ord@.len(),
                self.units@.len() == units0.len(),
                out@ == disposes_in_order(units0, ord@.take(i as int)),
                forall|x: ScopeId| self.order@.contains(x) <==> (order0.contains(x) && !ord@.take(i as int).contains(x)),
                forall|k: ScopeId| k < units0.len() && !ord@.take(i as int).contains(k) ==> #[trigger] self.units@[k as int] == units0[k as int],
            decreases ord@.len() - i,
        {
            let id = ord[i];
            let ghost pre = ord@.take(i as int);
            assert(ord@.take(i + 1) =~= pre.push(id));
            assert(ord@.contains(id));
            assert(order0.contains(id));
            assert(!pre.contains(id)) by {
                if pre.contains(id) {
                    let j = choose|j: int| 0 <= j < pre.len() && pre[j] == id;
                    assert(ord@[j] == ord@[i as int]);
                }
            }
            assert(self.order@.contains(id));
            proof {
                let k0 = choose|k: int| 0 <= k < self.order@.len() && self.order@[k] == id;
                assert(self.order@[k0] < self.units@.len());
            }
            assert(id < self.units@.len());
            assert(self.units@[id as int].mounted);
            assert(self.units@[id as int] == units0[id as int]);
            let ghost mid = self.order@;
            assert(forall|x: ScopeId| #[trigger] mid.contains(x) <==> (order0.contains(x) && !pre.contains(x)));
            assert(distinct_ids(mid));
            let ds = self.dispose(id);
            proof {
                let k0 = choose|k: int| 0 <= k < mid.len() && mid[k] == id;
                assert(mid[k0] < self.units@.len());
                assert(self.units@.len() == units0.len());
            }
            assert(id < units0.len());
            let mut ds = ds;
            out.append(&mut ds);
            proof {
                assert(pre.push(id).drop_last() =~= pre);
                lemma_without(mid, id);
                assert forall|x: ScopeId| #[trigger] self.order@.contains(x) <==> (order0.contains(x) && !ord@.take(i + 1).contains(x)) by {
                    assert(self.order@.contains(x) == (mid.contains(x) && x != id));
                    assert(mid.contains(x) == (order0.contains(x) && !pre.contains(x)));
                    if ord@.take(i + 1).contains(x) && x != id {
                        let j = choose|j: int| 0 <= j < i + 1 && #[trigger] ord@.take(i + 1)[j] == x;
                        assert(j < i);
                        assert(pre[j] == x);
                        assert(pre.contains(x));
                    }
                    if pre.contains(x) {
                        let j = choose|j: int| 0 <= j < pre.len() && pre[j] == x;
                        assert(ord@.take(i + 1)[j] == x);
                        assert(ord@.take(i + 1).contains(x));
                    }
                    if x == id {
                        assert(ord@.take(i + 1)[i as int] == id);
                        assert(ord@.take(i + 1).contains(x));
                    }
                }
                assert forall|k: ScopeId| k < units0.len() && !ord@.take(i + 1).contains(k) implies #[trigger] self.units@[k as int] == units0[k as int] by {
                    if pre.contains(k) {
                        let j = choose|j: int| 0 <= j < pre.len() && pre[j] == k;
                        assert(ord@.take(i + 1)[j] == k);
                    }
                    if k == id {
                        assert(ord@.take(i + 1)[i as int] == id);
                    }
                }
            }
            i += 1;
        }
        proof {
            assert(ord@.take(ord@.len() as int) =~= ord@);
            if self.order@.len() > 0 {
                let x = self.order@[0];
                assert(self.order@.contains(x));
                assert(order0.contains(x));
                assert(ord@.contains(x));
            }
        }
        out
    }
}

#[verifier::spinoff_prover]
proof fn lemma_without(order: Seq<ScopeId>, id: ScopeId)
    requires
        distinct_ids(order),
    ensures
        distinct_ids(without(order, id)),
        forall|x: ScopeId| without(order, id).contains(x) <==> (order.contains(x) && x != id),
    decreases order.len(),
{
    let w = without(order, id);
    if order.len() == 0 {
        assert(w =~= Seq::<ScopeId>::empty());
    } else {
        let init = order.drop_last();
        let last = order.last();
        assert(order =~= init.push(last));
        assert(distinct_ids(init)) by {
            assert forall|i: int, j: int| 0 <= i < j < init.len() implies init[i] != init[j] by {
                assert(init[i] == order[i] && init[j] == order[j]);
            }
        }
        lemma_without(init, id);
        let wi = without(init, id);
        assert(!init.contains(last)) by {
            if init.contains(last) {
                let k = choose|k: int| 0 <= k < init.len() && init[k] == last;
                assert(order[k] == order[order.len() - 1]);
            }
        }
        if last != id {
            assert(w == wi.push(last));
            assert forall|a: int, b: int| 0 <= a < b < w.len() implies w[a] != w[b] by {
                if b == w.len() - 1 {
                    assert(wi.contains(w[a]));
                }
            }
            assert forall|x: ScopeId| w.contains(x) <==> (order.contains(x) && x != id) by {
                if w.contains(x) && x != last {
                    let k = choose|k: int| 0 <= k < w.len() && w[k] == x;
                    assert(k < wi.len());
                    assert(wi[k] == x);
                    assert(wi.contains(x));
                    assert(wi.contains(x) == (init.contains(x) && x != id));
                    assert(init.contains(x) && x != id);
                    let m = choose|m: int| 0 <= m < init.len() && init[m] == x;
                    assert(order[m] == x);
                }
                if order.contains(x) && x != id && x != last {
                    let m = choose|m: int| 0 <= m < order.len() && order[m] == x;
                    assert(init[m] == x);
                    assert(init.contains(x));
                    let k = choose|k: int| 0 <= k < wi.len() && wi[k] == x;
                    assert(w[k] == x);
                }
                if x == last {
                    assert(w[w.len() - 1] == last);
                    assert(order[order.len() - 1] == last);
                }
            }
        } else {
            assert(w == wi);
            assert forall|x: ScopeId| w.contains(x) <==> (order.contains(x) && x != id) by {
                if order.contains(x) && x != id {
                    let m = choose|m: int| 0 <= m < order.len() && order[m] == x;
                    assert(m < init.len());
                    assert(init[m] == x);
                    assert(init.contains(x));
                }
                if w.contains(x) {
                    assert(init.contains(x));
                    let m = choose|m: int| 0 <= m < init.len() && init[m] == x;
                    assert(order[m] == x);
                }
            }
        }
    }
}

/// The value stored under `key`, if any.
pub open spec fn lookup<V>(values: Seq<(String, V)>, key: Seq<char>) -> Option<V>
    decreases values.len(),
{
    if values.len() == 0 {
        None
    } else if values.last().0@ == key {
        Some(values.last().1)
    } else {
        lookup(values.drop_last(), key)
    }
}

impl<D, C, V> HostLifecycle<D, C, V> {
    fn find_key(&self, key: &Vec<char>) -> (r: Option<usize>)
        ensures
            r matches Some(i) ==> i < self.values@.len() && self.values@[i as int].0@ == key@
                && forall|j: int| i < j < self.values@.len() ==> self.values@[j].0@ != key@,
            r is None ==> forall|j: int| 0 <= j < self.values@.len() ==> self.values@[j].0@ != key@,
    {
        let mut i = self.values.len();
        while i > 0
            invariant
                i <= self.values@.len(),
                forall|j: int| i <= j < self.values@.len() ==> self.values@[j].0@ != key@,
            decreases i,
        {
            i -= 1;
            if chars_eq(&chars_of(self.values[i].0.as_str()), key) {
                return Some(i);
            }
        }
        None
    }

    /// The committed value under `key`.
    pub fn get(&self, key: &str) -> (r: Option<&V>)
        ensures
            r matches Some(v) ==> lookup(self.values@, key@) == Some(*v),
            r is None ==> lookup(self.values@, key@) is None,
    {
        let k = chars_of(key);
        match self.find_key(&k) {
            Some(i) => {
                proof {
                    lemma_lookup_at(self.values@, key@, i as int);
                }
                Some(&self.values[i].1)
            },
            None => {
                proof {
                    lemma_lookup_none(self.values@, key@);
                }
                None
            },
        }
    }

    /// Whether a value is stored under `key`.
    pub fn has(&self, key: &str) -> (b: bool)
        ensures
            b == lookup(self.values@, key@) is Some,
    {
        self.get(key).is_some()
    }

    /// The single committed write path: stores `value` under `key`, then
    /// names the mounted units that declared `key`, whose reactions fire
    /// (only those; an undeclared key fires nothing).
    pub fn set(&mut self, key: &str, value: V) -> (r: Vec<ScopeId>)
        requires
            old(self).wf(),
        ensures
            final(self).wf(),
            final(self).units@ == old(self).units@,
            final(self).order@ == old(self).order@,
            final(self).deps@ == old(self).deps@,
            lookup(final(self).values@, key@) == Some(value),
            forall|k: Seq<char>| k != key@ ==> #[trigger] lookup(final(self).values@, k) == lookup(old(self).values@, k),
            forall|id: ScopeId| r@.contains(id) <==> (id < old(self).units@.len() && old(self).units@[id as int].mounted
                && exists|k: int| 0 <= k < old(self).units@[id as int].reads@.len() && #[trigger] old(self).units@[id as int].reads@[k]@ == key@),
    {
        let ghost before = self.values@;
        let k = chars_of(key);
        match self.find_key(&k) {
            Some(i) => {
                self.values.set(i, (key.to_owned(), value));
                proof {
                    lemma_lookup_at(self.values@, key@, i as int);
                    assert forall|kk: Seq<char>| kk != key@ implies #[trigger] lookup(self.values@, kk) == lookup(before, kk) by {
                        lemma_lookup_update_other(before, i as int, self.values@[i as int], kk);
                    }
                }
            },
            None => {
                self.values.push((key.to_owned(), value));
                assert(self.values@.drop_last() =~= before);
                assert forall|kk: Seq<char>| kk != key@ implies #[trigger] lookup(self.values@, kk) == lookup(before, kk) by {}
            },
        }
        self.readers(key)
    }
}

proof fn lemma_lookup_at<V>(values: Seq<(String, V)>, key: Seq<char>, i: int)
    requires
        0 <= i < values.len(),
        values[i].0@ == key,
        forall|j: int| i < j < values.len() ==> values[j].0@ != key,
    ensures
        lookup(values, key) == Some(values[i].1),
    decreases values.len(),
{
    if i < values.len() - 1 {
        lemma_lookup_at(values.drop_last(), key, i);
    }
}

proof fn lemma_lookup_none<V>(values: Seq<(String, V)>, key: Seq<char>)
    requires
        forall|j: int| 0 <= j < values.len() ==> values[j].0@ != key,
    ensures
        lookup(values, key) is None,
    decreases values.len(),
{
    if values.len() > 0 {
        lemma_lookup_none(values.drop_last(), key);
    }
}

proof fn lemma_lookup_update_other<V>(values: Seq<(String, V)>, i: int, e: (String, V), k: Seq<char>)
    requires
        0 <= i < values.len(),
        values[i].0@ != k,
        e.0@ != k,
    ensures
        lookup(values.update(i, e), k) == lookup(values, k),
    decreases values.len(),
{
    let u = values.update(i, e);
    if i < values.len() - 1 {
        assert(u.drop_last() =~= values.drop_last().update(i, e));
        lemma_lookup_update_other(values.drop_last(), i, e, k);
    } else {
        assert(u.drop_last() =~= values.drop_last());
    }
}

/// What a read gives back of a write: after `set(key, v)` the value under
/// `key` is `v`, and every other key keeps its value.
pub proof fn law_read_after_write<V>(before: Seq<(String, V)>, after: Seq<(String, V)>, key: Seq<char>, v: V, other: Seq<char>)
    requires
        lookup(after, key) == Some(v),
        forall|k: Seq<char>| k != key ==> #[trigger] lookup(after, k) == lookup(before, k),
    ensures
        lookup(after, key) == Some(v),
        other != key ==> lookup(after, other) == lookup(before, other),
{
}
} // verus!
