//! Timers and tracked resources.
//!
//! A timer fires once, or every period, when its due time has come; the
//! host's clock gives the time in milliseconds. Resources are tracked
//! with their dispose action and disposed newest first.

use vstd::prelude::*;

use crate::text::{chars_eq, chars_of};

verus! {

/// A live timer: its id, due time, period (for an interval) and
/// callback.
pub struct TimerEntry<F> {
    pub id: u64,
    pub due: u64,
    pub period_ms: Option<u64>,
    pub func: F,
}

/// A timer as plain values: id, due time and period.
pub open spec fn timer_view<F>(t: TimerEntry<F>) -> (u64, u64, Option<u64>) {
    (t.id, t.due, t.period_ms)
}

/// The live timers and the next id.
pub struct TimerRegistry<F> {
    timers: Vec<TimerEntry<F>>,
    next_id: u64,
}

/// The timers that are due at `now`, as they fire: an interval with its
/// next due time, a one-shot as it was.
pub open spec fn fired(ts: Seq<(u64, u64, Option<u64>)>, now: u64) -> Seq<(u64, u64, Option<u64>)>
    decreases ts.len(),
{
    if ts.len() == 0 {
        Seq::empty()
    } else {
        let before = fired(ts.drop_last(), now);
        let t = ts.last();
        if t.1 <= now {
            match t.2 {
                Some(p) => before.push((t.0, (now + p) as u64, t.2)),
                None => before.push(t),
            }
        } else {
            before
        }
    }
}

/// The timers left after those due at `now` fired: intervals move to
/// their next due time, one-shots go.
pub open spec fn kept(ts: Seq<(u64, u64, Option<u64>)>, now: u64) -> Seq<(u64, u64, Option<u64>)>
    decreases ts.len(),
{
    if ts.len() == 0 {
        Seq::empty()
    } else {
        let before = kept(ts.drop_last(), now);
        let t = ts.last();
        if t.1 <= now {
            match t.2 {
                Some(p) => before.push((t.0, (now + p) as u64, t.2)),
                None => before,
            }
        } else {
            before.push(t)
        }
    }
}

/// The timers without the one with an id.
pub open spec fn without_id(ts: Seq<(u64, u64, Option<u64>)>, id: u64) -> Seq<(u64, u64, Option<u64>)>
    decreases ts.len(),
{
    if ts.len() == 0 {
        Seq::empty()
    } else {
        let before = without_id(ts.drop_last(), id);
        if ts.last().0 == id { before } else { before.push(ts.last()) }
    }
}

/// The earliest due time, if any timer is live.
pub open spec fn earliest(ts: Seq<(u64, u64, Option<u64>)>) -> Option<u64>
    decreases ts.len(),
{
    if ts.len() == 0 {
        None
    } else {
        match earliest(ts.drop_last()) {
            Some(d) => Some(if ts.last().1 < d { ts.last().1 } else { d }),
            None => Some(ts.last().1),
        }
    }
}

/// The earliest due time is none exactly when no timer is live, and
/// otherwise the due time of a live timer that no live timer's due time
/// undercuts.
pub proof fn law_earliest_is_least_due(ts: Seq<(u64, u64, Option<u64>)>)
    ensures
        earliest(ts) is None <==> ts.len() == 0,
        earliest(ts) matches Some(d) ==> (exists|i: int| 0 <= i < ts.len() && #[trigger] ts[i].1 == d)
            && forall|i: int| 0 <= i < ts.len() ==> d <= #[trigger] ts[i].1,
    decreases ts.len(),
{
    if ts.len() > 0 {
        let init = ts.drop_last();
        law_earliest_is_least_due(init);
        assert forall|i: int| 0 <= i < init.len() implies #[trigger] init[i] == ts[i] by {}
        match earliest(init) {
            Some(d) => {
                let j = choose|j: int| 0 <= j < init.len() && #[trigger] init[j].1 == d;
                assert(ts[j].1 == d);
                let last = ts.len() - 1;
                if ts.last().1 < d {
                    assert(ts[last].1 == ts.last().1);
                }
                assert forall|i: int| 0 <= i < ts.len() implies earliest(ts)->0 <= #[trigger] ts[i].1 by {
                    if i < last {
                        assert(init[i].1 == ts[i].1);
                    }
                }
            },
            None => {
                assert(ts[0].1 == ts.last().1);
            },
        }
    }
}

impl<F> TimerRegistry<F> {
    /// The live timers as plain values, in the order they were set.
    pub closed spec fn timers(self) -> Seq<(u64, u64, Option<u64>)> {
        Seq::new(self.timers@.len(), |i: int| timer_view(self.timers@[i]))
    }

    /// The id the next timer gets.
    pub closed spec fn next(self) -> u64 {
        self.next_id
    }

    /// Whether the timers' ids are all below the next id.
    pub open spec fn wf(self) -> bool {
        forall|i: int| 0 <= i < self.timers().len() ==> (#[trigger] self.timers()[i]).0 < self.next()
    }

    /// No timers; ids start at 1.
    pub fn new() -> (r: Self)
        ensures
            r.timers() == Seq::<(u64, u64, Option<u64>)>::empty(),
            r.next() == 1,
            r.wf(),
    {
        let r = TimerRegistry { timers: Vec::new(), next_id: 1 };
        assert(r.timers() =~= Seq::<(u64, u64, Option<u64>)>::empty());
        r
    }

    /// Sets a timer at `now`: a one-shot due now, or an interval due a
    /// period from now. Returns its id, the next one.
    pub fn set(&mut self, now: u64, period_ms: Option<u64>, func: F) -> (id: u64)
        requires
            old(self).next() < u64::MAX,
            now + match period_ms { Some(p) => p, None => 0u64 } <= u64::MAX,
            old(self).wf(),
        ensures
            id == old(self).next(),
            final(self).next() == id + 1,
            final(self).timers() == old(self).timers().push((id, (now + match period_ms { Some(p) => p, None => 0u64 }) as u64, period_ms)),
            final(self).wf(),
    {
        let id = self.next_id;
        self.next_id = id + 1;
        let delay = match period_ms {
            Some(p) => p,
            None => 0,
        };
        let ghost before = self.timers();
        self.timers.push(TimerEntry { id, due: now + delay, period_ms, func });
        assert(self.timers() =~= before.push((id, (now + delay) as u64, period_ms)));
        id
    }

    /// Clears a timer; whether one had the id.
    pub fn clear(&mut self, id: u64) -> (r: bool)
        ensures
            r == exists|i: int| 0 <= i < old(self).timers().len() && old(self).timers()[i].0 == id,
            final(self).timers() == without_id(old(self).timers(), id),
            final(self).next() == old(self).next(),
            old(self).wf() ==> final(self).wf(),
    {
        let ghost ts = self.timers();
        let mut old_timers: Vec<TimerEntry<F>> = Vec::new();
        std::mem::swap(&mut old_timers, &mut self.timers);
        let ghost src = old_timers@;
        let mut found = false;
        let mut kept_timers: Vec<TimerEntry<F>> = Vec::new();
        let mut i: usize = 0;
        let n = old_timers.len();
        let mut rest = old_timers;
        assert(rest@ =~= src.subrange(0, n as int));
        assert(ts.take(0) =~= Seq::<(u64, u64, Option<u64>)>::empty());
        while rest.len() > 0
            invariant
                i + rest@.len() == n,
                n == src.len(),
                ts == Seq::new(src.len(), |k: int| timer_view(src[k])),
                rest@ == src.subrange(i as int, n as int),
                Seq::new(kept_timers@.len(), |k: int| timer_view(kept_timers@[k])) == without_id(ts.take(i as int), id),
                found == exists|k: int| 0 <= k < i && ts[k].0 == id,
            decreases rest@.len(),
        {
            let t = rest.remove(0);
            assert(t == src[i as int]);
            assert(rest@ =~= src.subrange(i + 1, n as int));
            assert(ts.take(i + 1).drop_last() =~= ts.take(i as int));
            assert(ts.take(i + 1).last() == timer_view(t));
            let ghost before = Seq::new(kept_timers@.len(), |k: int| timer_view(kept_timers@[k]));
            if t.id == id {
                found = true;
            } else {
                kept_timers.push(t);
                assert(Seq::new(kept_timers@.len(), |k: int| timer_view(kept_timers@[k])) =~= before.push(timer_view(t)));
            }
            i += 1;
        }
        assert(ts.take(n as int) =~= ts);
        self.timers = kept_timers;
        proof {
            if old(self).wf() {
                lemma_without_ids(ts, id, old(self).next());
            }
        }
        found
    }

    /// The number of live timers.
    pub fn count(&self) -> (r: usize)
        ensures
            r == self.timers().len(),
    {
        self.timers.len()
    }

    /// The earliest due time, if any timer is live.
    pub fn next_due(&self) -> (r: Option<u64>)
        ensures
            r == earliest(self.timers()),
            r is None <==> self.timers().len() == 0,
            r matches Some(d) ==> (exists|i: int| 0 <= i < self.timers().len() && #[trigger] self.timers()[i].1 == d)
                && forall|i: int| 0 <= i < self.timers().len() ==> d <= #[trigger] self.timers()[i].1,
    {
        proof {
            law_earliest_is_least_due(self.timers());
        }
        let ghost ts = self.timers();
        let mut best: Option<u64> = None;
        let mut i: usize = 0;
        assert(ts.take(0) =~= Seq::<(u64, u64, Option<u64>)>::empty());
        while i < self.timers.len()
            invariant
                i <= self.timers@.len(),
                ts == self.timers(),
                best == earliest(ts.take(i as int)),
            decreases self.timers@.len() - i,
        {
            assert(ts.take(i + 1).drop_last() =~= ts.take(i as int));
            let d = self.timers[i].due;
            best = match best {
                Some(b) => Some(if d < b { d } else { b }),
                None => Some(d),
            };
            i += 1;
        }
        assert(ts.take(ts.len() as int) =~= ts);
        best
    }

    /// Removes every timer; how many there were.
    pub fn dispose_all(&mut self) -> (r: usize)
        ensures
            r == old(self).timers().len(),
            final(self).timers() == Seq::<(u64, u64, Option<u64>)>::empty(),
            final(self).next() == old(self).next(),
            final(self).wf(),
    {
        let n = self.timers.len();
        self.timers = Vec::new();
        assert(self.timers() =~= Seq::<(u64, u64, Option<u64>)>::empty());
        n
    }
}

proof fn lemma_without_ids(ts: Seq<(u64, u64, Option<u64>)>, id: u64, next: u64)
    requires
        forall|i: int| 0 <= i < ts.len() ==> (#[trigger] ts[i]).0 < next,
    ensures
        forall|i: int| 0 <= i < without_id(ts, id).len() ==> (#[trigger] without_id(ts, id)[i]).0 < next,
    decreases ts.len(),
{
    if ts.len() > 0 {
        let init = ts.drop_last();
        assert forall|i: int| 0 <= i < init.len() implies (#[trigger] init[i]).0 < next by {
            assert(init[i] == ts[i]);
        }
        lemma_without_ids(init, id, next);
        let w = without_id(ts, id);
        let b = without_id(init, id);
        assert forall|i: int| 0 <= i < w.len() implies (#[trigger] w[i]).0 < next by {
            if i < b.len() {
                assert(w[i] == b[i]);
            } else {
                assert(w[i] == ts.last());
                assert(ts[ts.len() - 1] == ts.last());
            }
        }
    }
}

impl<F: Clone> TimerRegistry<F> {
    /// Fires the timers due at `now`: one-shots leave, intervals move to
    /// their next due time (and fire with it); the rest stay. The fired
    /// timers come in the order they were set.
    pub fn take_due(&mut self, now: u64) -> (r: Vec<TimerEntry<F>>)
        requires
            forall|i: int| 0 <= i < old(self).timers().len() ==> ((#[trigger] old(self).timers()[i]).2 matches Some(p) ==> now + p <= u64::MAX),
        ensures
            Seq::new(r@.len(), |i: int| timer_view(r@[i])) == fired(old(self).timers(), now),
            final(self).timers() == kept(old(self).timers(), now),
            final(self).next() == old(self).next(),
    {
        let ghost ts = self.timers();
        let mut rest: Vec<TimerEntry<F>> = Vec::new();
        std::mem::swap(&mut rest, &mut self.timers);
        let ghost src = rest@;
        let n = rest.len();
        assert(rest@ =~= src.subrange(0, n as int));
        let mut due: Vec<TimerEntry<F>> = Vec::new();
        let mut keep: Vec<TimerEntry<F>> = Vec::new();
        let mut i: usize = 0;
        assert(ts.take(0) =~= Seq::<(u64, u64, Option<u64>)>::empty());
        while rest.len() > 0
            invariant
                i + rest@.len() == n,
                n == src.len(),
                ts == Seq::new(src.len(), |k: int| timer_view(src[k])),
                forall|k: int| 0 <= k < ts.len() ==> ((#[trigger] ts[k]).2 matches Some(p) ==> now + p <= u64::MAX),
                rest@ == src.subrange(i as int, n as int),
                Seq::new(due@.len(), |k: int| timer_view(due@[k])) == fired(ts.take(i as int), now),
                Seq::new(keep@.len(), |k: int| timer_view(keep@[k])) == kept(ts.take(i as int), now),
            decreases rest@.len(),
        {
            let t = rest.remove(0);
            assert(t == src[i as int]);
            assert(rest@ =~= src.subrange(i + 1, n as int));
            assert(ts.take(i + 1).drop_last() =~= ts.take(i as int));
            assert(ts.take(i + 1).last() == timer_view(t));
            assert(ts[i as int] == timer_view(t));
            let ghost bd = Seq::new(due@.len(), |k: int| timer_view(due@[k]));
            let ghost bk = Seq::new(keep@.len(), |k: int| timer_view(keep@[k]));
            if t.due <= now {
                match t.period_ms {
                    Some(p) => {
                        let next_due = now + p;
                        let copy = TimerEntry { id: t.id, due: next_due, period_ms: t.period_ms, func: t.func.clone() };
                        due.push(copy);
                        keep.push(TimerEntry { id: t.id, due: next_due, period_ms: t.period_ms, func: t.func });
                        assert(Seq::new(due@.len(), |k: int| timer_view(due@[k])) =~= bd.push((t.id, next_due, t.period_ms)));
                        assert(Seq::new(keep@.len(), |k: int| timer_view(keep@[k])) =~= bk.push((t.id, next_due, t.period_ms)));
                    },
                    None => {
                        let ghost tv = timer_view(t);
                        due.push(t);
                        assert(Seq::new(due@.len(), |k: int| timer_view(due@[k])) =~= bd.push(tv));
                    },
                }
            } else {
                let ghost tv = timer_view(t);
                keep.push(t);
                assert(Seq::new(keep@.len(), |k: int| timer_view(keep@[k])) =~= bk.push(tv));
            }
            i += 1;
        }
        assert(ts.take(n as int) =~= ts);
        self.timers = keep;
        due
    }
}

// ---------------------------------------------------------------------------
// Tracked resources
// ---------------------------------------------------------------------------

/// A tracked resource: its kind, label and dispose action.
pub struct Resource<D> {
    pub kind: String,
    pub label: String,
    pub dispose: D,
}

/// The tracked resources, in registration order.
pub struct ResourceRegistry<D> {
    resources: Vec<Resource<D>>,
}

/// The resources as plain values: kind and label.
pub open spec fn resource_labels<D>(rs: Seq<Resource<D>>) -> Seq<(Seq<char>, Seq<char>)> {
    Seq::new(rs.len(), |i: int| (rs[i].kind@, rs[i].label@))
}

/// The resources without those of a kind and label.
pub open spec fn without_resource(rs: Seq<(Seq<char>, Seq<char>)>, kind: Seq<char>, label: Seq<char>) -> Seq<(Seq<char>, Seq<char>)>
    decreases rs.len(),
{
    if rs.len() == 0 {
        Seq::empty()
    } else {
        let before = without_resource(rs.drop_last(), kind, label);
        if rs.last() == (kind, label) { before } else { before.push(rs.last()) }
    }
}

/// The resources with their dispose actions.
pub open spec fn resource_entries<D>(rs: Seq<Resource<D>>) -> Seq<(Seq<char>, Seq<char>, D)> {
    Seq::new(rs.len(), |i: int| (rs[i].kind@, rs[i].label@, rs[i].dispose))
}

/// The entries without those of a kind and label.
pub open spec fn without_entry<D>(es: Seq<(Seq<char>, Seq<char>, D)>, kind: Seq<char>, label: Seq<char>) -> Seq<(Seq<char>, Seq<char>, D)>
    decreases es.len(),
{
    if es.len() == 0 {
        Seq::empty()
    } else {
        let before = without_entry(es.drop_last(), kind, label);
        if es.last().0 == kind && es.last().1 == label { before } else { before.push(es.last()) }
    }
}

/// The dispose actions of the entries, newest first.
pub open spec fn disposes_newest_first<D>(es: Seq<(Seq<char>, Seq<char>, D)>) -> Seq<D> {
    Seq::new(es.len(), |j: int| es[es.len() - 1 - j].2)
}

impl<D> ResourceRegistry<D> {
    /// The tracked resources as plain values, in registration order.
    pub closed spec fn held(self) -> Seq<(Seq<char>, Seq<char>)> {
        resource_labels(self.resources@)
    }

    /// The tracked resources with their dispose actions, in registration order.
    pub closed spec fn entries(self) -> Seq<(Seq<char>, Seq<char>, D)> {
        resource_entries(self.resources@)
    }

    /// Nothing tracked.
    pub fn new() -> (r: Self)
        ensures
            r.held() == Seq::<(Seq<char>, Seq<char>)>::empty(),
            r.entries() == Seq::<(Seq<char>, Seq<char>, D)>::empty(),
    {
        let r = ResourceRegistry { resources: Vec::new() };
        assert(r.held() =~= Seq::<(Seq<char>, Seq<char>)>::empty());
        assert(r.entries() =~= Seq::<(Seq<char>, Seq<char>, D)>::empty());
        r
    }

    /// Tracks a resource.
    pub fn register(&mut self, kind: &str, label: String, dispose: D)
        ensures
            final(self).held() == old(self).held().push((kind@, label@)),
            final(self).entries() == old(self).entries().push((kind@, label@, dispose)),
    {
        let ghost before = self.held();
        let ghost before_e = self.entries();
        let ghost lv = label@;
        let ghost dv = dispose;
        self.resources.push(Resource { kind: crate::text::string_of(chars_of(kind).as_slice()), label, dispose });
        assert(self.held() =~= before.push((kind@, lv)));
        assert(self.entries() =~= before_e.push((kind@, lv, dv)));
    }

    /// The kinds and labels of the tracked resources.
    pub fn list(&self) -> (r: Vec<(String, String)>)
        ensures
            Seq::new(r@.len(), |i: int| (r@[i].0@, r@[i].1@)) == self.held(),
    {
        let mut out: Vec<(String, String)> = Vec::new();
        let mut i: usize = 0;
        while i < self.resources.len()
            invariant
                i <= self.resources@.len(),
                out@.len() == i,
                forall|k: int| 0 <= k < i ==> (#[trigger] out@[k]).0@ == self.resources@[k].kind@ && out@[k].1@ == self.resources@[k].label@,
            decreases self.resources@.len() - i,
        {
            out.push((self.resources[i].kind.clone(), self.resources[i].label.clone()));
            i += 1;
        }
        assert(Seq::new(out@.len(), |i: int| (out@[i].0@, out@[i].1@)) =~= self.held());
        out
    }

    /// The number of tracked resources.
    pub fn len(&self) -> (r: usize)
        ensures
            r == self.held().len(),
    {
        self.resources.len()
    }

    /// Stops tracking every resource of a kind and label; whether any
    /// was tracked.
    pub fn unregister(&mut self, kind: &str, label: &str) -> (r: bool)
        ensures
            final(self).held() == without_resource(old(self).held(), kind@, label@),
            final(self).entries() == without_entry(old(self).entries(), kind@, label@),
            r == (final(self).held().len() != old(self).held().len()),
    {
        let ghost ts = self.held();
        let ghost es = self.entries();
        let mut rest: Vec<Resource<D>> = Vec::new();
        std::mem::swap(&mut rest, &mut self.resources);
        let ghost src = rest@;
        let n = rest.len();
        assert(rest@ =~= src.subrange(0, n as int));
        let k = chars_of(kind);
        let l = chars_of(label);
        let mut keep: Vec<Resource<D>> = Vec::new();
        let mut i: usize = 0;
        assert(ts.take(0) =~= Seq::<(Seq<char>, Seq<char>)>::empty());
        assert(es.take(0) =~= Seq::<(Seq<char>, Seq<char>, D)>::empty());
        while rest.len() > 0
            invariant
                i + rest@.len() == n,
                n == src.len(),
                ts == resource_labels(src),
                es == resource_entries(src),
                resource_entries(keep@) == without_entry(es.take(i as int), kind@, label@),
                k@ == kind@,
                l@ == label@,
                rest@ == src.subrange(i as int, n as int),
                resource_labels(keep@) == without_resource(ts.take(i as int), kind@, label@),
                keep@.len() <= i,
            decreases rest@.len(),
        {
            let res = rest.remove(0);
            assert(res == src[i as int]);
            assert(rest@ =~= src.subrange(i + 1, n as int));
            assert(ts.take(i + 1).drop_last() =~= ts.take(i as int));
            assert(ts.take(i + 1).last() == (res.kind@, res.label@));
            assert(es.take(i + 1).drop_last() =~= es.take(i as int));
            assert(es.take(i + 1).last() == (res.kind@, res.label@, res.dispose));
            let ghost before = resource_labels(keep@);
            let ghost before_e = resource_entries(keep@);
            let matches = chars_eq(&chars_of(res.kind.as_str()), &k) && chars_eq(&chars_of(res.label.as_str()), &l);
            if !matches {
                let ghost rv = (res.kind@, res.label@);
                let ghost ev = (res.kind@, res.label@, res.dispose);
                keep.push(res);
                assert(resource_labels(keep@) =~= before.push(rv));
                assert(resource_entries(keep@) =~= before_e.push(ev));
            }
            i += 1;
        }
        assert(ts.take(n as int) =~= ts);
        assert(es.take(n as int) =~= es);
        let changed = keep.len() != n;
        self.resources = keep;
        changed
    }

    /// Stops tracking every resource and gives back their dispose actions,
    /// newest first (children before parents).
    pub fn dispose_all(&mut self) -> (r: Vec<D>)
        ensures
            r@ == disposes_newest_first(old(self).entries()),
            final(self).held() == Seq::<(Seq<char>, Seq<char>)>::empty(),
            final(self).entries() == Seq::<(Seq<char>, Seq<char>, D)>::empty(),
    {
        let mut rest: Vec<Resource<D>> = Vec::new();
        std::mem::swap(&mut rest, &mut self.resources);
        let ghost src = rest@;
        let n = rest.len();
        let mut out: Vec<D> = Vec::new();
        while rest.len() > 0
            invariant
                out@.len() + rest@.len() == n,
                n == src.len(),
                rest@ == src.take(rest@.len() as int),
                forall|j: int| 0 <= j < out@.len() ==> #[trigger] out@[j] == src[n - 1 - j].dispose,
            decreases rest@.len(),
        {
            let ghost before = rest@;
            let res = rest.pop().unwrap();
            assert(res == src[n - 1 - out@.len()]);
            assert(rest@ =~= src.take(rest@.len() as int));
            out.push(res.dispose);
        }
        assert(self.held() =~= Seq::<(Seq<char>, Seq<char>)>::empty());
        assert(self.entries() =~= Seq::<(Seq<char>, Seq<char>, D)>::empty());
        assert(out@ =~= disposes_newest_first(resource_entries(src)));
        out
    }
}

} // verus!
