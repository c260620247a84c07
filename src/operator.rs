use vstd::prelude::*;

use vstd::laws_eq::obeys_concrete_eq;

use crate::consolidate::{all_nonzero, lemma_merge_all_nonzero, merge_all, merge_batch};
use crate::frontier::{is_closed, less_equal};
use crate::history::{keys_sorted, KeyHistory};
use crate::order::{sort_by_key, sort_requests};
use crate::propose::{
    bucket_fits, bucket_fits_check, bucket_output, pending, process_bucket, Proposal, Request,
};

verus! {

/// The requests buffered under one retained capability.
pub struct Bucket<P> {
    pub cap: u64,
    pub entries: Vec<Request<P>>,
}

/// The proposal operator's state between rounds: the stash of buffered
/// requests, one bucket per retained capability, and whether the trace
/// handle is still held.
pub struct Proposer<P> {
    buckets: Vec<Bucket<P>>,
    trace_held: bool,
}

/// Distinct capabilities, no empty bucket, no request of zero multiplicity.
pub open spec fn stash_wf<P>(stash: Seq<(u64, Seq<Request<P>>)>) -> bool {
    &&& forall|a: int, b: int|
        0 <= a < b < stash.len() ==> (#[trigger] stash[a]).0 != (#[trigger] stash[b]).0
    &&& forall|a: int| 0 <= a < stash.len() ==> (#[trigger] stash[a]).1.len() > 0
    &&& forall|a: int, k: int|
        0 <= a < stash.len() && 0 <= k < stash[a].1.len() ==> (#[trigger] stash[a].1[k]).diff != 0
}

/// What one bucket becomes after a round at `frontier`: a bucket whose
/// capability is closed is sorted by key and keeps its pending requests, and
/// goes when none is left.
pub open spec fn bucket_after<P>(b: (u64, Seq<Request<P>>), frontier: Seq<u64>) -> Seq<(u64, Seq<Request<P>>)> {
    let kept = if is_closed(frontier, b.0) {
        pending(sort_by_key(b.1), frontier)
    } else {
        b.1
    };
    if kept.len() > 0 {
        seq![(b.0, kept)]
    } else {
        Seq::empty()
    }
}

/// The stash after a round at `frontier`.
pub open spec fn stash_after<P>(stash: Seq<(u64, Seq<Request<P>>)>, frontier: Seq<u64>) -> Seq<(u64, Seq<Request<P>>)>
    decreases stash.len(),
{
    if stash.len() == 0 {
        Seq::empty()
    } else {
        stash_after(stash.drop_last(), frontier) + bucket_after(stash.last(), frontier)
    }
}

/// The output of a round: for each bucket whose capability is closed, in
/// stash order, the proposals of its requests sorted by key, each paired
/// with the capability it is sent under.
pub open spec fn round_output<P, V>(
    stash: Seq<(u64, Seq<Request<P>>)>,
    frontier: Seq<u64>,
    trace: Seq<KeyHistory<V>>,
) -> Seq<(u64, Proposal<P, V>)>
    decreases stash.len(),
{
    if stash.len() == 0 {
        Seq::empty()
    } else {
        let b = stash.last();
        round_output(stash.drop_last(), frontier, trace) + if is_closed(frontier, b.0) {
            bucket_output(sort_by_key(b.1), frontier, trace).map_values(|p: Proposal<P, V>| (b.0, p))
        } else {
            Seq::empty()
        }
    }
}

/// Every bucket processed at `frontier` has products that fit in an `i64`.
pub open spec fn round_fits<P, V>(
    stash: Seq<(u64, Seq<Request<P>>)>,
    frontier: Seq<u64>,
    trace: Seq<KeyHistory<V>>,
) -> bool {
    forall|a: int|
        0 <= a < stash.len() && is_closed(frontier, (#[trigger] stash[a]).0) ==> bucket_fits(
            stash[a].1,
            frontier,
            trace,
        )
}

impl<P: Copy> Proposer<P> {
    /// The buffered requests, one `(capability, requests)` pair per bucket.
    pub closed spec fn stash(&self) -> Seq<(u64, Seq<Request<P>>)> {
        self.buckets@.map_values(|b: Bucket<P>| (b.cap, b.entries@))
    }

    /// Whether the trace handle is still held.
    pub closed spec fn trace_held(&self) -> bool {
        self.trace_held
    }

    /// The stash is well formed.
    pub open spec fn wf(&self) -> bool {
        stash_wf(self.stash())
    }

    /// An operator holding its trace, with nothing buffered.
    pub fn new() -> (r: Self)
        ensures
            r.wf(),
            r.stash() == Seq::<(u64, Seq<Request<P>>)>::empty(),
            r.trace_held(),
    {
        let r = Proposer { buckets: Vec::new(), trace_held: true };
        assert(r.stash() =~= Seq::<(u64, Seq<Request<P>>)>::empty());
        r
    }

    /// Whether the trace handle is still held.
    pub fn holds_trace(&self) -> (r: bool)
        ensures
            r == self.trace_held(),
    {
        self.trace_held
    }

    /// Whether nothing is buffered.
    pub fn stash_is_empty(&self) -> (r: bool)
        ensures
            r == (self.stash().len() == 0),
    {
        self.buckets.len() == 0
    }
}

impl<P: Copy + PartialEq> Proposer<P> {
    /// Buffers a batch of requests under capability `cap`. The batch is
    /// merged into the bucket of `cap` (opened if the stash has none):
    /// requests for the same prefix, key and time add up, and a request whose
    /// multiplicity sums to zero is gone. A bucket left empty is released.
    pub fn stash_requests(&mut self, cap: u64, batch: &Vec<Request<P>>)
        requires
            old(self).wf(),
            obeys_concrete_eq::<P>(),
        ensures
            final(self).wf(),
            final(self).trace_held() == old(self).trace_held(),
            forall|a: int|
                0 <= a < old(self).stash().len() && (#[trigger] old(self).stash()[a]).0 == cap ==> {
                    let m = merge_all(old(self).stash()[a].1, batch@);
                    &&& m.len() > 0 ==> final(self).stash() == old(self).stash().update(a, (cap, m))
                    &&& m.len() == 0 ==> final(self).stash() == old(self).stash().remove(a)
                },
            (forall|a: int| 0 <= a < old(self).stash().len() ==> (#[trigger] old(self).stash()[a]).0 != cap)
                ==> {
                let m = merge_all(Seq::empty(), batch@);
                &&& m.len() > 0 ==> final(self).stash() == old(self).stash().push((cap, m))
                &&& m.len() == 0 ==> final(self).stash() == old(self).stash()
            },
    {
        let ghost before = self.stash();
        let mut i: usize = 0;
        while i < self.buckets.len()
            invariant
                i <= self.buckets@.len(),
                before == self.stash(),
                before == old(self).stash(),
                self.trace_held == old(self).trace_held,
                stash_wf(before),
                obeys_concrete_eq::<P>(),
                forall|a: int| 0 <= a < i ==> (#[trigger] before[a]).0 != cap,
            decreases self.buckets@.len() - i,
        {
            assert(before[i as int].0 == self.buckets@[i as int].cap);
            if self.buckets[i].cap == cap {
                assert(old(self).stash()[i as int].0 == cap);
                proof {
                    assert(all_nonzero(before[i as int].1));
                    lemma_merge_all_nonzero(before[i as int].1, batch@);
                }
                merge_batch(&mut self.buckets[i].entries, batch);
                let ghost m = merge_all(before[i as int].1, batch@);
                if self.buckets[i].entries.len() == 0 {
                    let ghost pre = self.stash();
                    self.buckets.remove(i);
                    assert(pre =~= before.update(i as int, (cap, m)));
                    let ghost after = before.remove(i as int);
                    assert(self.stash() =~= after);
                    assert forall|a: int, b: int| 0 <= a < b < after.len() implies (#[trigger] after[a]).0 != (#[trigger] after[b]).0 by {
                        let x = if a < i { a } else { a + 1 };
                        let y = if b < i { b } else { b + 1 };
                        assert(after[a] == before[x] && after[b] == before[y]);
                    }
                    assert forall|a: int| 0 <= a < after.len() implies (#[trigger] after[a]).1.len() > 0 by {
                        let x = if a < i { a } else { a + 1 };
                        assert(after[a] == before[x]);
                    }
                    assert forall|a: int, k: int| 0 <= a < after.len() && 0 <= k < after[a].1.len() implies (#[trigger] after[a].1[k]).diff != 0 by {
                        let x = if a < i { a } else { a + 1 };
                        assert(after[a] == before[x]);
                    }
                } else {
                    let ghost after = before.update(i as int, (cap, m));
                    assert(self.stash() =~= after);
                    assert forall|a: int, k: int| 0 <= a < after.len() && 0 <= k < after[a].1.len() implies (#[trigger] after[a].1[k]).diff != 0 by {
                        if a != i {
                            assert(after[a] == before[a]);
                        }
                    }
                }
                return;
            }
            i = i + 1;
        }
        let mut fresh: Vec<Request<P>> = Vec::new();
        assert(fresh@ =~= Seq::<Request<P>>::empty());
        merge_batch(&mut fresh, batch);
        proof {
            assert(all_nonzero(Seq::<Request<P>>::empty()));
            lemma_merge_all_nonzero(Seq::<Request<P>>::empty(), batch@);
        }
        if fresh.len() == 0 {
            return;
        }
        let ghost added = fresh@;
        self.buckets.push(Bucket { cap, entries: fresh });
        let ghost after = before.push((cap, added));
        assert(self.stash() =~= after);
        assert forall|a: int, k: int|
            0 <= a < after.len() && 0 <= k < after[a].1.len() implies (#[trigger] after[a].1[k]).diff != 0 by {
            if a < before.len() {
                assert(after[a] == before[a]);
            }
        }
    }
}

impl<P: Copy> Proposer<P> {
    /// Checks `round_fits` on the stash.
    pub fn round_fits_check<V: Copy>(&self, frontier: &Vec<u64>, trace: &Vec<KeyHistory<V>>) -> (r: bool)
        requires
            keys_sorted(trace@),
        ensures
            r == round_fits(self.stash(), frontier@, trace@),
    {
        let mut a: usize = 0;
        while a < self.buckets.len()
            invariant
                a <= self.buckets@.len(),
                keys_sorted(trace@),
                forall|b: int|
                    0 <= b < a && is_closed(frontier@, (#[trigger] self.stash()[b]).0) ==> bucket_fits(
                        self.stash()[b].1,
                        frontier@,
                        trace@,
                    ),
            decreases self.buckets@.len() - a,
        {
            let b = &self.buckets[a];
            assert(self.stash()[a as int] == (b.cap, b.entries@));
            if !less_equal(frontier, b.cap) && !bucket_fits_check(&b.entries, frontier, trace) {
                return false;
            }
            a = a + 1;
        }
        true
    }

    /// One round of the operator, once the arriving requests are stashed.
    /// `frontier` is the trace input's frontier, `trace` the histories of the
    /// keys that the requests probe, in key order, and `input_done` says that
    /// the prefix input's frontier is empty.
    ///
    /// While the trace is held, every bucket whose capability is closed is
    /// processed: its requests are sorted by key, those at closed times are
    /// answered in that order and dropped; buckets left empty are released. When then the prefix
    /// input is done and nothing is buffered, the trace is released for good.
    /// `None` means that some multiplicity of the round would overflow an
    /// `i64`; nothing is changed then.
    pub fn process_round<V: Copy>(
        &mut self,
        input_done: bool,
        frontier: &Vec<u64>,
        trace: &Vec<KeyHistory<V>>,
    ) -> (r: Option<Vec<(u64, Proposal<P, V>)>>)
        requires
            old(self).wf(),
            keys_sorted(trace@),
        ensures
            final(self).wf(),
            !old(self).trace_held() ==> r.is_some() && r.unwrap()@.len() == 0
                && final(self).stash() == old(self).stash() && !final(self).trace_held(),
            old(self).trace_held() && !round_fits(old(self).stash(), frontier@, trace@) ==> r.is_none()
                && final(self).stash() == old(self).stash() && final(self).trace_held(),
            old(self).trace_held() && round_fits(old(self).stash(), frontier@, trace@) ==> r.is_some()
                && r.unwrap()@ == round_output(old(self).stash(), frontier@, trace@)
                && final(self).stash() == stash_after(old(self).stash(), frontier@)
                && final(self).trace_held() == !(input_done && stash_after(old(self).stash(), frontier@).len() == 0),
            r.is_some() ==> forall|k: int|
                0 <= k < r.unwrap()@.len() ==> is_closed(frontier@, (#[trigger] r.unwrap()@[k]).1.time)
                    && r.unwrap()@[k].1.diff != 0,
    {
        if !self.trace_held {
            return Some(Vec::new());
        }
        if !self.round_fits_check(frontier, trace) {
            return None;
        }
        let ghost orig = self.stash();
        let mut out: Vec<(u64, Proposal<P, V>)> = Vec::new();
        let mut a: usize = 0;
        let ghost mut n: int = 0;
        assert(orig.take(0) =~= Seq::<(u64, Seq<Request<P>>)>::empty());
        assert(orig.skip(0) =~= orig);
        assert(self.stash() =~= stash_after(orig.take(0), frontier@) + orig.skip(0));
        while a < self.buckets.len()
            invariant
                0 <= n <= orig.len(),
                a == stash_after(orig.take(n), frontier@).len(),
                self.stash() == stash_after(orig.take(n), frontier@) + orig.skip(n),
                out@ == round_output(orig.take(n), frontier@, trace@),
                round_fits(orig, frontier@, trace@),
                keys_sorted(trace@),
                stash_wf(orig),
                self.trace_held,
            decreases orig.len() - n,
        {
            proof {
                assert(self.stash()[a as int] == orig[n]);
                assert(orig.take(n + 1).drop_last() =~= orig.take(n));
                assert(orig.take(n + 1).last() == orig[n]);
            }
            let cap = self.buckets[a].cap;
            if !less_equal(frontier, cap) {
                let sorted = sort_requests(&self.buckets[a].entries);
                proof {
                    crate::laws::lemma_fits_sorted(orig[n].1, frontier@, trace@);
                }
                let mut props: Vec<Proposal<P, V>> = Vec::new();
                let rest = process_bucket(&sorted, frontier, trace, &mut props);
                let mut k: usize = 0;
                let ghost start = out@;
                while k < props.len()
                    invariant
                        k <= props@.len(),
                        out@ == start + props@.take(k as int).map_values(|p: Proposal<P, V>| (cap, p)),
                    decreases props@.len() - k,
                {
                    out.push((cap, props[k]));
                    assert(props@.take(k + 1) =~= props@.take(k as int).push(props@[k as int]));
                    assert(out@ =~= start + props@.take(k + 1).map_values(|p: Proposal<P, V>| (cap, p)));
                    k = k + 1;
                }
                assert(props@.take(k as int) =~= props@);
                if rest.len() == 0 {
                    let ghost pre = self.stash();
                    self.buckets.remove(a);
                    assert(self.stash() =~= pre.remove(a as int));
                } else {
                    let ghost pre = self.stash();
                    self.buckets[a].entries = rest;
                    assert(self.stash() =~= pre.update(a as int, (cap, pending(sort_by_key(orig[n].1), frontier@))));
                    a = a + 1;
                }
            } else {
                a = a + 1;
            }
            proof {
                assert(out@ =~= round_output(orig.take(n + 1), frontier@, trace@));
                assert(orig.skip(n) =~= seq![orig[n]] + orig.skip(n + 1));
                n = n + 1;
                assert(self.stash() =~= stash_after(orig.take(n), frontier@) + orig.skip(n));
            }
        }
        assert(orig.take(n) =~= orig);
        proof {
            lemma_stash_after_wf(orig, frontier@);
            crate::laws::lemma_round_shape(orig, frontier@, trace@);
        }
        if input_done && self.buckets.len() == 0 {
            self.trace_held = false;
        }
        Some(out)
    }
}

/// Whether a round at `frontier` answers the request `j` of bucket `a`.
pub open spec fn answers<P>(stash: Seq<(u64, Seq<Request<P>>)>, frontier: Seq<u64>, a: int, j: int) -> bool {
    &&& 0 <= a < stash.len()
    &&& 0 <= j < stash[a].1.len()
    &&& is_closed(frontier, stash[a].0)
    &&& is_closed(frontier, stash[a].1[j].time)
}

/// Whether a round at `frontier` answers some request with key `key`.
pub open spec fn probes<P>(stash: Seq<(u64, Seq<Request<P>>)>, frontier: Seq<u64>, key: u64) -> bool {
    exists|a: int, j: int| answers(stash, frontier, a, j) && stash[a].1[j].key == key
}

impl<P: Copy> Proposer<P> {
    /// The capabilities that the stash retains, one per bucket.
    pub fn capabilities(&self) -> (r: Vec<u64>)
        ensures
            r@ == self.stash().map_values(|b: (u64, Seq<Request<P>>)| b.0),
    {
        let mut r: Vec<u64> = Vec::new();
        let mut a: usize = 0;
        while a < self.buckets.len()
            invariant
                a <= self.buckets@.len(),
                r@ == self.stash().take(a as int).map_values(|b: (u64, Seq<Request<P>>)| b.0),
            decreases self.buckets@.len() - a,
        {
            r.push(self.buckets[a].cap);
            assert(r@ =~= self.stash().take(a + 1).map_values(|b: (u64, Seq<Request<P>>)| b.0));
            a = a + 1;
        }
        assert(self.stash().take(a as int) =~= self.stash());
        r
    }

    /// The keys that a round at `frontier` probes: the key of every request
    /// it answers, and no other.
    pub fn probed_keys(&self, frontier: &Vec<u64>) -> (r: Vec<u64>)
        ensures
            forall|a: int, j: int| answers(self.stash(), frontier@, a, j) ==> r@.contains(
                #[trigger] self.stash()[a].1[j].key,
            ),
            forall|i: int| 0 <= i < r@.len() ==> probes(self.stash(), frontier@, #[trigger] r@[i]),
    {
        let mut r: Vec<u64> = Vec::new();
        let mut a: usize = 0;
        while a < self.buckets.len()
            invariant
                a <= self.buckets@.len(),
                forall|b: int, j: int| b < a && answers(self.stash(), frontier@, b, j) ==> r@.contains(
                    #[trigger] self.stash()[b].1[j].key,
                ),
                forall|i: int| 0 <= i < r@.len() ==> probes(self.stash(), frontier@, #[trigger] r@[i]),
            decreases self.buckets@.len() - a,
        {
            let bucket = &self.buckets[a];
            assert(self.stash()[a as int] == (bucket.cap, bucket.entries@));
            if !less_equal(frontier, bucket.cap) {
                let mut j: usize = 0;
                while j < bucket.entries.len()
                    invariant
                        a < self.buckets@.len(),
                        *bucket == self.buckets@[a as int],
                        self.stash()[a as int] == (bucket.cap, bucket.entries@),
                        is_closed(frontier@, bucket.cap),
                        j <= bucket.entries@.len(),
                        forall|b: int, k: int| b < a && answers(self.stash(), frontier@, b, k) ==> r@.contains(
                            #[trigger] self.stash()[b].1[k].key,
                        ),
                        forall|k: int| 0 <= k < j && answers(self.stash(), frontier@, a as int, k) ==> r@.contains(
                            #[trigger] self.stash()[a as int].1[k].key,
                        ),
                        forall|i: int| 0 <= i < r@.len() ==> probes(self.stash(), frontier@, #[trigger] r@[i]),
                    decreases bucket.entries@.len() - j,
                {
                    let e = bucket.entries[j];
                    if !less_equal(frontier, e.time) {
                        let ghost before = r@;
                        r.push(e.key);
                        assert(answers(self.stash(), frontier@, a as int, j as int));
                        assert(r@[before.len() as int] == self.stash()[a as int].1[j as int].key);
                        assert forall|i: int| 0 <= i < r@.len() implies probes(self.stash(), frontier@, #[trigger] r@[i]) by {
                            if i < before.len() {
                                assert(r@[i] == before[i]);
                            } else {
                                assert(answers(self.stash(), frontier@, a as int, j as int) && r@[i] == self.stash()[a as int].1[j as int].key);
                            }
                        }
                        assert forall|b: int, k: int| b < a && answers(self.stash(), frontier@, b, k) implies r@.contains(
                            #[trigger] self.stash()[b].1[k].key) by {
                            assert(before.contains(self.stash()[b].1[k].key));
                            let w = choose|w: int| 0 <= w < before.len() && before[w] == self.stash()[b].1[k].key;
                            assert(r@[w] == before[w]);
                        }
                        assert forall|k: int| 0 <= k < j + 1 && answers(self.stash(), frontier@, a as int, k) implies r@.contains(
                            #[trigger] self.stash()[a as int].1[k].key) by {
                            if k < j {
                                assert(before.contains(self.stash()[a as int].1[k].key));
                                let w = choose|w: int| 0 <= w < before.len() && before[w] == self.stash()[a as int].1[k].key;
                                assert(r@[w] == before[w]);
                            } else {
                                assert(r@[before.len() as int] == self.stash()[a as int].1[k].key);
                            }
                        }
                    }
                    j = j + 1;
                }
            }
            a = a + 1;
        }
        r
    }
}

/// Every request that `pending` keeps is at an open time and has a nonzero
/// multiplicity.
pub proof fn lemma_pending_open<P>(entries: Seq<Request<P>>, frontier: Seq<u64>)
    ensures
        forall|k: int|
            0 <= k < pending(entries, frontier).len() ==> (#[trigger] pending(entries, frontier)[k]).diff != 0
                && !is_closed(frontier, pending(entries, frontier)[k].time),
    decreases entries.len(),
{
    if entries.len() > 0 {
        lemma_pending_open(entries.drop_last(), frontier);
        let prev = pending(entries.drop_last(), frontier);
        assert forall|k: int| 0 <= k < pending(entries, frontier).len() implies (#[trigger] pending(entries, frontier)[k]).diff != 0
            && !is_closed(frontier, pending(entries, frontier)[k].time) by {
            if k < prev.len() {
                assert(pending(entries, frontier)[k] == prev[k]);
            }
        }
    }
}

/// Each bucket that survives a round keeps the capability of a bucket
/// before it, and the stash stays well formed.
pub proof fn lemma_stash_after_wf<P>(stash: Seq<(u64, Seq<Request<P>>)>, frontier: Seq<u64>)
    requires
        stash_wf(stash),
    ensures
        stash_wf(stash_after(stash, frontier)),
        forall|a: int|
            0 <= a < stash_after(stash, frontier).len() ==> exists|b: int|
                0 <= b < stash.len() && (#[trigger] stash_after(stash, frontier)[a]).0 == stash[b].0,
    decreases stash.len(),
{
    if stash.len() > 0 {
        let init = stash.drop_last();
        assert(stash_wf(init)) by {
            assert forall|a: int, k: int| 0 <= a < init.len() && 0 <= k < init[a].1.len() implies (#[trigger] init[a].1[k]).diff != 0 by {
                assert(init[a] == stash[a]);
            }
        }
        lemma_stash_after_wf(init, frontier);
        let b = stash.last();
        lemma_pending_open(sort_by_key(b.1), frontier);
        let prev = stash_after(init, frontier);
        let tail = bucket_after(b, frontier);
        let all = stash_after(stash, frontier);
        assert(all == prev + tail);
        assert forall|a: int| 0 <= a < all.len() implies exists|c: int|
            0 <= c < stash.len() && (#[trigger] all[a]).0 == stash[c].0 by {
            if a < prev.len() {
                assert(all[a] == prev[a]);
                let c = choose|c: int| 0 <= c < init.len() && prev[a].0 == init[c].0;
                assert(stash[c] == init[c]);
            } else {
                assert(all[a].0 == stash[stash.len() - 1].0);
            }
        }
        assert forall|x: int, y: int| 0 <= x < y < all.len() implies (#[trigger] all[x]).0 != (#[trigger] all[y]).0 by {
            if y >= prev.len() {
                assert(all[x] == prev[x]);
                let c = choose|c: int| 0 <= c < init.len() && prev[x].0 == init[c].0;
                assert(stash[c] == init[c]);
                assert(stash[c].0 != stash[stash.len() - 1].0);
            } else {
                assert(all[x] == prev[x]);
                assert(all[y] == prev[y]);
            }
        }
        assert forall|x: int| 0 <= x < all.len() implies (#[trigger] all[x]).1.len() > 0 by {
            if x < prev.len() {
                assert(all[x] == prev[x]);
            }
        }
        assert forall|x: int, k: int| 0 <= x < all.len() && 0 <= k < all[x].1.len() implies (#[trigger] all[x].1[k]).diff != 0 by {
            if x < prev.len() {
                assert(all[x] == prev[x]);
            } else {
                assert(stash[stash.len() - 1] == b);
            }
        }
    }
}

} // verus!
