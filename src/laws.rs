use vstd::prelude::*;

use crate::frontier::is_closed;
use crate::history::{count_at, vals_for, KeyHistory, ValHistory};
use crate::operator::{round_fits, round_output};
use crate::consolidate::{find_slot, lemma_find_slot, merge_all, merge_into};
use crate::order::{insert_by_key, lemma_sorted, sort_by_key};
use crate::propose::{
    bucket_fits, bucket_output, product, product_fits, proposals_for,
    Proposal, Request,
};

verus! {

/// Products that fit for every request of `s` fit for any requests drawn
/// from `s`.
pub proof fn lemma_fits_within<P, V>(
    s: Seq<Request<P>>,
    t: Seq<Request<P>>,
    frontier: Seq<u64>,
    trace: Seq<KeyHistory<V>>,
)
    requires
        bucket_fits(s, frontier, trace),
        forall|i: int| 0 <= i < t.len() ==> s.contains(#[trigger] t[i]),
    ensures
        bucket_fits(t, frontier, trace),
{
    assert forall|j: int| 0 <= j < t.len() && is_closed(frontier, #[trigger] t[j].time) implies product_fits(t[j], vals_for(trace, t[j].key)) by {
        assert(s.contains(t[j]));
        let w = choose|w: int| 0 <= w < s.len() && s[w] == t[j];
        assert(is_closed(frontier, s[w].time));
    }
}

pub proof fn lemma_fits_sorted<P, V>(s: Seq<Request<P>>, frontier: Seq<u64>, trace: Seq<KeyHistory<V>>)
    requires
        bucket_fits(s, frontier, trace),
    ensures
        bucket_fits(sort_by_key(s), frontier, trace),
{
    lemma_sorted(s);
    lemma_fits_within(s, sort_by_key(s), frontier, trace);
}

/// Every proposal for `req` is at the request's time and has a nonzero
/// multiplicity.
pub proof fn lemma_proposals_shape<P, V>(req: Request<P>, vals: Seq<ValHistory<V>>)
    requires
        product_fits(req, vals),
    ensures
        forall|k: int|
            0 <= k < proposals_for(req, vals).len() ==> (#[trigger] proposals_for(req, vals)[k]).time
                == req.time && proposals_for(req, vals)[k].diff != 0,
    decreases vals.len(),
{
    if vals.len() > 0 {
        let init = vals.drop_last();
        lemma_fits_init(req, vals);
        lemma_proposals_shape(req, init);
        let h = vals.last();
        assert(vals[vals.len() - 1] == h);
        let prev = proposals_for(req, init);
        assert forall|k: int| 0 <= k < proposals_for(req, vals).len() implies (#[trigger] proposals_for(req, vals)[k]).time
            == req.time && proposals_for(req, vals)[k].diff != 0 by {
            if k < prev.len() {
                assert(proposals_for(req, vals)[k] == prev[k]);
            }
        }
    }
}

/// Every proposal of a bucket is at a closed time and has a nonzero
/// multiplicity.
pub proof fn lemma_bucket_shape<P, V>(
    entries: Seq<Request<P>>,
    frontier: Seq<u64>,
    trace: Seq<KeyHistory<V>>,
)
    requires
        bucket_fits(entries, frontier, trace),
    ensures
        forall|k: int|
            0 <= k < bucket_output(entries, frontier, trace).len() ==> is_closed(
                frontier,
                (#[trigger] bucket_output(entries, frontier, trace)[k]).time,
            ) && bucket_output(entries, frontier, trace)[k].diff != 0,
    decreases entries.len(),
{
    if entries.len() > 0 {
        let init = entries.drop_last();
        assert(bucket_fits(init, frontier, trace)) by {
            assert forall|j: int| 0 <= j < init.len() && is_closed(frontier, #[trigger] init[j].time) implies product_fits(init[j], vals_for(trace, init[j].key)) by {
                assert(init[j] == entries[j]);
            }
        }
        lemma_bucket_shape(init, frontier, trace);
        let e = entries.last();
        assert(entries[entries.len() - 1] == e);
        let prev = bucket_output(init, frontier, trace);
        let all = bucket_output(entries, frontier, trace);
        if is_closed(frontier, e.time) {
            lemma_proposals_shape(e, vals_for(trace, e.key));
            let tail = proposals_for(e, vals_for(trace, e.key));
            assert forall|k: int| 0 <= k < all.len() implies is_closed(frontier, (#[trigger] all[k]).time) && all[k].diff != 0 by {
                if k < prev.len() {
                    assert(all[k] == prev[k]);
                } else {
                    assert(all[k] == tail[k - prev.len()]);
                }
            }
        } else {
            assert(all =~= prev);
        }
    }
}

/// No proposal of a round is at a time that `frontier` leaves open, and none
/// has a zero multiplicity.
pub proof fn lemma_round_shape<P, V>(
    stash: Seq<(u64, Seq<Request<P>>)>,
    frontier: Seq<u64>,
    trace: Seq<KeyHistory<V>>,
)
    requires
        round_fits(stash, frontier, trace),
    ensures
        forall|k: int|
            0 <= k < round_output(stash, frontier, trace).len() ==> is_closed(
                frontier,
                (#[trigger] round_output(stash, frontier, trace)[k]).1.time,
            ) && round_output(stash, frontier, trace)[k].1.diff != 0,
    decreases stash.len(),
{
    if stash.len() > 0 {
        let init = stash.drop_last();
        assert(round_fits(init, frontier, trace)) by {
            assert forall|a: int| 0 <= a < init.len() && is_closed(frontier, (#[trigger] init[a]).0) implies bucket_fits(
                init[a].1, frontier, trace) by {
                assert(init[a] == stash[a]);
            }
        }
        lemma_round_shape(init, frontier, trace);
        let b = stash.last();
        assert(stash[stash.len() - 1] == b);
        let prev = round_output(init, frontier, trace);
        let all = round_output(stash, frontier, trace);
        if is_closed(frontier, b.0) {
            lemma_fits_sorted(b.1, frontier, trace);
            lemma_bucket_shape(sort_by_key(b.1), frontier, trace);
            let tail = bucket_output(sort_by_key(b.1), frontier, trace).map_values(|p: Proposal<P, V>| (b.0, p));
            assert forall|k: int| 0 <= k < all.len() implies is_closed(frontier, (#[trigger] all[k]).1.time) && all[k].1.diff != 0 by {
                if k < prev.len() {
                    assert(all[k] == prev[k]);
                } else {
                    assert(all[k] == tail[k - prev.len()]);
                }
            }
        } else {
            assert(all =~= prev);
        }
    }
}

/// The summed multiplicity of the proposals that extend `prefix` by `val`
/// at times no later than `t`.
pub open spec fn total_for<P, V>(out: Seq<Proposal<P, V>>, prefix: P, val: V, t: u64) -> int
    decreases out.len(),
{
    if out.len() == 0 {
        0
    } else {
        let o = out.last();
        total_for(out.drop_last(), prefix, val, t) + if o.prefix == prefix && o.val == val && o.time
            <= t {
            o.diff as int
        } else {
            0int
        }
    }
}

/// The multiplicity of `val` among `vals` as of time `t`.
pub open spec fn count_val<V>(vals: Seq<ValHistory<V>>, val: V, t: u64) -> int
    decreases vals.len(),
{
    if vals.len() == 0 {
        0
    } else {
        count_val(vals.drop_last(), val, t) + if vals.last().val == val {
            count_at(vals.last().updates@, t)
        } else {
            0int
        }
    }
}

/// The multiplicity of `prefix` among the requests as of time `t`.
pub open spec fn prefix_count<P>(entries: Seq<Request<P>>, prefix: P, t: u64) -> int
    decreases entries.len(),
{
    if entries.len() == 0 {
        0
    } else {
        let e = entries.last();
        prefix_count(entries.drop_last(), prefix, t) + if e.prefix == prefix && e.time <= t {
            e.diff as int
        } else {
            0int
        }
    }
}

/// What the request `e` contributes to the pair `(prefix, val)` up to time
/// `t`, if it is answered at `frontier`.
pub open spec fn answer_term<P, V>(
    e: Request<P>,
    frontier: Seq<u64>,
    trace: Seq<KeyHistory<V>>,
    prefix: P,
    val: V,
    t: u64,
) -> int {
    if is_closed(frontier, e.time) && e.prefix == prefix && e.time <= t {
        e.diff * count_val(vals_for(trace, e.key), val, e.time)
    } else {
        0int
    }
}

/// What each answered request contributes to the pair `(prefix, val)` up to
/// time `t`: its multiplicity times that of `val` under its key, as of the
/// request's own time.
pub open spec fn answered<P, V>(
    entries: Seq<Request<P>>,
    frontier: Seq<u64>,
    trace: Seq<KeyHistory<V>>,
    prefix: P,
    val: V,
    t: u64,
) -> int
    decreases entries.len(),
{
    if entries.len() == 0 {
        0
    } else {
        answered(entries.drop_last(), frontier, trace, prefix, val, t) + answer_term(
            entries.last(),
            frontier,
            trace,
            prefix,
            val,
            t,
        )
    }
}

pub proof fn lemma_total_concat<P, V>(a: Seq<Proposal<P, V>>, b: Seq<Proposal<P, V>>, prefix: P, val: V, t: u64)
    ensures
        total_for(a + b, prefix, val, t) == total_for(a, prefix, val, t) + total_for(b, prefix, val, t),
    decreases b.len(),
{
    if b.len() == 0 {
        assert(a + b =~= a);
    } else {
        assert((a + b).drop_last() =~= a + b.drop_last());
        lemma_total_concat(a, b.drop_last(), prefix, val, t);
    }
}

proof fn lemma_fits_init<P, V>(req: Request<P>, vals: Seq<ValHistory<V>>)
    requires
        vals.len() > 0,
        product_fits(req, vals),
    ensures
        product_fits(req, vals.drop_last()),
{
    let init = vals.drop_last();
    assert forall|k: int| 0 <= k < init.len() implies i64::MIN <= #[trigger] product(req, init[k]) <= i64::MAX by {
        assert(init[k] == vals[k]);
    }
}

proof fn lemma_bucket_fits_init<P, V>(entries: Seq<Request<P>>, frontier: Seq<u64>, trace: Seq<KeyHistory<V>>)
    requires
        entries.len() > 0,
        bucket_fits(entries, frontier, trace),
    ensures
        bucket_fits(entries.drop_last(), frontier, trace),
{
    let init = entries.drop_last();
    assert forall|j: int| 0 <= j < init.len() && is_closed(frontier, #[trigger] init[j].time) implies product_fits(init[j], vals_for(trace, init[j].key)) by {
        assert(init[j] == entries[j]);
    }
}

/// The proposals for one request sum, for `(prefix, val)`, to the request's
/// multiplicity times that of `val` as of the request's time.
pub proof fn lemma_total_proposals<P, V>(req: Request<P>, vals: Seq<ValHistory<V>>, prefix: P, val: V, t: u64)
    requires
        product_fits(req, vals),
    ensures
        total_for(proposals_for(req, vals), prefix, val, t) == if req.prefix == prefix && req.time <= t {
            req.diff * count_val(vals, val, req.time)
        } else {
            0int
        },
    decreases vals.len(),
{
    if vals.len() > 0 {
        let init = vals.drop_last();
        lemma_fits_init(req, vals);
        lemma_total_proposals(req, init, prefix, val, t);
        let h = vals.last();
        assert(vals[vals.len() - 1] == h);
        let c = count_at(h.updates@, req.time);
        let prev = count_val(init, val, req.time);
        assert(req.diff * (prev + c) == req.diff * prev + req.diff * c) by (nonlinear_arith);
        assert(req.diff * (prev + 0) == req.diff * prev);
        assert(product(req, h) == c * req.diff);
        assert(c * req.diff == req.diff * c) by (nonlinear_arith);
        let out = proposals_for(req, init);
        if product(req, h) != 0 {
            assert(proposals_for(req, vals).drop_last() =~= out);
        }
    }
}

/// The proposals of a bucket sum, for `(prefix, val)`, to what its answered
/// requests contribute.
pub proof fn lemma_total_bucket<P, V>(
    entries: Seq<Request<P>>,
    frontier: Seq<u64>,
    trace: Seq<KeyHistory<V>>,
    prefix: P,
    val: V,
    t: u64,
)
    requires
        bucket_fits(entries, frontier, trace),
    ensures
        total_for(bucket_output(entries, frontier, trace), prefix, val, t) == answered(
            entries,
            frontier,
            trace,
            prefix,
            val,
            t,
        ),
    decreases entries.len(),
{
    if entries.len() > 0 {
        lemma_bucket_fits_init(entries, frontier, trace);
        lemma_total_bucket(entries.drop_last(), frontier, trace, prefix, val, t);
        let e = entries.last();
        assert(entries[entries.len() - 1] == e);
        let prev = bucket_output(entries.drop_last(), frontier, trace);
        if is_closed(frontier, e.time) {
            let tail = proposals_for(e, vals_for(trace, e.key));
            lemma_total_concat(prev, tail, prefix, val, t);
            lemma_total_proposals(e, vals_for(trace, e.key), prefix, val, t);
        } else {
            lemma_total_concat(prev, Seq::empty(), prefix, val, t);
        }
    }
}

proof fn lemma_count_settled(updates: Seq<(u64, i64)>, t1: u64, t2: u64)
    requires
        forall|i: int| 0 <= i < updates.len() ==> (#[trigger] updates[i]).0 <= t1 && updates[i].0 <= t2,
    ensures
        count_at(updates, t1) == count_at(updates, t2),
    decreases updates.len(),
{
    if updates.len() > 0 {
        let init = updates.drop_last();
        assert forall|i: int| 0 <= i < init.len() implies (#[trigger] init[i]).0 <= t1 && init[i].0 <= t2 by {
            assert(init[i] == updates[i]);
        }
        lemma_count_settled(init, t1, t2);
        assert(updates[updates.len() - 1] == updates.last());
    }
}

/// Every update in `vals` is at a time no later than `t`.
pub open spec fn settled_by<V>(vals: Seq<ValHistory<V>>, t: u64) -> bool {
    forall|a: int, i: int|
        0 <= a < vals.len() && 0 <= i < vals[a].updates@.len() ==> (#[trigger] vals[a].updates@[i]).0 <= t
}

proof fn lemma_count_val_settled<V>(vals: Seq<ValHistory<V>>, val: V, t1: u64, t2: u64)
    requires
        settled_by(vals, t1),
        settled_by(vals, t2),
    ensures
        count_val(vals, val, t1) == count_val(vals, val, t2),
    decreases vals.len(),
{
    if vals.len() > 0 {
        let init = vals.drop_last();
        assert forall|a: int, i: int| 0 <= a < init.len() && 0 <= i < init[a].updates@.len() implies
            (#[trigger] init[a].updates@[i]).0 <= t1 && init[a].updates@[i].0 <= t2 by {
            assert(init[a] == vals[a]);
        }
        lemma_count_val_settled(init, val, t1, t2);
        let h = vals.last();
        assert(vals[vals.len() - 1] == h);
        assert forall|i: int| 0 <= i < h.updates@.len() implies (#[trigger] h.updates@[i]).0 <= t1
            && h.updates@[i].0 <= t2 by {
            assert(vals[vals.len() - 1].updates@[i] == h.updates@[i]);
        }
        lemma_count_settled(h.updates@, t1, t2);
    }
}

proof fn lemma_answered_factors<P, V>(
    entries: Seq<Request<P>>,
    frontier: Seq<u64>,
    trace: Seq<KeyHistory<V>>,
    prefix: P,
    key: u64,
    val: V,
    t: u64,
)
    requires
        forall|j: int| 0 <= j < entries.len() && (#[trigger] entries[j]).prefix == prefix ==> entries[j].key == key,
        forall|j: int|
            0 <= j < entries.len() && (#[trigger] entries[j]).prefix == prefix && entries[j].time <= t
                ==> is_closed(frontier, entries[j].time) && settled_by(vals_for(trace, key), entries[j].time),
        settled_by(vals_for(trace, key), t),
    ensures
        answered(entries, frontier, trace, prefix, val, t) == prefix_count(entries, prefix, t) * count_val(
            vals_for(trace, key),
            val,
            t,
        ),
    decreases entries.len(),
{
    if entries.len() > 0 {
        let init = entries.drop_last();
        assert forall|j: int| 0 <= j < init.len() && (#[trigger] init[j]).prefix == prefix implies init[j].key == key by {
            assert(init[j] == entries[j]);
        }
        assert forall|j: int| 0 <= j < init.len() && (#[trigger] init[j]).prefix == prefix && init[j].time <= t implies
            is_closed(frontier, init[j].time) && settled_by(vals_for(trace, key), init[j].time) by {
            assert(init[j] == entries[j]);
        }
        lemma_answered_factors(init, frontier, trace, prefix, key, val, t);
        let e = entries.last();
        assert(entries[entries.len() - 1] == e);
        let c = count_val(vals_for(trace, key), val, t);
        let prev = prefix_count(init, prefix, t);
        if e.prefix == prefix && e.time <= t {
            lemma_count_val_settled(vals_for(trace, key), val, e.time, t);
            assert((prev + e.diff) * c == prev * c + e.diff * c) by (nonlinear_arith);
        } else {
            assert((prev + 0) * c == prev * c);
        }
    }
}

/// Join correctness. Take the requests of a bucket, where every request for
/// `prefix` probes the same `key`, those up to time `t` are at closed times,
/// and the histories under `key` hold no update later than any of them.
/// Then the proposals that the sorted bucket emits for `prefix` extended by
/// `val` sum, up to `t`, to the multiplicity of `prefix` as of `t` times the
/// multiplicity of `val` under `key` as of `t`.
pub proof fn lemma_join_correct<P, V>(
    entries: Seq<Request<P>>,
    frontier: Seq<u64>,
    trace: Seq<KeyHistory<V>>,
    prefix: P,
    key: u64,
    val: V,
    t: u64,
)
    requires
        bucket_fits(entries, frontier, trace),
        forall|j: int| 0 <= j < entries.len() && (#[trigger] entries[j]).prefix == prefix ==> entries[j].key == key,
        forall|j: int|
            0 <= j < entries.len() && (#[trigger] entries[j]).prefix == prefix && entries[j].time <= t
                ==> is_closed(frontier, entries[j].time) && settled_by(vals_for(trace, key), entries[j].time),
        settled_by(vals_for(trace, key), t),
    ensures
        total_for(bucket_output(sort_by_key(entries), frontier, trace), prefix, val, t) == prefix_count(
            entries,
            prefix,
            t,
        ) * count_val(vals_for(trace, key), val, t),
{
    lemma_fits_sorted(entries, frontier, trace);
    lemma_total_bucket(sort_by_key(entries), frontier, trace, prefix, val, t);
    lemma_answered_sorted(entries, frontier, trace, prefix, val, t);
    lemma_answered_factors(entries, frontier, trace, prefix, key, val, t);
}

proof fn lemma_answered_concat<P, V>(
    a: Seq<Request<P>>,
    b: Seq<Request<P>>,
    frontier: Seq<u64>,
    trace: Seq<KeyHistory<V>>,
    prefix: P,
    val: V,
    t: u64,
)
    ensures
        answered(a + b, frontier, trace, prefix, val, t) == answered(a, frontier, trace, prefix, val, t)
            + answered(b, frontier, trace, prefix, val, t),
    decreases b.len(),
{
    if b.len() == 0 {
        assert(a + b =~= a);
    } else {
        assert((a + b).drop_last() =~= a + b.drop_last());
        assert((a + b).last() == b.last());
        lemma_answered_concat(a, b.drop_last(), frontier, trace, prefix, val, t);
    }
}

proof fn lemma_answered_insert<P, V>(
    s: Seq<Request<P>>,
    e: Request<P>,
    frontier: Seq<u64>,
    trace: Seq<KeyHistory<V>>,
    prefix: P,
    val: V,
    t: u64,
)
    ensures
        answered(insert_by_key(s, e), frontier, trace, prefix, val, t) == answered(s, frontier, trace, prefix, val, t)
            + answer_term(e, frontier, trace, prefix, val, t),
    decreases s.len(),
{
    if s.len() > 0 && s.last().key > e.key {
        lemma_answered_insert(s.drop_last(), e, frontier, trace, prefix, val, t);
        let r = insert_by_key(s, e);
        assert(r.drop_last() == insert_by_key(s.drop_last(), e));
    } else if s.len() > 0 {
        assert(insert_by_key(s, e).drop_last() =~= s);
    } else {
        assert(insert_by_key(s, e).drop_last() =~= s);
    }
}

/// Sorting requests by key changes nothing that they contribute.
pub proof fn lemma_answered_sorted<P, V>(
    s: Seq<Request<P>>,
    frontier: Seq<u64>,
    trace: Seq<KeyHistory<V>>,
    prefix: P,
    val: V,
    t: u64,
)
    ensures
        answered(sort_by_key(s), frontier, trace, prefix, val, t) == answered(s, frontier, trace, prefix, val, t),
    decreases s.len(),
{
    if s.len() > 0 {
        lemma_answered_sorted(s.drop_last(), frontier, trace, prefix, val, t);
        lemma_answered_insert(sort_by_key(s.drop_last()), s.last(), frontier, trace, prefix, val, t);
    }
}

proof fn lemma_answered_update<P, V>(
    s: Seq<Request<P>>,
    i: int,
    x: Request<P>,
    frontier: Seq<u64>,
    trace: Seq<KeyHistory<V>>,
    prefix: P,
    val: V,
    t: u64,
)
    requires
        0 <= i < s.len(),
    ensures
        answered(s.update(i, x), frontier, trace, prefix, val, t) == answered(s, frontier, trace, prefix, val, t)
            - answer_term(s[i], frontier, trace, prefix, val, t) + answer_term(x, frontier, trace, prefix, val, t),
        answered(s.remove(i), frontier, trace, prefix, val, t) == answered(s, frontier, trace, prefix, val, t)
            - answer_term(s[i], frontier, trace, prefix, val, t),
    decreases s.len(),
{
    if i < s.len() - 1 {
        lemma_answered_update(s.drop_last(), i, x, frontier, trace, prefix, val, t);
        assert(s.update(i, x).drop_last() =~= s.drop_last().update(i, x));
        assert(s.remove(i).drop_last() =~= s.drop_last().remove(i));
        assert(s.update(i, x).last() == s.last());
        assert(s.remove(i).last() == s.last());
        assert(s.drop_last()[i] == s[i]);
    } else {
        assert(s.update(i, x).drop_last() =~= s.drop_last());
        assert(s.remove(i) =~= s.drop_last());
    }
}

/// Merging a request into a bucket adds exactly what the request contributes.
pub proof fn lemma_answered_merge<P, V>(
    s: Seq<Request<P>>,
    r: Request<P>,
    frontier: Seq<u64>,
    trace: Seq<KeyHistory<V>>,
    prefix: P,
    val: V,
    t: u64,
)
    ensures
        answered(merge_into(s, r), frontier, trace, prefix, val, t) == answered(s, frontier, trace, prefix, val, t)
            + answer_term(r, frontier, trace, prefix, val, t),
{
    lemma_find_slot(s, r);
    if r.diff == 0 {
        assert(answer_term(r, frontier, trace, prefix, val, t) == 0);
    } else {
        let i = find_slot(s, r);
        if i < 0 {
            assert(s.push(r).drop_last() =~= s);
        } else {
            let d = s[i].diff + r.diff;
            let c = count_val(vals_for(trace, r.key), val, r.time);
            if d < i64::MIN || d > i64::MAX {
                assert(s.push(r).drop_last() =~= s);
            } else {
                let x = Request { prefix: s[i].prefix, key: s[i].key, time: s[i].time, diff: d as i64 };
                assert((s[i].diff + r.diff) * c == s[i].diff * c + r.diff * c) by (nonlinear_arith);
                lemma_answered_update(s, i, x, frontier, trace, prefix, val, t);
                if d == 0 {
                    assert(0 * c == 0);
                }
            }
        }
    }
}

/// Merging a batch into a bucket adds exactly what its requests contribute.
pub proof fn lemma_answered_merge_all<P, V>(
    s: Seq<Request<P>>,
    batch: Seq<Request<P>>,
    frontier: Seq<u64>,
    trace: Seq<KeyHistory<V>>,
    prefix: P,
    val: V,
    t: u64,
)
    ensures
        answered(merge_all(s, batch), frontier, trace, prefix, val, t) == answered(s, frontier, trace, prefix, val, t)
            + answered(batch, frontier, trace, prefix, val, t),
    decreases batch.len(),
{
    if batch.len() > 0 {
        lemma_answered_merge_all(s, batch.drop_last(), frontier, trace, prefix, val, t);
        lemma_answered_merge(merge_all(s, batch.drop_last()), batch.last(), frontier, trace, prefix, val, t);
    }
}

/// Replaying two batches of requests into a bucket in either order yields,
/// once the merged bucket is sorted and answered, the same summed
/// multiplicity for every extension and every time.
pub proof fn lemma_replay_order<P, V>(
    held: Seq<Request<P>>,
    first: Seq<Request<P>>,
    second: Seq<Request<P>>,
    frontier: Seq<u64>,
    trace: Seq<KeyHistory<V>>,
    prefix: P,
    val: V,
    t: u64,
)
    requires
        bucket_fits(merge_all(held, first + second), frontier, trace),
        bucket_fits(merge_all(held, second + first), frontier, trace),
    ensures
        total_for(bucket_output(sort_by_key(merge_all(held, first + second)), frontier, trace), prefix, val, t)
            == total_for(bucket_output(sort_by_key(merge_all(held, second + first)), frontier, trace), prefix, val, t),
{
    let ab = merge_all(held, first + second);
    let ba = merge_all(held, second + first);
    lemma_fits_sorted(ab, frontier, trace);
    lemma_fits_sorted(ba, frontier, trace);
    lemma_total_bucket(sort_by_key(ab), frontier, trace, prefix, val, t);
    lemma_total_bucket(sort_by_key(ba), frontier, trace, prefix, val, t);
    lemma_answered_sorted(ab, frontier, trace, prefix, val, t);
    lemma_answered_sorted(ba, frontier, trace, prefix, val, t);
    lemma_answered_merge_all(held, first + second, frontier, trace, prefix, val, t);
    lemma_answered_merge_all(held, second + first, frontier, trace, prefix, val, t);
    lemma_answered_concat(first, second, frontier, trace, prefix, val, t);
    lemma_answered_concat(second, first, frontier, trace, prefix, val, t);
}

/// The summed multiplicity, over a round's output, of the proposals that
/// extend `prefix` by `val` at times no later than `t`, whatever capability
/// they are sent under.
pub open spec fn round_total<P, V>(out: Seq<(u64, Proposal<P, V>)>, prefix: P, val: V, t: u64) -> int
    decreases out.len(),
{
    if out.len() == 0 {
        0
    } else {
        let o = out.last().1;
        round_total(out.drop_last(), prefix, val, t) + if o.prefix == prefix && o.val == val && o.time
            <= t {
            o.diff as int
        } else {
            0int
        }
    }
}

proof fn lemma_round_total_concat<P, V>(
    a: Seq<(u64, Proposal<P, V>)>,
    b: Seq<(u64, Proposal<P, V>)>,
    prefix: P,
    val: V,
    t: u64,
)
    ensures
        round_total(a + b, prefix, val, t) == round_total(a, prefix, val, t) + round_total(b, prefix, val, t),
    decreases b.len(),
{
    if b.len() == 0 {
        assert(a + b =~= a);
    } else {
        assert((a + b).drop_last() =~= a + b.drop_last());
        lemma_round_total_concat(a, b.drop_last(), prefix, val, t);
    }
}

proof fn lemma_round_concat<P, V>(
    a: Seq<(u64, Seq<Request<P>>)>,
    b: Seq<(u64, Seq<Request<P>>)>,
    frontier: Seq<u64>,
    trace: Seq<KeyHistory<V>>,
)
    ensures
        round_output(a + b, frontier, trace) == round_output(a, frontier, trace) + round_output(b, frontier, trace),
    decreases b.len(),
{
    if b.len() == 0 {
        assert(a + b =~= a);
        assert(round_output(a, frontier, trace) + round_output(b, frontier, trace) =~= round_output(a, frontier, trace));
    } else {
        assert((a + b).drop_last() =~= a + b.drop_last());
        assert((a + b).last() == b.last());
        lemma_round_concat(a, b.drop_last(), frontier, trace);
        let c = b.last();
        let tail = if is_closed(frontier, c.0) {
            bucket_output(sort_by_key(c.1), frontier, trace).map_values(|p: Proposal<P, V>| (c.0, p))
        } else {
            Seq::empty()
        };
        assert(round_output(a + b, frontier, trace) =~= round_output(a, frontier, trace) + round_output(b.drop_last(), frontier, trace) + tail);
    }
}

/// Buckets stashed in either order yield rounds whose outputs sum, for
/// every extension and every time, to the same multiplicity.
pub proof fn lemma_round_replay_order<P, V>(
    first: Seq<(u64, Seq<Request<P>>)>,
    second: Seq<(u64, Seq<Request<P>>)>,
    frontier: Seq<u64>,
    trace: Seq<KeyHistory<V>>,
    prefix: P,
    val: V,
    t: u64,
)
    ensures
        round_total(round_output(first + second, frontier, trace), prefix, val, t) == round_total(
            round_output(second + first, frontier, trace),
            prefix,
            val,
            t,
        ),
{
    lemma_round_concat(first, second, frontier, trace);
    lemma_round_concat(second, first, frontier, trace);
    lemma_round_total_concat(round_output(first, frontier, trace), round_output(second, frontier, trace), prefix, val, t);
    lemma_round_total_concat(round_output(second, frontier, trace), round_output(first, frontier, trace), prefix, val, t);
}

} // verus!
