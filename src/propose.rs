use vstd::prelude::*;

use crate::frontier::{is_closed, less_equal};
use crate::history::{
    count_as_of, count_at, keys_sorted, seek_key, vals_for, KeyHistory,
    ValHistory,
};

verus! {

/// A buffered prefix update: the prefix, the key it probes the arrangement
/// with, its time and its multiplicity.
#[derive(Clone, Copy)]
pub struct Request<P> {
    pub prefix: P,
    pub key: u64,
    pub time: u64,
    pub diff: i64,
}

/// An extension of a prefix by a value, at the prefix's time.
#[derive(Clone, Copy)]
pub struct Proposal<P, V> {
    pub prefix: P,
    pub val: V,
    pub time: u64,
    pub diff: i64,
}

/// The multiplicity of the extension of `req` by the value whose history is `h`.
pub open spec fn product<P, V>(req: Request<P>, h: ValHistory<V>) -> int {
    count_at(h.updates@, req.time) * req.diff
}

/// Every extension of `req` by one of `vals` has a multiplicity that fits
/// in an `i64`.
pub open spec fn product_fits<P, V>(req: Request<P>, vals: Seq<ValHistory<V>>) -> bool {
    forall|k: int| 0 <= k < vals.len() ==> i64::MIN <= #[trigger] product(req, vals[k]) <= i64::MAX
}

/// The extensions of `req` by the values `vals`, in order, leaving out those
/// whose multiplicity is zero.
pub open spec fn proposals_for<P, V>(req: Request<P>, vals: Seq<ValHistory<V>>) -> Seq<Proposal<P, V>>
    decreases vals.len(),
{
    if vals.len() == 0 {
        Seq::empty()
    } else {
        let prev = proposals_for(req, vals.drop_last());
        let h = vals.last();
        if product(req, h) != 0 {
            prev.push(Proposal { prefix: req.prefix, val: h.val, time: req.time, diff: product(req, h) as i64 })
        } else {
            prev
        }
    }
}

/// Appends to `out` every nonzero extension of `req` by one of `vals`.
pub fn propose_request<P: Copy, V: Copy>(
    req: Request<P>,
    vals: &Vec<ValHistory<V>>,
    out: &mut Vec<Proposal<P, V>>,
)
    requires
        product_fits(req, vals@),
    ensures
        final(out)@ == old(out)@ + proposals_for(req, vals@),
{
    let ghost start = out@;
    let mut k: usize = 0;
    while k < vals.len()
        invariant
            k <= vals@.len(),
            product_fits(req, vals@),
            out@ == start + proposals_for(req, vals@.take(k as int)),
        decreases vals@.len() - k,
    {
        let h = &vals[k];
        let count = count_as_of(&h.updates, req.time);
        proof {
            assert(product(req, vals@[k as int]) == count * req.diff);
            assert(vals@.take(k + 1).drop_last() =~= vals@.take(k as int));
        }
        let prod = count * req.diff as i128;
        if prod != 0 {
            out.push(Proposal { prefix: req.prefix, val: h.val, time: req.time, diff: prod as i64 });
        }
        proof {
            assert(start + proposals_for(req, vals@.take(k + 1)) =~= out@);
        }
        k = k + 1;
    }
    assert(vals@.take(k as int) =~= vals@);
}

} // verus!

verus! {

/// What one bucket emits at a round: for each request at a closed time, in
/// order, its extensions by the values found under its key.
pub open spec fn bucket_output<P, V>(
    entries: Seq<Request<P>>,
    frontier: Seq<u64>,
    trace: Seq<KeyHistory<V>>,
) -> Seq<Proposal<P, V>>
    decreases entries.len(),
{
    if entries.len() == 0 {
        Seq::empty()
    } else {
        let e = entries.last();
        bucket_output(entries.drop_last(), frontier, trace) + if is_closed(frontier, e.time) {
            proposals_for(e, vals_for(trace, e.key))
        } else {
            Seq::empty()
        }
    }
}

/// The requests a bucket keeps after a round: those at times still open,
/// with a nonzero multiplicity, in order.
pub open spec fn pending<P>(entries: Seq<Request<P>>, frontier: Seq<u64>) -> Seq<Request<P>>
    decreases entries.len(),
{
    if entries.len() == 0 {
        Seq::empty()
    } else {
        let e = entries.last();
        let prev = pending(entries.drop_last(), frontier);
        if !is_closed(frontier, e.time) && e.diff != 0 {
            prev.push(e)
        } else {
            prev
        }
    }
}

/// Every request of the bucket at a closed time has products that fit.
pub open spec fn bucket_fits<P, V>(
    entries: Seq<Request<P>>,
    frontier: Seq<u64>,
    trace: Seq<KeyHistory<V>>,
) -> bool {
    forall|j: int|
        0 <= j < entries.len() && is_closed(frontier, #[trigger] entries[j].time) ==> product_fits(
            entries[j],
            vals_for(trace, entries[j].key),
        )
}

/// Processes one bucket: each request at a time that `frontier` has closed
/// is matched against `trace` and its extensions appended to `out`; the
/// requests still open are handed back.
pub fn process_bucket<P: Copy, V: Copy>(
    entries: &Vec<Request<P>>,
    frontier: &Vec<u64>,
    trace: &Vec<KeyHistory<V>>,
    out: &mut Vec<Proposal<P, V>>,
) -> (rest: Vec<Request<P>>)
    requires
        keys_sorted(trace@),
        bucket_fits(entries@, frontier@, trace@),
    ensures
        final(out)@ == old(out)@ + bucket_output(entries@, frontier@, trace@),
        rest@ == pending(entries@, frontier@),
{
    let ghost start = out@;
    let mut rest: Vec<Request<P>> = Vec::new();
    let mut j: usize = 0;
    while j < entries.len()
        invariant
            j <= entries@.len(),
            keys_sorted(trace@),
            bucket_fits(entries@, frontier@, trace@),
            out@ == start + bucket_output(entries@.take(j as int), frontier@, trace@),
            rest@ == pending(entries@.take(j as int), frontier@),
        decreases entries@.len() - j,
    {
        let req = entries[j];
        proof {
            assert(entries@.take(j + 1).drop_last() =~= entries@.take(j as int));
            assert(entries@.take(j + 1).last() == req);
        }
        if !less_equal(frontier, req.time) {
            match seek_key(trace, req.key) {
                Some(i) => {
                    propose_request(req, &trace[i].vals, out);
                },
                None => {},
            }
        } else if req.diff != 0 {
            rest.push(req);
        }
        proof {
            assert(start + bucket_output(entries@.take(j + 1), frontier@, trace@) =~= out@);
        }
        j = j + 1;
    }
    assert(entries@.take(j as int) =~= entries@);
    rest
}

} // verus!

verus! {

/// Whether the count of `updates` as of `t`, times `diff`, fits in an `i64`.
pub fn product_fits_check(updates: &Vec<(u64, i64)>, t: u64, diff: i64) -> (r: bool)
    ensures
        r == (i64::MIN <= count_at(updates@, t) * diff <= i64::MAX),
{
    let count = count_as_of(updates, t);
    if diff == 0 {
        return true;
    }
    if count < -0x8000_0000_0000_0000 || count > 0x8000_0000_0000_0000 {
        if diff > 0 {
            assert(count > 0 ==> count * diff >= count) by (nonlinear_arith)
                requires
                    diff >= 1,
            ;
            assert(count < 0 ==> count * diff <= count) by (nonlinear_arith)
                requires
                    diff >= 1,
            ;
        } else {
            assert(count > 0 ==> count * diff <= -count) by (nonlinear_arith)
                requires
                    diff <= -1,
            ;
            assert(count < 0 ==> count * diff >= -count) by (nonlinear_arith)
                requires
                    diff <= -1,
            ;
        }
        return false;
    }
    assert(-0x4000_0000_0000_0000_0000_0000_0000_0000 <= count * diff <= 0x4000_0000_0000_0000_0000_0000_0000_0000) by (nonlinear_arith)
        requires
            -0x8000_0000_0000_0000 <= count <= 0x8000_0000_0000_0000,
            i64::MIN <= diff <= i64::MAX,
    ;
    let prod = count * diff as i128;
    i64::MIN as i128 <= prod && prod <= i64::MAX as i128
}

/// Checks `bucket_fits` on one bucket.
pub fn bucket_fits_check<P: Copy, V: Copy>(
    entries: &Vec<Request<P>>,
    frontier: &Vec<u64>,
    trace: &Vec<KeyHistory<V>>,
) -> (r: bool)
    requires
        keys_sorted(trace@),
    ensures
        r == bucket_fits(entries@, frontier@, trace@),
{
    let mut j: usize = 0;
    while j < entries.len()
        invariant
            j <= entries@.len(),
            keys_sorted(trace@),
            forall|a: int|
                0 <= a < j && is_closed(frontier@, #[trigger] entries@[a].time) ==> product_fits(
                    entries@[a],
                    vals_for(trace@, entries@[a].key),
                ),
        decreases entries@.len() - j,
    {
        let req = entries[j];
        if !less_equal(frontier, req.time) {
            match seek_key(trace, req.key) {
                Some(i) => {
                    let vals = &trace[i].vals;
                    let mut k: usize = 0;
                    while k < vals.len()
                        invariant
                            k <= vals@.len(),
                            vals@ == vals_for(trace@, req.key),
                            j < entries@.len(),
                            entries@[j as int] == req,
                            is_closed(frontier@, req.time),
                            forall|b: int|
                                0 <= b < k ==> i64::MIN <= #[trigger] product(req, vals@[b]) <= i64::MAX,
                        decreases vals@.len() - k,
                    {
                        if !product_fits_check(&vals[k].updates, req.time, req.diff) {
                            assert(!product_fits(req, vals@)) by {
                                assert(vals@[k as int].updates@ == vals[k as int].updates@);
                                assert(!(i64::MIN <= product(req, vals@[k as int]) <= i64::MAX));
                            }
                            return false;
                        }
                        k = k + 1;
                    }
                },
                None => {},
            }
        }
        j = j + 1;
    }
    true
}

} // verus!
