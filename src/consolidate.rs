use vstd::prelude::*;
use vstd::laws_eq::obeys_concrete_eq;

use crate::propose::Request;

verus! {

/// Two requests stand for the same prefix, key and time.
pub open spec fn same_slot<P>(a: Request<P>, b: Request<P>) -> bool {
    a.prefix == b.prefix && a.key == b.key && a.time == b.time
}

/// The last position of `s` holding a request of the same slot as `r`, or -1.
pub open spec fn find_slot<P>(s: Seq<Request<P>>, r: Request<P>) -> int
    decreases s.len(),
{
    if s.len() == 0 {
        -1
    } else if same_slot(s.last(), r) {
        s.len() - 1
    } else {
        find_slot(s.drop_last(), r)
    }
}

/// `s` with `r` merged in: a request of zero multiplicity changes nothing;
/// one whose slot is held has its multiplicity added there, and the entry
/// goes when the sum is zero; otherwise, or when the sum leaves the range of
/// an `i64`, `r` is appended.
pub open spec fn merge_into<P>(s: Seq<Request<P>>, r: Request<P>) -> Seq<Request<P>> {
    if r.diff == 0 {
        s
    } else {
        let i = find_slot(s, r);
        if i < 0 {
            s.push(r)
        } else {
            let d = s[i].diff + r.diff;
            if d < i64::MIN || d > i64::MAX {
                s.push(r)
            } else if d == 0 {
                s.remove(i)
            } else {
                s.update(i, Request { prefix: s[i].prefix, key: s[i].key, time: s[i].time, diff: d as i64 })
            }
        }
    }
}

/// `s` with every request of `batch` merged in, in order.
pub open spec fn merge_all<P>(s: Seq<Request<P>>, batch: Seq<Request<P>>) -> Seq<Request<P>>
    decreases batch.len(),
{
    if batch.len() == 0 {
        s
    } else {
        merge_into(merge_all(s, batch.drop_last()), batch.last())
    }
}

/// No request of `s` has a zero multiplicity.
pub open spec fn all_nonzero<P>(s: Seq<Request<P>>) -> bool {
    forall|k: int| 0 <= k < s.len() ==> (#[trigger] s[k]).diff != 0
}

/// `find_slot` is a position of `s`, or -1, and names a request of the same slot.
pub proof fn lemma_find_slot<P>(s: Seq<Request<P>>, r: Request<P>)
    ensures
        -1 <= find_slot(s, r) < s.len(),
        find_slot(s, r) >= 0 ==> same_slot(s[find_slot(s, r)], r),
    decreases s.len(),
{
    if s.len() > 0 && !same_slot(s.last(), r) {
        lemma_find_slot(s.drop_last(), r);
    }
}

pub proof fn lemma_merge_into_nonzero<P>(s: Seq<Request<P>>, r: Request<P>)
    requires
        all_nonzero(s),
    ensures
        all_nonzero(merge_into(s, r)),
{
    lemma_find_slot(s, r);
    let m = merge_into(s, r);
    if r.diff != 0 {
        let i = find_slot(s, r);
        if i >= 0 {
            let d = s[i].diff + r.diff;
            if !(d < i64::MIN || d > i64::MAX) && d == 0 {
                assert forall|k: int| 0 <= k < m.len() implies (#[trigger] m[k]).diff != 0 by {
                    if k < i {
                        assert(m[k] == s[k]);
                    } else {
                        assert(m[k] == s[k + 1]);
                    }
                }
            }
        }
    }
}

/// Merging keeps every multiplicity nonzero.
pub proof fn lemma_merge_all_nonzero<P>(s: Seq<Request<P>>, batch: Seq<Request<P>>)
    requires
        all_nonzero(s),
    ensures
        all_nonzero(merge_all(s, batch)),
    decreases batch.len(),
{
    if batch.len() > 0 {
        lemma_merge_all_nonzero(s, batch.drop_last());
        lemma_merge_into_nonzero(merge_all(s, batch.drop_last()), batch.last());
    }
}

/// Merging one batch, or the same requests split into two batches, leaves
/// the same requests.
pub proof fn lemma_merge_batching<P>(s: Seq<Request<P>>, a: Seq<Request<P>>, b: Seq<Request<P>>)
    ensures
        merge_all(s, a + b) == merge_all(merge_all(s, a), b),
    decreases b.len(),
{
    if b.len() == 0 {
        assert(a + b =~= a);
    } else {
        assert((a + b).drop_last() =~= a + b.drop_last());
        assert((a + b).last() == b.last());
        lemma_merge_batching(s, a, b.drop_last());
    }
}

fn same_slot_check<P: Copy + PartialEq>(a: &Request<P>, b: &Request<P>) -> (r: bool)
    requires
        obeys_concrete_eq::<P>(),
    ensures
        r == same_slot(*a, *b),
{
    proof {
        reveal(obeys_concrete_eq);
    }
    a.key == b.key && a.time == b.time && a.prefix.eq(&b.prefix)
}

fn find_slot_exec<P: Copy + PartialEq>(entries: &Vec<Request<P>>, r: &Request<P>) -> (i: Option<usize>)
    requires
        obeys_concrete_eq::<P>(),
    ensures
        match i {
            Some(i) => i == find_slot(entries@, *r),
            None => find_slot(entries@, *r) == -1,
        },
{
    let mut i: usize = entries.len();
    assert(entries@.take(i as int) =~= entries@);
    while i > 0
        invariant
            i <= entries@.len(),
            obeys_concrete_eq::<P>(),
            find_slot(entries@, *r) == find_slot(entries@.take(i as int), *r),
        decreases i,
    {
        assert(entries@.take(i as int).drop_last() =~= entries@.take(i - 1));
        assert(entries@.take(i as int).last() == entries@[i - 1]);
        if same_slot_check(&entries[i - 1], r) {
            return Some(i - 1);
        }
        i = i - 1;
    }
    None
}

/// Merges one request into the requests of a bucket.
pub fn merge_request<P: Copy + PartialEq>(entries: &mut Vec<Request<P>>, r: Request<P>)
    requires
        obeys_concrete_eq::<P>(),
    ensures
        final(entries)@ == merge_into(old(entries)@, r),
{
    if r.diff == 0 {
        return;
    }
    proof {
        lemma_find_slot(entries@, r);
    }
    match find_slot_exec(entries, &r) {
        None => {
            entries.push(r);
        },
        Some(i) => {
            let held = entries[i];
            let d: i128 = held.diff as i128 + r.diff as i128;
            if d < i64::MIN as i128 || d > i64::MAX as i128 {
                entries.push(r);
            } else if d == 0 {
                entries.remove(i);
            } else {
                entries.set(i, Request { prefix: held.prefix, key: held.key, time: held.time, diff: d as i64 });
            }
        },
    }
}

/// Merges a batch of requests, in order, into the requests of a bucket.
pub fn merge_batch<P: Copy + PartialEq>(entries: &mut Vec<Request<P>>, batch: &Vec<Request<P>>)
    requires
        obeys_concrete_eq::<P>(),
    ensures
        final(entries)@ == merge_all(old(entries)@, batch@),
{
    let ghost start = entries@;
    let mut j: usize = 0;
    while j < batch.len()
        invariant
            j <= batch@.len(),
            obeys_concrete_eq::<P>(),
            entries@ == merge_all(start, batch@.take(j as int)),
        decreases batch@.len() - j,
    {
        assert(batch@.take(j + 1).drop_last() =~= batch@.take(j as int));
        assert(batch@.take(j + 1).last() == batch@[j as int]);
        merge_request(entries, batch[j]);
        j = j + 1;
    }
    assert(batch@.take(j as int) =~= batch@);
}

} // verus!
