use vstd::prelude::*;

verus! {

/// The history of one value under a key of the arrangement: every
/// `(time, diff)` update that the trace holds for it.
pub struct ValHistory<V> {
    pub val: V,
    pub updates: Vec<(u64, i64)>,
}

/// The values stored under one key of the arrangement, in cursor order.
pub struct KeyHistory<V> {
    pub key: u64,
    pub vals: Vec<ValHistory<V>>,
}

/// The multiplicity accumulated by the updates at times no later than `t`.
pub open spec fn count_at(updates: Seq<(u64, i64)>, t: u64) -> int
    decreases updates.len(),
{
    if updates.len() == 0 {
        0
    } else {
        count_at(updates.drop_last(), t) + if updates.last().0 <= t {
            updates.last().1 as int
        } else {
            0int
        }
    }
}

/// The values found under `key`: those of the first history with that key,
/// none when the key is absent.
pub open spec fn vals_for<V>(trace: Seq<KeyHistory<V>>, key: u64) -> Seq<ValHistory<V>>
    decreases trace.len(),
{
    if trace.len() == 0 {
        Seq::empty()
    } else if trace[0].key == key {
        trace[0].vals@
    } else {
        vals_for(trace.drop_first(), key)
    }
}

/// Each update moves a count by at most 2^63.
pub proof fn lemma_count_len_bounded(updates: Seq<(u64, i64)>, t: u64)
    ensures
        -(updates.len() * 0x8000_0000_0000_0000) <= count_at(updates, t) <= updates.len()
            * 0x8000_0000_0000_0000,
    decreases updates.len(),
{
    if updates.len() > 0 {
        lemma_count_len_bounded(updates.drop_last(), t);
    }
}

/// Folds the updates at times no later than `t` into one count; the count
/// is kept in an `i128`, where no sum of `i64` updates overflows.
pub fn count_as_of(updates: &Vec<(u64, i64)>, t: u64) -> (count: i128)
    ensures
        count == count_at(updates@, t),
{
    let mut count: i128 = 0;
    let mut i: usize = 0;
    while i < updates.len()
        invariant
            i <= updates@.len(),
            count == count_at(updates@.take(i as int), t),
        decreases updates@.len() - i,
    {
        let (time, diff) = updates[i];
        proof {
            let next = updates@.take(i + 1);
            assert(next.drop_last() =~= updates@.take(i as int));
            lemma_count_len_bounded(next, t);
            assert(next.len() <= 0xffff_ffff_ffff_ffff);
        }
        if time <= t {
            count = count + diff as i128;
        }
        i = i + 1;
    }
    assert(updates@.take(i as int) =~= updates@);
    count
}

/// Keys strictly increase along the histories, as a cursor yields them.
pub open spec fn keys_sorted<V>(trace: Seq<KeyHistory<V>>) -> bool {
    forall|i: int, j: int| 0 <= i < j < trace.len() ==> (#[trigger] trace[i]).key < (#[trigger] trace[j]).key
}

proof fn lemma_vals_for_at<V>(trace: Seq<KeyHistory<V>>, i: int)
    requires
        keys_sorted(trace),
        0 <= i < trace.len(),
    ensures
        vals_for(trace, trace[i].key) == trace[i].vals@,
    decreases trace.len(),
{
    if i > 0 {
        assert(trace[0].key < trace[i].key);
        let rest = trace.drop_first();
        assert(rest[i - 1] == trace[i]);
        assert(keys_sorted(rest)) by {
            assert forall|a: int, b: int| 0 <= a < b < rest.len() implies (#[trigger] rest[a]).key < (#[trigger] rest[b]).key by {
                assert(rest[a] == trace[a + 1] && rest[b] == trace[b + 1]);
            }
        }
        lemma_vals_for_at(rest, i - 1);
    }
}

proof fn lemma_vals_for_absent<V>(trace: Seq<KeyHistory<V>>, key: u64)
    requires
        forall|i: int| 0 <= i < trace.len() ==> (#[trigger] trace[i]).key != key,
    ensures
        vals_for(trace, key) == Seq::<ValHistory<V>>::empty(),
    decreases trace.len(),
{
    if trace.len() > 0 {
        let rest = trace.drop_first();
        assert forall|i: int| 0 <= i < rest.len() implies (#[trigger] rest[i]).key != key by {
            assert(rest[i] == trace[i + 1]);
        }
        lemma_vals_for_absent(rest, key);
    }
}

/// Finds the position of `key` among the histories, as a cursor's seek does.
pub fn seek_key<V>(trace: &Vec<KeyHistory<V>>, key: u64) -> (r: Option<usize>)
    requires
        keys_sorted(trace@),
    ensures
        match r {
            Some(i) => i < trace@.len() && trace@[i as int].key == key && vals_for(trace@, key)
                == trace@[i as int].vals@,
            None => vals_for(trace@, key) == Seq::<ValHistory<V>>::empty(),
        },
{
    let mut lo: usize = 0;
    let mut hi: usize = trace.len();
    while lo < hi
        invariant
            lo <= hi <= trace@.len(),
            keys_sorted(trace@),
            forall|i: int| 0 <= i < lo ==> (#[trigger] trace@[i]).key < key,
            forall|i: int| hi <= i < trace@.len() ==> (#[trigger] trace@[i]).key > key,
        decreases hi - lo,
    {
        let mid = lo + (hi - lo) / 2;
        let k = trace[mid].key;
        if k == key {
            proof {
                lemma_vals_for_at(trace@, mid as int);
            }
            return Some(mid);
        } else if k < key {
            assert forall|i: int| 0 <= i < mid + 1 implies (#[trigger] trace@[i]).key < key by {
                if i < mid {
                    assert(trace@[i].key < trace@[mid as int].key);
                }
            }
            lo = mid + 1;
        } else {
            assert forall|i: int| mid <= i < trace@.len() implies (#[trigger] trace@[i]).key > key by {
                if i > mid {
                    assert(trace@[mid as int].key < trace@[i].key);
                }
            }
            hi = mid;
        }
    }
    proof {
        lemma_vals_for_absent(trace@, key);
    }
    None
}

} // verus!
