use vstd::prelude::*;

verus! {

/// True when some element of the frontier is at or before `t`, that is, when
/// updates at time `t` may still arrive.
pub open spec fn frontier_le(frontier: Seq<u64>, t: u64) -> bool {
    exists|i: int| 0 <= i < frontier.len() && #[trigger] frontier[i] <= t
}

/// A time is closed once no element of the frontier is at or before it.
pub open spec fn is_closed(frontier: Seq<u64>, t: u64) -> bool {
    !frontier_le(frontier, t)
}

/// Tests whether the frontier still admits updates at time `t`.
pub fn less_equal(frontier: &Vec<u64>, t: u64) -> (r: bool)
    ensures
        r == frontier_le(frontier@, t),
{
    let mut i: usize = 0;
    while i < frontier.len()
        invariant
            i <= frontier@.len(),
            forall|j: int| 0 <= j < i ==> frontier@[j] > t,
        decreases frontier@.len() - i,
    {
        if frontier[i] <= t {
            return true;
        }
        i = i + 1;
    }
    false
}

} // verus!
