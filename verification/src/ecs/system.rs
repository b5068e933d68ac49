//! Systems: when they run (phase) and in which order (priority).

use vstd::prelude::*;

verus! {

/// The phase of a frame in which a system runs.
#[derive(Debug, Clone, Copy, PartialEq, Eq, Hash, Structural)]
pub enum SystemPhase {
    Init,
    Input,
    Update,
    Render,
    Shutdown,
}

/// Order of systems within a phase: lower runs first.
#[derive(Debug, Clone, Copy, PartialEq, Eq, PartialOrd, Ord, Hash, Structural)]
pub struct SystemPriority(pub u32);

impl SystemPriority {
    pub fn new(priority: u32) -> (r: SystemPriority)
        ensures
            r.0 == priority,
    {
        SystemPriority(priority)
    }
}

impl Default for SystemPriority {
    fn default() -> (r: SystemPriority)
        ensures
            r.0 == 0,
    {
        SystemPriority(0)
    }
}

/// The phases in the order a frame runs them.
pub open spec fn phase_order() -> Seq<SystemPhase> {
    seq![
        SystemPhase::Init,
        SystemPhase::Input,
        SystemPhase::Update,
        SystemPhase::Render,
        SystemPhase::Shutdown,
    ]
}

/// The phases in the order a frame runs them.
pub fn phases_in_order() -> (r: Vec<SystemPhase>)
    ensures
        r@ == phase_order(),
{
    let r = vec![
        SystemPhase::Init,
        SystemPhase::Input,
        SystemPhase::Update,
        SystemPhase::Render,
        SystemPhase::Shutdown,
    ];
    assert(r@ =~= phase_order());
    r
}

/// Priorities in non-decreasing order.
pub open spec fn priorities_sorted(s: Seq<u32>) -> bool {
    forall|i: int, j: int| 0 <= i <= j < s.len() ==> s[i] <= s[j]
}

/// A place to insert `p` into the sorted `s` that keeps it sorted.
pub open spec fn is_insertion_point(s: Seq<u32>, p: u32, i: int) -> bool {
    &&& 0 <= i <= s.len()
    &&& forall|k: int| 0 <= k < i ==> s[k] <= p
    &&& forall|k: int| i <= k < s.len() ==> p <= s[k]
}

/// Binary search in the sorted `s`: `Ok(i)` is the index of an element
/// equal to `p`, `Err(i)` the index where `p` could be inserted keeping the
/// order, when no element equals `p`.
fn binary_search_u32(s: &[u32], p: u32) -> (r: Result<usize, usize>)
    requires
        priorities_sorted(s@),
    ensures
        r matches Ok(i) ==> i < s@.len() && s@[i as int] == p,
        r matches Err(i) ==> i <= s@.len() && (forall|k: int| 0 <= k < i ==> s@[k] < p) && (forall|
            k: int,
        |
            i <= k < s@.len() ==> p < s@[k]),
{
    let mut lo: usize = 0;
    let mut hi: usize = s.len();
    while lo < hi
        invariant
            lo <= hi <= s@.len(),
            priorities_sorted(s@),
            forall|k: int| 0 <= k < lo ==> s@[k] < p,
            forall|k: int| hi <= k < s@.len() ==> p < s@[k],
        decreases hi - lo,
    {
        let mid = lo + (hi - lo) / 2;
        let v = s[mid];
        if v == p {
            return Ok(mid);
        } else if v < p {
            proof {
                assert forall|k: int| 0 <= k < mid + 1 implies s@[k] < p by {
                    assert(s@[k] <= s@[mid as int]);
                }
            }
            lo = mid + 1;
        } else {
            proof {
                assert forall|k: int| mid <= k < s@.len() implies p < s@[k] by {
                    assert(s@[mid as int] <= s@[k]);
                }
            }
            hi = mid;
        }
    }
    Err(lo)
}

/// Where a system of priority `priority` joins a phase whose systems have
/// the sorted priorities `priorities`: at an equal priority if there is
/// one, else where it keeps the order.
pub fn priority_slot(priorities: &Vec<u32>, priority: SystemPriority) -> (r: usize)
    requires
        priorities_sorted(priorities@),
    ensures
        is_insertion_point(priorities@, priority.0, r as int),
{
    match binary_search_u32(priorities.as_slice(), priority.0) {
        Ok(i) => i,
        Err(i) => i,
    }
}

/// Inserting at an insertion point keeps the priorities sorted.
pub proof fn lemma_slot_keeps_sorted(s: Seq<u32>, p: u32, i: int)
    requires
        priorities_sorted(s),
        is_insertion_point(s, p, i),
    ensures
        priorities_sorted(s.insert(i, p)),
        s.insert(i, p).len() == s.len() + 1,
        s.insert(i, p)[i] == p,
{
    let t = s.insert(i, p);
    assert forall|a: int, b: int| 0 <= a <= b < t.len() implies t[a] <= t[b] by {
        if a < i && b < i {
            assert(t[a] == s[a] && t[b] == s[b]);
        } else if a < i && b == i {
            assert(t[a] == s[a]);
        } else if a < i {
            assert(t[a] == s[a] && t[b] == s[b - 1]);
        } else if a == i && b > i {
            assert(t[b] == s[b - 1]);
        } else if a > i {
            assert(t[a] == s[a - 1] && t[b] == s[b - 1]);
        }
    }
}

} // verus!
