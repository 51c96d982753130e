//! Service policies: how much of an item's remaining work one turn performs.

use vstd::arithmetic::div_mod::{
    lemma_basic_div, lemma_div_plus_one, lemma_fundamental_div_mod, lemma_mod_bound,
};
use vstd::prelude::*;

verus! {

/// How a station slices the work it owes an item.
#[derive(Clone, Copy, Debug, PartialEq, Eq, Structural)]
pub enum Policy {
    /// Run to completion: one turn performs all the work that is left.
    Fcfs,
    /// Time slicing: one turn performs at most `quantum_ms` of work.
    RoundRobin { quantum_ms: u64 },
}

impl Policy {
    /// A round-robin quantum is a positive duration.
    pub open spec fn wf(self) -> bool {
        match self {
            Policy::Fcfs => true,
            Policy::RoundRobin { quantum_ms } => quantum_ms > 0,
        }
    }

    /// Whether this policy is well formed.
    pub fn is_wf(self) -> (b: bool)
        ensures
            b == self.wf(),
    {
        match self {
            Policy::Fcfs => true,
            Policy::RoundRobin { quantum_ms } => quantum_ms > 0,
        }
    }
}

/// The length of the slice that `policy` grants an item with `remaining` work.
pub open spec fn slice_of(remaining: u64, policy: Policy) -> u64 {
    match policy {
        Policy::Fcfs => remaining,
        Policy::RoundRobin { quantum_ms } => if remaining <= quantum_ms {
            remaining
        } else {
            quantum_ms
        },
    }
}

/// Decides the slice for one turn: everything that is left under `Fcfs`, and
/// the smaller of what is left and the quantum under `RoundRobin`.
pub fn slice_for(remaining: u64, policy: Policy) -> (slice: u64)
    ensures
        slice == slice_of(remaining, policy),
{
    match policy {
        Policy::Fcfs => remaining,
        Policy::RoundRobin { quantum_ms } => if remaining <= quantum_ms {
            remaining
        } else {
            quantum_ms
        },
    }
}

/// `a / b` rounded up, for a positive `b`.
pub open spec fn ceil_div(a: nat, b: nat) -> nat
    recommends
        b > 0,
{
    ((a + b - 1) / (b as int)) as nat
}

/// How many turns an item with `remaining` work needs before it leaves the
/// station: none if it owes nothing, one under `Fcfs`, and `remaining`
/// over the quantum, rounded up, under `RoundRobin`.
pub open spec fn turns_needed(remaining: u64, policy: Policy) -> nat {
    match policy {
        Policy::Fcfs => if remaining == 0 {
            0
        } else {
            1
        },
        Policy::RoundRobin { quantum_ms } => ceil_div(remaining as nat, quantum_ms as nat),
    }
}

/// `ceil_div(a, b)` is the least number of parts of size `b` that cover `a`.
pub proof fn lemma_ceil_div_is_least(a: nat, b: nat)
    requires
        b > 0,
    ensures
        ceil_div(a, b) * b >= a,
        a > 0 ==> (ceil_div(a, b) - 1) * b < a,
        a == 0 ==> ceil_div(a, b) == 0,
{
    let x = (a + b - 1) as int;
    let d = b as int;
    lemma_fundamental_div_mod(x, d);
    lemma_mod_bound(x, d);
    let q = x / d;
    let r = x % d;
    assert(x == d * q + r);
    assert(0 <= r < d);
    if a == 0 {
        lemma_basic_div(x, d);
    }
    assert(q * d == d * q) by (nonlinear_arith);
    assert((q - 1) * d == d * q - d) by (nonlinear_arith);
    if q < 0 {
        assert(d * q <= -d) by (nonlinear_arith)
            requires
                q <= -1,
                d > 0,
        ;
    }
}

/// A slice is never longer than the work that is left, and under a well
/// formed policy it is positive as long as work is left.
pub proof fn lemma_slice_bounds(remaining: u64, policy: Policy)
    ensures
        slice_of(remaining, policy) <= remaining,
        policy.wf() && remaining > 0 ==> slice_of(remaining, policy) > 0,
        policy is Fcfs ==> slice_of(remaining, policy) == remaining,
{
}

/// Each turn brings an item one turn closer to leaving: an item that owes
/// work needs one turn more than it will need after the slice it is
/// granted.
pub proof fn lemma_turn_counts_down(remaining: u64, policy: Policy)
    requires
        policy.wf(),
        remaining > 0,
    ensures
        turns_needed(remaining, policy) == 1 + turns_needed(
            (remaining - slice_of(remaining, policy)) as u64,
            policy,
        ),
        turns_needed(0, policy) == 0,
{
    match policy {
        Policy::Fcfs => {},
        Policy::RoundRobin { quantum_ms } => {
            let q = quantum_ms as int;
            let r = remaining as int;
            // No work, no turn: (q - 1) / q == 0.
            lemma_basic_div(q - 1, q);
            // One quantum more, one turn more: (q + (r - 1)) / q == 1 + (r - 1) / q.
            lemma_div_plus_one(r - 1, q);
            assert(q + (r - 1) == r + q - 1);
            if remaining <= quantum_ms {
                // One slice finishes the item: (r - 1) / q == 0.
                lemma_basic_div(r - 1, q);
            } else {
                // The slice is a quantum, and (r - q) + q - 1 == r - 1.
                assert((r - q) + q - 1 == r - 1);
            }
        },
    }
}

/// The display name of a policy, as a sequence of characters.
pub open spec fn policy_name_of(p: Policy) -> Seq<char> {
    match p {
        Policy::Fcfs => "FCFS"@,
        Policy::RoundRobin { .. } => "RoundRobin"@,
    }
}

/// The display name of a policy: `FCFS` or `RoundRobin`, whatever the quantum.
pub fn policy_name(p: Policy) -> (name: &'static str)
    ensures
        name@ == policy_name_of(p),
{
    match p {
        Policy::Fcfs => "FCFS",
        Policy::RoundRobin { .. } => "RoundRobin",
    }
}

} // verus!
