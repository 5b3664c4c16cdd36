//! The decisions of the balancer, as functions of plain numbers: which
//! algorithm the connection counts call for, which host round robin serves
//! next, and which host has the fewest connections.

use vstd::prelude::*;
use vstd::arithmetic::div_mod::{
    lemma_add_mod_noop_right,
    lemma_fundamental_div_mod,
    lemma_mod_add_multiples_vanish,
    lemma_mod_bound,
    lemma_mod_twice,
};

verus! {

/// The algorithm by which a pool picks the host for the next request.
#[derive(Debug, Clone, Copy, PartialEq, Eq, Structural)]
pub enum LoadBalancingAlgorithm {
    RoundRobin,
    LeastConnections,
}

impl Default for LoadBalancingAlgorithm {
    /// Round robin, the algorithm a pool starts with.
    fn default() -> (a: Self)
        ensures
            a == LoadBalancingAlgorithm::RoundRobin,
    {
        LoadBalancingAlgorithm::RoundRobin
    }
}

/// Some host has more connections than the cutover allows.
pub open spec fn exceeds_cutover(counts: Seq<usize>, cutover: usize) -> bool {
    exists|i: int| 0 <= i < counts.len() && #[trigger] counts[i] > cutover
}

/// The algorithm that the connection counts of a pool's hosts call for:
/// least connections as soon as one host is above the cutover, round robin
/// otherwise.
pub open spec fn algorithm_for(counts: Seq<usize>, cutover: usize) -> LoadBalancingAlgorithm {
    if exceeds_cutover(counts, cutover) {
        LoadBalancingAlgorithm::LeastConnections
    } else {
        LoadBalancingAlgorithm::RoundRobin
    }
}

/// Chooses the algorithm for hosts whose connection counts are `counts`.
pub fn algorithm_for_connections(counts: &Vec<usize>, cutover: usize) -> (a: LoadBalancingAlgorithm)
    ensures
        a == algorithm_for(counts@, cutover),
        a == LoadBalancingAlgorithm::LeastConnections <==> exists|i: int|
            0 <= i < counts@.len() && #[trigger] counts@[i] > cutover,
        a == LoadBalancingAlgorithm::RoundRobin <==> forall|i: int|
            0 <= i < counts@.len() ==> #[trigger] counts@[i] <= cutover,
{
    let mut i: usize = 0;
    while i < counts.len()
        invariant
            i <= counts.len(),
            forall|j: int| 0 <= j < i ==> #[trigger] counts@[j] <= cutover,
        decreases counts.len() - i,
    {
        if counts[i] > cutover {
            assert(counts@[i as int] > cutover);
            return LoadBalancingAlgorithm::LeastConnections;
        }
        i = i + 1;
    }
    LoadBalancingAlgorithm::RoundRobin
}

/// The algorithm the counts call for is least connections exactly when
/// some count, at any position, is above the cutover, and round robin
/// exactly when every count is at most the cutover.
pub proof fn algorithm_for_reads_every_count(counts: Seq<usize>, cutover: usize)
    ensures
        algorithm_for(counts, cutover) == LoadBalancingAlgorithm::LeastConnections
            <==> exists|i: int| 0 <= i < counts.len() && #[trigger] counts[i] > cutover,
        algorithm_for(counts, cutover) == LoadBalancingAlgorithm::RoundRobin <==> forall|i: int|
            0 <= i < counts.len() ==> #[trigger] counts[i] <= cutover,
{
}

/// `i` is the position of the first of the smallest counts.
pub open spec fn is_first_minimum(counts: Seq<usize>, i: int) -> bool {
    &&& 0 <= i < counts.len()
    &&& forall|j: int| 0 <= j < counts.len() ==> counts[i] <= #[trigger] counts[j]
    &&& forall|j: int| 0 <= j < i ==> #[trigger] counts[j] > counts[i]
}

/// The position of the host with the fewest connections; of several such
/// hosts, the first.
pub fn least_connections_index(counts: &Vec<usize>) -> (i: usize)
    requires
        counts.len() > 0,
    ensures
        is_first_minimum(counts@, i as int),
        i < counts@.len(),
        forall|j: int| 0 <= j < counts@.len() ==> counts@[i as int] <= #[trigger] counts@[j],
        forall|j: int| 0 <= j < i ==> #[trigger] counts@[j] > counts@[i as int],
{
    let mut best: usize = 0;
    let mut k: usize = 1;
    while k < counts.len()
        invariant
            1 <= k <= counts.len(),
            best < k,
            forall|j: int| 0 <= j < k ==> counts@[best as int] <= #[trigger] counts@[j],
            forall|j: int| 0 <= j < best ==> #[trigger] counts@[j] > counts@[best as int],
        decreases counts.len() - k,
    {
        if counts[k] < counts[best] {
            best = k;
        }
        k = k + 1;
    }
    best
}

/// The first minimum has no smaller count anywhere, and every count before
/// it is larger.
pub proof fn first_minimum_is_least(counts: Seq<usize>, i: int)
    requires
        is_first_minimum(counts, i),
    ensures
        0 <= i < counts.len(),
        forall|j: int| 0 <= j < counts.len() ==> counts[i] <= #[trigger] counts[j],
        forall|j: int| 0 <= j < i ==> #[trigger] counts[j] > counts[i],
{
}

/// The first minimum is unique: the least-connections choice is determined
/// by the counts alone.
pub proof fn first_minimum_is_unique(counts: Seq<usize>, i: int, k: int)
    requires
        is_first_minimum(counts, i),
        is_first_minimum(counts, k),
    ensures
        i == k,
{
    if i < k {
        assert(counts[i] > counts[k]);
        assert(counts[k] <= counts[i]);
    } else if k < i {
        assert(counts[k] > counts[i]);
        assert(counts[i] <= counts[k]);
    }
}

/// The position round robin stands at after one call from `index`, among
/// `len` hosts.
pub open spec fn round_robin_next(index: int, len: int) -> int {
    (index + 1) % len
}

/// The position round robin stands at after `steps` calls from `index`.
pub open spec fn round_robin_after(index: int, len: int, steps: nat) -> int
    decreases steps,
{
    if steps == 0 {
        index
    } else {
        round_robin_next(round_robin_after(index, len, (steps - 1) as nat), len)
    }
}

/// After at least one call, round robin stands at `(index + steps) % len`.
pub proof fn round_robin_after_is_offset(index: int, len: int, steps: nat)
    requires
        0 <= index,
        0 < len,
        steps >= 1,
    ensures
        round_robin_after(index, len, steps) == (index + steps) % len,
    decreases steps,
{
    assert(round_robin_after(index, len, 0) == index);
    if steps > 1 {
        round_robin_after_is_offset(index, len, (steps - 1) as nat);
        let x = index + steps - 1;
        assert(round_robin_after(index, len, steps) == (1 + x % len) % len);
        lemma_add_mod_noop_right(1, x, len);
    }
}

/// The position of the host that a round-robin call serves when the pool
/// stands at `index`: the call serves this host, then moves on to
/// `round_robin_next(index, len)`.
pub open spec fn round_robin_pick(index: int, len: int) -> int {
    index % len
}

/// The `k`-th round-robin call (counting from zero) serves the host at
/// `(index + k) % len`.
pub proof fn round_robin_pick_after(index: int, len: int, k: nat)
    requires
        0 <= index,
        0 < len,
    ensures
        round_robin_pick(round_robin_after(index, len, k), len) == (index + k) % len,
        0 <= round_robin_pick(round_robin_after(index, len, k), len) < len,
{
    if k == 0 {
        assert(round_robin_after(index, len, 0) == index);
    } else {
        round_robin_after_is_offset(index, len, k);
        lemma_mod_twice(index + k, len);
    }
    lemma_mod_bound(index + k, len);
}

/// Two numbers fewer than `len` apart leave the same remainder only when
/// they are equal.
proof fn same_remainder_close_is_equal(x: int, y: int, len: int)
    requires
        0 <= x <= y,
        y - x < len,
        x % len == y % len,
    ensures
        x == y,
{
    lemma_fundamental_div_mod(x, len);
    lemma_fundamental_div_mod(y, len);
    let q1 = x / len;
    let q2 = y / len;
    let r = x % len;
    assert(len * (q2 - q1) == y - x) by (nonlinear_arith)
        requires
            len * q1 + r == x,
            len * q2 + r == y,
    ;
    if y != x {
        assert(false) by (nonlinear_arith)
            requires
                len * (q2 - q1) == y - x,
                0 < y - x < len,
        ;
    }
}

/// Each round-robin call serves the host after the one the call before it
/// served.
pub proof fn round_robin_serves_hosts_in_turn(index: int, len: int, k: nat)
    requires
        0 <= index,
        0 < len,
    ensures
        round_robin_pick(round_robin_after(index, len, k + 1), len) == (round_robin_pick(
            round_robin_after(index, len, k),
            len,
        ) + 1) % len,
{
    round_robin_pick_after(index, len, k);
    round_robin_pick_after(index, len, k + 1);
    lemma_add_mod_noop_right(1, index + k, len);
}

/// Round robin serves the same host again after one call for each of the
/// `len` hosts.
pub proof fn round_robin_returns_after_len_calls(index: int, len: int, k: nat)
    requires
        0 <= index,
        0 < len,
    ensures
        round_robin_pick(round_robin_after(index, len, k + len as nat), len) == round_robin_pick(
            round_robin_after(index, len, k),
            len,
        ),
{
    round_robin_pick_after(index, len, k);
    round_robin_pick_after(index, len, k + len as nat);
    lemma_mod_add_multiples_vanish(index + k, len);
}

/// Calls fewer than `len` apart serve different hosts: any `len`
/// consecutive calls serve every host once.
pub proof fn round_robin_serves_distinct_hosts(index: int, len: int, a: nat, b: nat)
    requires
        0 <= index,
        0 < len,
        a < b,
        b - a < len,
    ensures
        round_robin_pick(round_robin_after(index, len, a), len) != round_robin_pick(
            round_robin_after(index, len, b),
            len,
        ),
{
    round_robin_pick_after(index, len, a);
    round_robin_pick_after(index, len, b);
    if (index + a) % len == (index + b) % len {
        same_remainder_close_is_equal(index + a, index + b, len);
    }
}

} // verus!
