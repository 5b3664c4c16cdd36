//! The pool of backend hosts, and the choice of the host for each request.

use vstd::prelude::*;
use std::sync::Arc;

use crate::address::HostAddress;
use crate::host::{share_host, Host};
use crate::selection::{
    algorithm_for,
    algorithm_for_connections,
    is_first_minimum,
    least_connections_index,
    round_robin_after,
    round_robin_after_is_offset,
    round_robin_pick,
    round_robin_pick_after,
    round_robin_returns_after_len_calls,
    round_robin_serves_distinct_hosts,
    round_robin_serves_hosts_in_turn,
    LoadBalancingAlgorithm,
};
use vstd::arithmetic::div_mod::{lemma_add_mod_noop_right, lemma_mod_bound};

verus! {

/// The addresses of `hosts`, in order.
pub open spec fn addresses_of(hosts: Seq<Arc<Host>>) -> Seq<HostAddress> {
    hosts.map_values(|h: Arc<Host>| h.address)
}

/// The addresses of a pool that had `existing` once `addrs` are added in
/// turn: each address that is not there yet is appended.
pub open spec fn added(existing: Seq<HostAddress>, addrs: Seq<HostAddress>) -> Seq<HostAddress>
    decreases addrs.len(),
{
    if addrs.len() == 0 {
        existing
    } else {
        let before = added(existing, addrs.drop_last());
        if before.contains(addrs.last()) {
            before
        } else {
            before.push(addrs.last())
        }
    }
}

/// The hosts that a removal of the addresses `removed` keeps.
pub open spec fn kept_by(removed: Seq<HostAddress>) -> spec_fn(Arc<Host>) -> bool {
    |h: Arc<Host>| !removed.contains(h.address)
}

/// A pool after `k` round-robin calls: only its position has moved.
pub open spec fn round_robin_calls(pool: PoolView, k: nat) -> PoolView {
    PoolView {
        next_host_index: round_robin_after(
            pool.next_host_index as int,
            pool.hosts.len() as int,
            k,
        ) as usize,
        ..pool
    }
}

/// The host that a round-robin call serves from `pool`.
pub open spec fn round_robin_choice(pool: PoolView) -> Arc<Host> {
    pool.hosts[round_robin_pick(pool.next_host_index as int, pool.hosts.len() as int)]
}

/// What a pool holds: the cutover above which it balances by least
/// connections, the position from which round robin serves next (taken
/// modulo the number of hosts), the hosts, and the algorithm in use.
pub struct PoolView {
    pub concurrent_connections_cutover: usize,
    pub next_host_index: usize,
    pub hosts: Seq<Arc<Host>>,
    pub algorithm: LoadBalancingAlgorithm,
}

/// A pool of backend hosts among which requests are balanced.
pub struct Pool {
    concurrent_connections_cutover: usize,
    next_host_index: usize,
    hosts: Vec<Arc<Host>>,
    algorithm: LoadBalancingAlgorithm,
}

impl View for Pool {
    type V = PoolView;

    closed spec fn view(&self) -> PoolView {
        PoolView {
            concurrent_connections_cutover: self.concurrent_connections_cutover,
            next_host_index: self.next_host_index,
            hosts: self.hosts@,
            algorithm: self.algorithm,
        }
    }
}

/// Whether one of `hosts` has the address `address`.
fn has_host_at(hosts: &Vec<Arc<Host>>, address: HostAddress) -> (found: bool)
    ensures
        found == addresses_of(hosts@).contains(address),
{
    let mut i: usize = 0;
    while i < hosts.len()
        invariant
            i <= hosts.len(),
            forall|j: int| 0 <= j < i ==> #[trigger] hosts@[j].address != address,
        decreases hosts.len() - i,
    {
        if hosts[i].address == address {
            assert(addresses_of(hosts@)[i as int] == address);
            return true;
        }
        i = i + 1;
    }
    assert forall|j: int| 0 <= j < addresses_of(hosts@).len() implies addresses_of(hosts@)[j]
        != address by {
        assert(hosts@[j].address != address);
    }
    false
}

/// Whether `address` is among `addresses`.
fn is_listed(addresses: &Vec<HostAddress>, address: HostAddress) -> (listed: bool)
    ensures
        listed == addresses@.contains(address),
{
    let mut i: usize = 0;
    while i < addresses.len()
        invariant
            i <= addresses.len(),
            forall|j: int| 0 <= j < i ==> #[trigger] addresses@[j] != address,
        decreases addresses.len() - i,
    {
        if addresses[i] == address {
            assert(addresses@[i as int] == address);
            return true;
        }
        i = i + 1;
    }
    false
}

impl Pool {
    /// An empty pool that balances by round robin and switches to least
    /// connections above `concurrent_connections_cutover`.
    pub fn new(concurrent_connections_cutover: usize) -> (pool: Pool)
        ensures
            pool@ == (PoolView {
                concurrent_connections_cutover,
                next_host_index: 0,
                hosts: Seq::<Arc<Host>>::empty(),
                algorithm: LoadBalancingAlgorithm::RoundRobin,
            }),
    {
        Pool {
            concurrent_connections_cutover,
            next_host_index: 0,
            hosts: Vec::new(),
            algorithm: LoadBalancingAlgorithm::RoundRobin,
        }
    }

    /// The cutover above which the pool balances by least connections.
    pub fn concurrent_connections_cutover(&self) -> (cutover: usize)
        ensures
            cutover == self@.concurrent_connections_cutover,
    {
        self.concurrent_connections_cutover
    }

    /// The algorithm in use.
    pub fn algorithm(&self) -> (algorithm: LoadBalancingAlgorithm)
        ensures
            algorithm == self@.algorithm,
    {
        self.algorithm
    }

    /// The hosts, in the order in which they were added.
    pub fn hosts(&self) -> (hosts: &Vec<Arc<Host>>)
        ensures
            hosts@ == self@.hosts,
    {
        &self.hosts
    }

    /// The connection counts of the hosts, in the order of the hosts.
    fn connection_counts(&self) -> (counts: Vec<usize>)
        ensures
            counts@.len() == self.hosts@.len(),
            forall|i: int| 0 <= i < counts@.len() ==> #[trigger] counts@[i] >= 1,
    {
        let mut counts: Vec<usize> = Vec::new();
        let mut i: usize = 0;
        while i < self.hosts.len()
            invariant
                i <= self.hosts@.len(),
                counts@.len() == i,
                forall|j: int| 0 <= j < i ==> #[trigger] counts@[j] >= 1,
            decreases self.hosts.len() - i,
        {
            let count = Host::count_connections(&self.hosts[i]);
            counts.push(count);
            i = i + 1;
        }
        counts
    }

    /// Sets, and returns, the algorithm that the connection counts `counts`
    /// of the hosts (in the order of the hosts) call for: least connections
    /// when some host has more connections than the cutover, round robin
    /// when none has.
    pub fn determine_algorithm_for_counts(&mut self, counts: &Vec<usize>) -> (algorithm:
        LoadBalancingAlgorithm)
        requires
            counts@.len() == old(self)@.hosts.len(),
        ensures
            final(self)@ == (PoolView { algorithm, ..old(self)@ }),
            algorithm == algorithm_for(counts@, old(self)@.concurrent_connections_cutover),
            algorithm == LoadBalancingAlgorithm::LeastConnections <==> exists|i: int|
                0 <= i < counts@.len() && #[trigger] counts@[i]
                    > old(self)@.concurrent_connections_cutover,
            algorithm == LoadBalancingAlgorithm::RoundRobin <==> forall|i: int|
                0 <= i < counts@.len() ==> #[trigger] counts@[i]
                    <= old(self)@.concurrent_connections_cutover,
    {
        let algorithm = algorithm_for_connections(counts, self.concurrent_connections_cutover);
        self.algorithm = algorithm;
        algorithm
    }

    /// Sets, and returns, the algorithm that the hosts' connection counts
    /// call for: least connections when some host has more connections than
    /// the cutover, round robin otherwise. The counts are read from the
    /// hosts now, and how many requests hold a host is up to the rest of the
    /// program, so the contract speaks of the counts that were read;
    /// `determine_algorithm_for_counts` states the choice for given counts.
    pub fn determine_algorithm(&mut self) -> (algorithm: LoadBalancingAlgorithm)
        ensures
            final(self)@ == (PoolView { algorithm, ..old(self)@ }),
            exists|counts: Seq<usize>|
                #![trigger algorithm_for(counts, old(self)@.concurrent_connections_cutover)]
                counts.len() == old(self)@.hosts.len() && (forall|i: int|
                    0 <= i < counts.len() ==> #[trigger] counts[i] >= 1) && algorithm
                    == algorithm_for(counts, old(self)@.concurrent_connections_cutover) && (
                algorithm == LoadBalancingAlgorithm::LeastConnections <==> exists|i: int|
                    0 <= i < counts.len() && #[trigger] counts[i]
                        > old(self)@.concurrent_connections_cutover),
            old(self)@.hosts.len() == 0 ==> algorithm == LoadBalancingAlgorithm::RoundRobin,
            old(self)@.hosts.len() > 0 && old(self)@.concurrent_connections_cutover == 0
                ==> algorithm == LoadBalancingAlgorithm::LeastConnections,
    {
        let counts = self.connection_counts();
        proof {
            if self.hosts@.len() > 0 && self.concurrent_connections_cutover == 0 {
                assert(counts@[0] > self.concurrent_connections_cutover);
            }
        }
        self.determine_algorithm_for_counts(&counts)
    }

    /// The host with the fewest connections, given the connection counts
    /// `counts` of the hosts (in the order of the hosts): of several such
    /// hosts the first, and `None` for an empty pool.
    pub fn least_connected_host(&self, counts: &Vec<usize>) -> (host: Option<Arc<Host>>)
        requires
            counts@.len() == self@.hosts.len(),
        ensures
            self@.hosts.len() == 0 ==> host is None,
            self@.hosts.len() > 0 ==> exists|i: int|
                #![trigger self@.hosts[i]]
                0 <= i < self@.hosts.len() && is_first_minimum(counts@, i) && (forall|j: int|
                    0 <= j < counts@.len() ==> counts@[i] <= #[trigger] counts@[j]) && (forall|
                    j: int,
                | 0 <= j < i ==> #[trigger] counts@[j] > counts@[i]) && host == Some(
                    self@.hosts[i],
                ),
    {
        if self.hosts.len() == 0 {
            return None;
        }
        let index = least_connections_index(counts);
        let host = share_host(&self.hosts[index]);
        assert(self@.hosts[index as int] == self.hosts@[index as int]);
        Some(host)
    }

    /// The host for the next request, or `None` for an empty pool. Round
    /// robin serves the host at its position and moves on to the one after
    /// it; least connections picks the first of the hosts with the fewest
    /// connections.
    pub fn next_host(&mut self) -> (host: Option<Arc<Host>>)
        ensures
            old(self)@.hosts.len() == 0 ==> host is None && final(self)@ == old(self)@,
            old(self)@.hosts.len() > 0 && old(self)@.algorithm
                == LoadBalancingAlgorithm::RoundRobin ==> {
                &&& final(self)@ == round_robin_calls(old(self)@, 1)
                &&& host == Some(round_robin_choice(old(self)@))
            },
            old(self)@.hosts.len() > 0 && old(self)@.algorithm
                == LoadBalancingAlgorithm::LeastConnections ==> {
                &&& final(self)@ == old(self)@
                &&& exists|counts: Seq<usize>, i: int|
                    #![trigger is_first_minimum(counts, i)]
                    counts.len() == old(self)@.hosts.len() && (forall|j: int|
                        0 <= j < counts.len() ==> #[trigger] counts[j] >= 1) && is_first_minimum(
                        counts,
                        i,
                    ) && 0 <= i < counts.len() && (forall|j: int|
                        0 <= j < counts.len() ==> counts[i] <= #[trigger] counts[j]) && (forall|
                        j: int,
                    | 0 <= j < i ==> #[trigger] counts[j] > counts[i]) && host == Some(
                        old(self)@.hosts[i],
                    )
            },
    {
        let len = self.hosts.len();
        if len == 0 {
            return None;
        }
        match self.algorithm {
            LoadBalancingAlgorithm::RoundRobin => {
                let index = self.next_host_index % len;
                let host = share_host(&self.hosts[index]);
                proof {
                    lemma_mod_bound(self.next_host_index as int, len as int);
                    lemma_add_mod_noop_right(1, self.next_host_index as int, len as int);
                    lemma_mod_bound(self.next_host_index + 1, len as int);
                    assert(round_robin_after(self.next_host_index as int, len as int, 0)
                        == self.next_host_index);
                }
                self.next_host_index = (index + 1) % len;
                Some(host)
            },
            LoadBalancingAlgorithm::LeastConnections => {
                let counts = self.connection_counts();
                let host = self.least_connected_host(&counts);
                proof {
                    let i = choose|i: int|
                        #![trigger self@.hosts[i]]
                        0 <= i < self@.hosts.len() && is_first_minimum(counts@, i) && (forall|
                            j: int,
                        | 0 <= j < counts@.len() ==> counts@[i] <= #[trigger] counts@[j]) && (
                        forall|j: int| 0 <= j < i ==> #[trigger] counts@[j] > counts@[i])
                            && host == Some(self@.hosts[i]);
                    assert(is_first_minimum(counts@, i));
                }
                host
            },
        }
    }

    /// Adds a host for each of `addresses` that the pool does not hold yet,
    /// in the order given; the hosts already there stay as they are.
    pub fn add_hosts(&mut self, addresses: Vec<HostAddress>)
        ensures
            final(self)@.concurrent_connections_cutover == old(
                self,
            )@.concurrent_connections_cutover,
            final(self)@.next_host_index == old(self)@.next_host_index,
            final(self)@.algorithm == old(self)@.algorithm,
            old(self)@.hosts.len() <= final(self)@.hosts.len(),
            final(self)@.hosts.take(old(self)@.hosts.len() as int) == old(self)@.hosts,
            addresses_of(final(self)@.hosts) == added(addresses_of(old(self)@.hosts), addresses@),
            addresses_of(old(self)@.hosts).no_duplicates() ==> addresses_of(
                final(self)@.hosts,
            ).no_duplicates(),
    {
        let ghost old_hosts = self.hosts@;
        let mut i: usize = 0;
        while i < addresses.len()
            invariant
                i <= addresses@.len(),
                self.concurrent_connections_cutover == old(self).concurrent_connections_cutover,
                self.next_host_index == old(self).next_host_index,
                self.algorithm == old(self).algorithm,
                old_hosts == old(self).hosts@,
                old_hosts.len() <= self.hosts@.len(),
                self.hosts@.take(old_hosts.len() as int) == old_hosts,
                addresses_of(self.hosts@) == added(
                    addresses_of(old_hosts),
                    addresses@.take(i as int),
                ),
            decreases addresses.len() - i,
        {
            let address = addresses[i];
            let ghost before = self.hosts@;
            if !has_host_at(&self.hosts, address) {
                self.hosts.push(Arc::new(Host::new(address)));
                assert(addresses_of(self.hosts@) =~= addresses_of(before).push(address));
                assert(self.hosts@.take(old_hosts.len() as int) =~= before.take(
                    old_hosts.len() as int,
                ));
            }
            assert(addresses@.take(i + 1).drop_last() =~= addresses@.take(i as int));
            i = i + 1;
        }
        assert(addresses@.take(addresses@.len() as int) =~= addresses@);
        proof {
            if addresses_of(old_hosts).no_duplicates() {
                adding_keeps_addresses_distinct(addresses_of(old_hosts), addresses@);
            }
        }
    }

    /// Removes the hosts whose address is among `addresses`; the others
    /// stay, in their order.
    pub fn remove_hosts(&mut self, addresses: Vec<HostAddress>)
        ensures
            final(self)@ == (PoolView {
                hosts: old(self)@.hosts.filter(kept_by(addresses@)),
                ..old(self)@
            }),
            addresses_of(old(self)@.hosts).no_duplicates() ==> addresses_of(
                final(self)@.hosts,
            ).no_duplicates(),
    {
        let mut kept: Vec<Arc<Host>> = Vec::new();
        let mut i: usize = 0;
        while i < self.hosts.len()
            invariant
                i <= self.hosts@.len(),
                self.hosts@ == old(self).hosts@,
                kept@ == self.hosts@.take(i as int).filter(kept_by(addresses@)),
            decreases self.hosts.len() - i,
        {
            proof {
                reveal(Seq::filter);
                assert(self.hosts@.take(i + 1).drop_last() =~= self.hosts@.take(i as int));
            }
            if !is_listed(&addresses, self.hosts[i].address) {
                kept.push(share_host(&self.hosts[i]));
            }
            i = i + 1;
        }
        assert(self.hosts@.take(self.hosts@.len() as int) =~= self.hosts@);
        self.hosts = kept;
        proof {
            if addresses_of(old(self).hosts@).no_duplicates() {
                removing_keeps_addresses_distinct(old(self).hosts@, addresses@);
            }
        }
    }
}

impl Default for Pool {
    /// An empty pool with a cutover of zero.
    fn default() -> (pool: Pool)
        ensures
            pool@ == (PoolView {
                concurrent_connections_cutover: 0,
                next_host_index: 0,
                hosts: Seq::<Arc<Host>>::empty(),
                algorithm: LoadBalancingAlgorithm::RoundRobin,
            }),
    {
        Pool::new(0)
    }
}

/// The position of the host that the `k`-th of consecutive round-robin
/// calls (counting from zero) serves.
pub open spec fn round_robin_position(pool: PoolView, k: nat) -> int {
    (pool.next_host_index + k) % (pool.hosts.len() as int)
}

/// `k` round-robin calls followed by one more are `k + 1` calls, and the
/// `k`-th call serves the host at `round_robin_position(pool, k)`.
pub proof fn round_robin_calls_in_sequence(pool: PoolView, k: nat)
    requires
        0 < pool.hosts.len() <= usize::MAX,
    ensures
        round_robin_calls(round_robin_calls(pool, k), 1) == round_robin_calls(pool, k + 1),
        0 <= round_robin_position(pool, k) < pool.hosts.len(),
        round_robin_choice(round_robin_calls(pool, k)) == pool.hosts[round_robin_position(
            pool,
            k,
        )],
{
    let len = pool.hosts.len() as int;
    let index = pool.next_host_index as int;
    let after = round_robin_after(index, len, k);
    if k == 0 {
        assert(after == index);
    } else {
        round_robin_after_is_offset(index, len, k);
        lemma_mod_bound(index + k, len);
    }
    assert(after as usize as int == after);
    let moved = round_robin_calls(pool, k);
    assert(round_robin_after(after, len, 0) == after);
    assert(round_robin_calls(moved, 1).next_host_index == round_robin_calls(
        pool,
        k + 1,
    ).next_host_index);
    round_robin_pick_after(index, len, k);
}

/// Consecutive round-robin calls serve the hosts in turn: each call serves
/// the host after the one the call before it served, the call `len` calls
/// later serves the same host again, and calls fewer than `len` apart serve
/// hosts at different positions, so any `len` consecutive calls serve every
/// host once.
pub proof fn round_robin_calls_serve_hosts_in_turn(pool: PoolView, a: nat, b: nat)
    requires
        0 < pool.hosts.len() <= usize::MAX,
    ensures
        round_robin_position(pool, a + 1) == (round_robin_position(pool, a) + 1) % (
        pool.hosts.len() as int),
        round_robin_position(pool, a + pool.hosts.len()) == round_robin_position(pool, a),
        a < b && b - a < pool.hosts.len() ==> round_robin_position(pool, a)
            != round_robin_position(pool, b),
{
    let len = pool.hosts.len() as int;
    let index = pool.next_host_index as int;
    round_robin_serves_hosts_in_turn(index, len, a);
    round_robin_pick_after(index, len, a);
    round_robin_pick_after(index, len, a + 1);
    round_robin_returns_after_len_calls(index, len, a);
    round_robin_pick_after(index, len, a + pool.hosts.len());
    if a < b && b - a < pool.hosts.len() {
        round_robin_serves_distinct_hosts(index, len, a, b);
        round_robin_pick_after(index, len, b);
    }
}

/// Adding addresses keeps the addresses of a pool distinct: no host is
/// added twice.
pub proof fn adding_keeps_addresses_distinct(existing: Seq<HostAddress>, addrs: Seq<HostAddress>)
    requires
        existing.no_duplicates(),
    ensures
        added(existing, addrs).no_duplicates(),
    decreases addrs.len(),
{
    if addrs.len() > 0 {
        adding_keeps_addresses_distinct(existing, addrs.drop_last());
        let before = added(existing, addrs.drop_last());
        if !before.contains(addrs.last()) {
            let after = before.push(addrs.last());
            assert forall|i: int, j: int|
                0 <= i < after.len() && 0 <= j < after.len() && i != j implies after[i]
                != after[j] by {
                if i == after.len() - 1 {
                    assert(before[j] == after[j]);
                } else if j == after.len() - 1 {
                    assert(before[i] == after[i]);
                }
            }
        }
    }
}

/// Adding addresses holds exactly the addresses that were there and those
/// added.
pub proof fn adding_holds_old_and_new(existing: Seq<HostAddress>, addrs: Seq<HostAddress>, a: HostAddress)
    ensures
        added(existing, addrs).contains(a) <==> existing.contains(a) || addrs.contains(a),
    decreases addrs.len(),
{
    if addrs.len() > 0 {
        adding_holds_old_and_new(existing, addrs.drop_last(), a);
        let before = added(existing, addrs.drop_last());
        let last = addrs.last();
        if addrs.drop_last().contains(a) {
            let k = choose|k: int| 0 <= k < addrs.drop_last().len() && addrs.drop_last()[k] == a;
            assert(addrs[k] == a);
        }
        if addrs.contains(a) && !addrs.drop_last().contains(a) {
            let k = choose|k: int| 0 <= k < addrs.len() && addrs[k] == a;
            if k < addrs.len() - 1 {
                assert(addrs.drop_last()[k] == a);
            }
            assert(a == last);
        }
        if !before.contains(last) {
            let after = before.push(last);
            if before.contains(a) {
                let k = choose|k: int| 0 <= k < before.len() && before[k] == a;
                assert(after[k] == a);
            }
            if a == last {
                assert(after[after.len() - 1] == a);
            }
            if after.contains(a) && a != last {
                let k = choose|k: int| 0 <= k < after.len() && after[k] == a;
                assert(before[k] == a);
            }
        }
    }
}

/// Adding the same addresses a second time changes nothing.
pub proof fn adding_twice_is_adding_once(existing: Seq<HostAddress>, addrs: Seq<HostAddress>)
    ensures
        added(added(existing, addrs), addrs) == added(existing, addrs),
{
    let once = added(existing, addrs);
    assert forall|i: int| 0 <= i < addrs.len() implies once.contains(#[trigger] addrs[i]) by {
        assert(addrs.contains(addrs[i]));
        adding_holds_old_and_new(existing, addrs, addrs[i]);
    }
    adding_only_new_is_nothing(once, addrs);
}

/// Adding addresses that are all there already changes nothing.
pub proof fn adding_only_new_is_nothing(existing: Seq<HostAddress>, addrs: Seq<HostAddress>)
    requires
        forall|i: int| 0 <= i < addrs.len() ==> existing.contains(#[trigger] addrs[i]),
    ensures
        added(existing, addrs) == existing,
    decreases addrs.len(),
{
    if addrs.len() > 0 {
        assert forall|i: int| 0 <= i < addrs.drop_last().len() implies existing.contains(
            #[trigger] addrs.drop_last()[i],
        ) by {
            assert(addrs.drop_last()[i] == addrs[i]);
        }
        adding_only_new_is_nothing(existing, addrs.drop_last());
        assert(existing.contains(addrs[addrs.len() - 1]));
    }
}

/// Removing hosts keeps the addresses of a pool distinct.
pub proof fn removing_keeps_addresses_distinct(hosts: Seq<Arc<Host>>, removed: Seq<HostAddress>)
    requires
        addresses_of(hosts).no_duplicates(),
    ensures
        addresses_of(hosts.filter(kept_by(removed))).no_duplicates(),
    decreases hosts.len(),
{
    reveal(Seq::filter);
    if hosts.len() > 0 {
        let rest = hosts.drop_last();
        assert forall|i: int, j: int|
            0 <= i < addresses_of(rest).len() && 0 <= j < addresses_of(rest).len() && i
                != j implies addresses_of(rest)[i] != addresses_of(rest)[j] by {
            assert(addresses_of(rest)[i] == addresses_of(hosts)[i]);
            assert(addresses_of(rest)[j] == addresses_of(hosts)[j]);
        }
        removing_keeps_addresses_distinct(rest, removed);
        let f = rest.filter(kept_by(removed));
        let last = hosts.last();
        if kept_by(removed)(last) {
            let after = f.push(last);
            assert forall|i: int, j: int|
                0 <= i < addresses_of(after).len() && 0 <= j < addresses_of(after).len() && i
                    != j implies addresses_of(after)[i] != addresses_of(after)[j] by {
                if i == after.len() - 1 || j == after.len() - 1 {
                    let k = if i == after.len() - 1 {
                        j
                    } else {
                        i
                    };
                    assert(f.contains(f[k]));
                    rest.lemma_filter_contains_rev(kept_by(removed), f[k]);
                    let m = choose|m: int| 0 <= m < rest.len() && rest[m] == f[k];
                    assert(addresses_of(hosts)[m] == f[k].address);
                    assert(addresses_of(hosts)[hosts.len() - 1] == last.address);
                } else {
                    assert(addresses_of(after)[i] == addresses_of(f)[i]);
                    assert(addresses_of(after)[j] == addresses_of(f)[j]);
                }
            }
        }
    }
}

/// After a removal no host has a removed address, and every host whose
/// address was not removed is still there.
pub proof fn removing_drops_exactly_the_listed(
    hosts: Seq<Arc<Host>>,
    removed: Seq<HostAddress>,
    h: Arc<Host>,
)
    ensures
        hosts.filter(kept_by(removed)).contains(h) <==> hosts.contains(h) && !removed.contains(
            h.address,
        ),
{
    broadcast use Seq::lemma_filter_contains_rev;
    if hosts.filter(kept_by(removed)).contains(h) {
        let k = choose|k: int|
            0 <= k < hosts.filter(kept_by(removed)).len() && hosts.filter(kept_by(removed))[k]
                == h;
        hosts.lemma_filter_pred(kept_by(removed), k);
    }
    if hosts.contains(h) && !removed.contains(h.address) {
        let k = choose|k: int| 0 <= k < hosts.len() && hosts[k] == h;
        hosts.lemma_filter_contains(kept_by(removed), k);
    }
}

/// Removing addresses that none of the hosts has keeps every host.
proof fn removing_absent_keeps_all(hosts: Seq<Arc<Host>>, removed: Seq<HostAddress>)
    requires
        forall|i: int| 0 <= i < hosts.len() ==> kept_by(removed)(#[trigger] hosts[i]),
    ensures
        hosts.filter(kept_by(removed)) == hosts,
    decreases hosts.len(),
{
    reveal(Seq::filter);
    if hosts.len() > 0 {
        let rest = hosts.drop_last();
        assert forall|i: int| 0 <= i < rest.len() implies kept_by(removed)(#[trigger] rest[i]) by {
            assert(rest[i] == hosts[i]);
        }
        removing_absent_keeps_all(rest, removed);
        assert(kept_by(removed)(hosts[hosts.len() - 1]));
        assert(rest.push(hosts.last()) =~= hosts);
    }
}

/// Removing the same addresses a second time changes nothing.
pub proof fn removing_twice_is_removing_once(hosts: Seq<Arc<Host>>, removed: Seq<HostAddress>)
    ensures
        hosts.filter(kept_by(removed)).filter(kept_by(removed)) == hosts.filter(
            kept_by(removed),
        ),
{
    let once = hosts.filter(kept_by(removed));
    assert forall|i: int| 0 <= i < once.len() implies kept_by(removed)(#[trigger] once[i]) by {
        hosts.lemma_filter_pred(kept_by(removed), i);
    }
    removing_absent_keeps_all(once, removed);
}

/// What adding appends past the existing addresses comes from the added
/// ones.
proof fn added_appends_from_addrs(existing: Seq<HostAddress>, addrs: Seq<HostAddress>, i: int)
    requires
        existing.len() <= i < added(existing, addrs).len(),
    ensures
        addrs.contains(added(existing, addrs)[i]),
    decreases addrs.len(),
{
    if addrs.len() > 0 {
        let before = added(existing, addrs.drop_last());
        if i < before.len() {
            added_appends_from_addrs(existing, addrs.drop_last(), i);
            let k = choose|k: int|
                0 <= k < addrs.drop_last().len() && addrs.drop_last()[k] == before[i];
            assert(addrs[k] == before[i]);
            if !before.contains(addrs.last()) {
                assert(before.push(addrs.last())[i] == before[i]);
            }
        } else {
            assert(addrs[addrs.len() - 1] == addrs.last());
        }
    }
}

/// Adding addresses that the pool does not hold and then removing them
/// gives back the hosts the pool had.
pub proof fn removing_fresh_additions_restores(
    old_hosts: Seq<Arc<Host>>,
    new_hosts: Seq<Arc<Host>>,
    addrs: Seq<HostAddress>,
)
    requires
        forall|i: int| 0 <= i < old_hosts.len() ==> !addrs.contains(#[trigger] old_hosts[i].address),
        old_hosts.len() <= new_hosts.len(),
        new_hosts.take(old_hosts.len() as int) == old_hosts,
        addresses_of(new_hosts) == added(addresses_of(old_hosts), addrs),
    ensures
        new_hosts.filter(kept_by(addrs)) == old_hosts,
{
    broadcast use Seq::lemma_filter_contains_rev;

    let n = old_hosts.len() as int;
    let rest = new_hosts.skip(n);
    assert(new_hosts =~= old_hosts + rest);
    Seq::filter_distributes_over_add(old_hosts, rest, kept_by(addrs));
    assert forall|i: int| 0 <= i < old_hosts.len() implies kept_by(addrs)(
        #[trigger] old_hosts[i],
    ) by {}
    removing_absent_keeps_all(old_hosts, addrs);
    let dropped = rest.filter(kept_by(addrs));
    if dropped.len() > 0 {
        rest.lemma_filter_pred(kept_by(addrs), 0);
        assert(dropped.contains(dropped[0]));
        let j = choose|j: int| 0 <= j < rest.len() && rest[j] == dropped[0];
        assert(rest[j] == new_hosts[n + j]);
        assert(addresses_of(new_hosts)[n + j] == new_hosts[n + j].address);
        added_appends_from_addrs(addresses_of(old_hosts), addrs, n + j);
    }
    assert(dropped =~= Seq::<Arc<Host>>::empty());
    assert(old_hosts + dropped =~= old_hosts);
}

} // verus!
