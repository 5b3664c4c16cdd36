use std::sync::Arc;

use load_balancer::address::LOCALHOST_V4;
use load_balancer::config::worker_port_allowed;
use load_balancer::response_times::RESPONSE_TIME_CAPACITY;
use load_balancer::selection::{algorithm_for_connections, least_connections_index};
use load_balancer::{
    Host, HostAddress, LoadBalancerConfig, LoadBalancingAlgorithm, Pool, ResponseTimes,
    WorkerConfig,
};

fn addr(port: u16) -> HostAddress {
    HostAddress::localhost(port)
}

fn addresses_of(pool: &Pool) -> Vec<HostAddress> {
    pool.hosts().iter().map(|h| h.address).collect()
}

#[test]
fn localhost_is_loopback_v4() {
    assert_eq!(
        HostAddress::localhost(3001),
        HostAddress::V4 { ip: 0x7f00_0001, port: 3001 }
    );
    assert_eq!(LOCALHOST_V4, (127u32 << 24) | 1);
}

#[test]
fn algorithm_switches_only_above_cutover() {
    assert_eq!(
        algorithm_for_connections(&vec![], 0),
        LoadBalancingAlgorithm::RoundRobin
    );
    assert_eq!(
        algorithm_for_connections(&vec![1, 3, 3], 3),
        LoadBalancingAlgorithm::RoundRobin
    );
    assert_eq!(
        algorithm_for_connections(&vec![1, 4, 3], 3),
        LoadBalancingAlgorithm::LeastConnections
    );
    assert_eq!(
        algorithm_for_connections(&vec![1], 0),
        LoadBalancingAlgorithm::LeastConnections
    );
}

#[test]
fn least_connections_picks_first_minimum() {
    assert_eq!(least_connections_index(&vec![7]), 0);
    assert_eq!(least_connections_index(&vec![5, 2, 9, 2, 3]), 1);
    assert_eq!(least_connections_index(&vec![4, 4, 4]), 0);
    assert_eq!(least_connections_index(&vec![9, 8, 7, 1]), 3);
}

#[test]
fn algorithm_defaults_to_round_robin() {
    assert_eq!(
        LoadBalancingAlgorithm::default(),
        LoadBalancingAlgorithm::RoundRobin
    );
    let pool = Pool::default();
    assert_eq!(pool.concurrent_connections_cutover(), 0);
    assert_eq!(pool.algorithm(), LoadBalancingAlgorithm::RoundRobin);
    assert!(pool.hosts().is_empty());
}

#[test]
fn round_robin_visits_every_host_once_per_cycle() {
    let mut pool = Pool::new(10);
    pool.add_hosts(vec![addr(1), addr(2), addr(3)]);
    let visited: Vec<HostAddress> = (0..6).map(|_| pool.next_host().unwrap().address).collect();
    assert_eq!(
        visited,
        vec![addr(1), addr(2), addr(3), addr(1), addr(2), addr(3)]
    );
}

#[test]
fn round_robin_after_removal_stays_in_range() {
    let mut pool = Pool::new(10);
    pool.add_hosts(vec![addr(1), addr(2), addr(3)]);
    pool.next_host().unwrap();
    pool.next_host().unwrap();
    pool.remove_hosts(vec![addr(2), addr(3)]);
    assert_eq!(pool.next_host().unwrap().address, addr(1));
    assert_eq!(pool.next_host().unwrap().address, addr(1));
}

#[test]
fn next_host_shares_the_pool_host() {
    let mut pool = Pool::new(10);
    pool.add_hosts(vec![addr(1)]);
    let host = pool.next_host().unwrap();
    assert!(Arc::ptr_eq(&host, &pool.hosts()[0]));
    assert_eq!(Host::count_connections(&pool.hosts()[0]), 2);
    drop(host);
    assert_eq!(Host::count_connections(&pool.hosts()[0]), 1);
}

#[test]
fn empty_pool_keeps_round_robin() {
    let mut pool = Pool::new(0);
    assert_eq!(pool.determine_algorithm(), LoadBalancingAlgorithm::RoundRobin);
    assert_eq!(pool.algorithm(), LoadBalancingAlgorithm::RoundRobin);
}

#[test]
fn zero_cutover_with_hosts_uses_least_connections() {
    let mut pool = Pool::new(0);
    pool.add_hosts(vec![addr(1)]);
    assert_eq!(
        pool.determine_algorithm(),
        LoadBalancingAlgorithm::LeastConnections
    );
    assert_eq!(pool.algorithm(), LoadBalancingAlgorithm::LeastConnections);
    assert_eq!(pool.next_host().unwrap().address, addr(1));
}

#[test]
fn least_connections_prefers_the_idle_host() {
    let mut pool = Pool::new(0);
    pool.add_hosts(vec![addr(1), addr(2)]);
    pool.determine_algorithm();
    let a = pool.next_host().unwrap();
    let b = pool.next_host().unwrap();
    assert_eq!(a.address, addr(1));
    // the first host is busier now, so the second one is chosen
    assert_eq!(b.address, addr(2));
    drop(a);
    drop(b);
    let mut pool2 = Pool::new(10);
    pool2.add_hosts(vec![addr(1), addr(2)]);
    assert_eq!(pool2.next_host().unwrap().address, addr(1));
    assert_eq!(pool2.next_host().unwrap().address, addr(2));
}

#[test]
fn adding_keeps_order_and_skips_known_addresses() {
    let mut pool = Pool::new(10);
    pool.add_hosts(vec![addr(3), addr(1), addr(3), addr(2)]);
    assert_eq!(addresses_of(&pool), vec![addr(3), addr(1), addr(2)]);
    let first = pool.hosts()[0].clone();
    pool.add_hosts(vec![addr(2), addr(4), addr(1)]);
    assert_eq!(addresses_of(&pool), vec![addr(3), addr(1), addr(2), addr(4)]);
    assert!(Arc::ptr_eq(&first, &pool.hosts()[0]));
    pool.add_hosts(vec![addr(2), addr(4), addr(1)]);
    assert_eq!(addresses_of(&pool), vec![addr(3), addr(1), addr(2), addr(4)]);
}

#[test]
fn removing_keeps_the_others_in_order() {
    let mut pool = Pool::new(10);
    pool.add_hosts(vec![addr(1), addr(2), addr(3), addr(4)]);
    let third = pool.hosts()[2].clone();
    pool.remove_hosts(vec![addr(4), addr(9), addr(2)]);
    assert_eq!(addresses_of(&pool), vec![addr(1), addr(3)]);
    assert!(Arc::ptr_eq(&third, &pool.hosts()[1]));
    pool.remove_hosts(vec![]);
    assert_eq!(addresses_of(&pool), vec![addr(1), addr(3)]);
    pool.remove_hosts(vec![addr(1), addr(3)]);
    assert!(pool.hosts().is_empty());
    assert!(pool.next_host().is_none());
}

#[test]
fn removing_fresh_additions_restores_the_pool() {
    let mut pool = Pool::new(10);
    pool.add_hosts(vec![addr(1), addr(2)]);
    let before: Vec<Arc<Host>> = pool.hosts().clone();
    pool.add_hosts(vec![addr(5), addr(6), addr(5)]);
    assert_eq!(pool.hosts().len(), 4);
    pool.remove_hosts(vec![addr(5), addr(6)]);
    assert_eq!(pool.hosts().len(), before.len());
    for (kept, old) in pool.hosts().iter().zip(before.iter()) {
        assert!(Arc::ptr_eq(kept, old));
    }
    pool.remove_hosts(vec![addr(5), addr(6)]);
    assert_eq!(addresses_of(&pool), vec![addr(1), addr(2)]);
}

#[test]
fn round_robin_serves_each_host_in_turn_after_growth() {
    let mut pool = Pool::new(10);
    pool.add_hosts(vec![addr(1), addr(2)]);
    assert_eq!(pool.next_host().unwrap().address, addr(1));
    pool.add_hosts(vec![addr(3)]);
    let served: Vec<HostAddress> = (0..4).map(|_| pool.next_host().unwrap().address).collect();
    assert_eq!(served, vec![addr(2), addr(3), addr(1), addr(2)]);
}

#[test]
fn add_then_remove_leaves_none_of_them() {
    let mut pool = Pool::new(10);
    pool.add_hosts(vec![addr(1)]);
    pool.add_hosts(vec![addr(2), addr(1)]);
    pool.remove_hosts(vec![addr(2), addr(1)]);
    assert!(pool.hosts().is_empty());
}

#[test]
fn response_times_keep_the_latest() {
    let mut times = ResponseTimes::new();
    assert!(times.to_vec().is_empty());
    times.record(5);
    times.record(7);
    assert_eq!(times.to_vec(), vec![5, 7]);
    for ms in 0..(RESPONSE_TIME_CAPACITY as u128) {
        times.record(100 + ms);
    }
    let kept = times.to_vec();
    assert_eq!(kept.len(), RESPONSE_TIME_CAPACITY);
    assert_eq!(kept[0], 100);
    assert_eq!(kept[RESPONSE_TIME_CAPACITY - 1], 100 + RESPONSE_TIME_CAPACITY as u128 - 1);
}

#[test]
fn response_times_capacity_is_one_hundred() {
    assert_eq!(RESPONSE_TIME_CAPACITY, 100);
    let mut times = ResponseTimes::new();
    for ms in 1..=101u128 {
        times.record(ms);
    }
    let kept = times.to_vec();
    assert_eq!(kept.len(), 100);
    assert_eq!(kept[0], 2);
    assert_eq!(kept[99], 101);
}

#[test]
fn new_host_has_no_response_times() {
    let host = Host::new(addr(8080));
    assert_eq!(host.address, addr(8080));
    let times = host.response_times.try_read().unwrap();
    assert!(times.to_vec().is_empty());
}

fn balancer_config(range: std::ops::RangeInclusive<u16>) -> LoadBalancerConfig {
    LoadBalancerConfig {
        monitor_interval_secs: 10,
        ping_timeout_millis: 50,
        concurrent_connections_cutover: 10,
        listen_on_port: 3000,
        host_port_range: range,
    }
}

#[test]
fn host_addresses_cover_the_port_range() {
    assert_eq!(
        balancer_config(3001..=3003).host_addresses(),
        vec![addr(3001), addr(3002), addr(3003)]
    );
    assert_eq!(balancer_config(3001..=3001).host_addresses(), vec![addr(3001)]);
    assert!(balancer_config(3002..=3001).host_addresses().is_empty());
    assert_eq!(
        balancer_config(65534..=65535).host_addresses(),
        vec![addr(65534), addr(65535)]
    );
}

#[test]
fn exhausted_range_has_no_host_addresses() {
    let mut range = 3001..=3001;
    assert_eq!(range.next(), Some(3001));
    assert_eq!(range.next(), None);
    assert!(balancer_config(range).host_addresses().is_empty());
}

#[test]
fn worker_ports_are_bounded() {
    assert!(!worker_port_allowed(3000));
    assert!(worker_port_allowed(3001));
    assert!(worker_port_allowed(3050));
    assert!(worker_port_allowed(3100));
    assert!(!worker_port_allowed(3101));
    let config = WorkerConfig { port: 3001, max_work_milliseconds: 10, include_ping: true };
    assert!(worker_port_allowed(config.port));
}
