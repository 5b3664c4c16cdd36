//! The configuration of the balancer and of its workers.

use vstd::prelude::*;
use vstd::std_specs::range::RangeInclusiveView;
use std::ops::RangeInclusive;

use crate::address::{HostAddress, LOCALHOST_V4};

verus! {

/// The lowest port a worker may listen on.
pub const WORKER_PORT_MIN: u16 = 3001;

/// The highest port a worker may listen on.
pub const WORKER_PORT_MAX: u16 = 3100;

/// How the load balancer runs.
pub struct LoadBalancerConfig {
    pub monitor_interval_secs: u16,
    pub ping_timeout_millis: u16,
    pub concurrent_connections_cutover: usize,
    pub listen_on_port: u16,
    pub host_port_range: RangeInclusive<u16>,
}

/// The ports a range yields when iterated: none once it is exhausted or
/// when its start lies past its end, else each from start to end.
pub open spec fn range_ports(range: RangeInclusiveView<u16>) -> Seq<u16> {
    if range.exhausted || range.start > range.end {
        Seq::<u16>::empty()
    } else {
        Seq::new((range.end - range.start + 1) as nat, |i: int| (range.start + i) as u16)
    }
}

/// A range that is neither exhausted nor reversed yields each port from
/// its start to its end once, in increasing order; any other range yields
/// none.
pub proof fn range_ports_yields_each_port_once(range: RangeInclusiveView<u16>, port: u16)
    ensures
        range.exhausted || range.start > range.end ==> range_ports(range).len() == 0,
        !range.exhausted && range.start <= range.end ==> {
            &&& range_ports(range).len() == range.end - range.start + 1
            &&& forall|i: int|
                0 <= i < range_ports(range).len() ==> #[trigger] range_ports(range)[i]
                    == range.start + i
            &&& (range.start <= port <= range.end <==> range_ports(range).contains(port))
            &&& forall|i: int, j: int|
                0 <= i < j < range_ports(range).len() ==> range_ports(range)[i]
                    < range_ports(range)[j]
        },
{
    if !range.exhausted && range.start <= range.end {
        let ports = range_ports(range);
        if range.start <= port <= range.end {
            assert(ports[port - range.start] == port);
        }
    }
}

/// The address `127.0.0.1:port`.
pub open spec fn localhost_at(port: u16) -> HostAddress {
    HostAddress::V4 { ip: LOCALHOST_V4, port }
}

/// `RangeInclusive::is_empty`: whether the range yields no item, which is
/// so once it is exhausted or when its start lies past its end.
#[verifier::external_body]
fn range_is_empty(range: &RangeInclusive<u16>) -> (empty: bool)
    ensures
        empty == (range@.exhausted || range@.start > range@.end),
{
    range.is_empty()
}

/// `RangeInclusive::start`: the lower bound, of a range not yet exhausted.
#[verifier::external_body]
fn range_start(range: &RangeInclusive<u16>) -> (start: u16)
    requires
        !range@.exhausted,
    ensures
        start == range@.start,
{
    *range.start()
}

/// `RangeInclusive::end`: the upper bound, of a range not yet exhausted.
#[verifier::external_body]
fn range_end(range: &RangeInclusive<u16>) -> (end: u16)
    requires
        !range@.exhausted,
    ensures
        end == range@.end,
{
    *range.end()
}

impl LoadBalancerConfig {
    /// The addresses of the hosts to balance: `127.0.0.1` at each port of
    /// the configured range, in increasing order.
    pub fn host_addresses(&self) -> (addresses: Vec<HostAddress>)
        ensures
            addresses@ == range_ports(self.host_port_range@).map_values(
                |p: u16| localhost_at(p),
            ),
            self.host_port_range@.exhausted || self.host_port_range@.start
                > self.host_port_range@.end ==> addresses@.len() == 0,
            !self.host_port_range@.exhausted && self.host_port_range@.start
                <= self.host_port_range@.end ==> {
                &&& addresses@.len() == self.host_port_range@.end - self.host_port_range@.start
                    + 1
                &&& forall|i: int|
                    0 <= i < addresses@.len() ==> #[trigger] addresses@[i] == (HostAddress::V4 {
                        ip: LOCALHOST_V4,
                        port: (self.host_port_range@.start + i) as u16,
                    })
            },
    {
        let mut addresses: Vec<HostAddress> = Vec::new();
        if range_is_empty(&self.host_port_range) {
            assert(addresses@ =~= range_ports(self.host_port_range@).map_values(
                |p: u16| localhost_at(p),
            ));
            return addresses;
        }
        let start = range_start(&self.host_port_range);
        let end = range_end(&self.host_port_range);
        let ghost ports = range_ports(self.host_port_range@);
        let mut port: u32 = start as u32;
        while port <= end as u32
            invariant
                start <= end,
                start as u32 <= port <= end as u32 + 1,
                ports == range_ports(self.host_port_range@),
                ports.len() == end - start + 1,
                forall|i: int| 0 <= i < ports.len() ==> #[trigger] ports[i] == start + i,
                addresses@.len() == port - start,
                forall|i: int|
                    0 <= i < addresses@.len() ==> #[trigger] addresses@[i] == localhost_at(
                        ports[i],
                    ),
            decreases end as u32 + 1 - port,
        {
            addresses.push(HostAddress::localhost(port as u16));
            port = port + 1;
        }
        assert(addresses@ =~= ports.map_values(|p: u16| localhost_at(p)));
        addresses
    }
}

/// How a worker runs.
pub struct WorkerConfig {
    pub port: u16,
    pub max_work_milliseconds: u64,
    pub include_ping: bool,
}

/// Whether a worker may listen on `port`.
pub fn worker_port_allowed(port: u16) -> (allowed: bool)
    ensures
        allowed == (WORKER_PORT_MIN <= port <= WORKER_PORT_MAX),
{
    WORKER_PORT_MIN <= port && port <= WORKER_PORT_MAX
}

} // verus!
