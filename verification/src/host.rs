//! A backend host of the pool: its address and the response times it has
//! shown, shared between the pool and the requests in flight.

use vstd::prelude::*;
use std::sync::Arc;
use tokio::sync::RwLock;

use crate::address::HostAddress;
use crate::response_times::ResponseTimes;

verus! {

#[verifier::external_type_specification]
#[verifier::external_body]
#[verifier::reject_recursive_types(T)]
pub struct ExRwLock<T: ?Sized>(RwLock<T>);

/// `tokio::sync::RwLock::new`: an unlocked lock around `times`. What the
/// lock holds is not visible to the proofs: it is written by the requests
/// that the host answers.
#[verifier::external_body]
fn lock_response_times(times: ResponseTimes) -> RwLock<ResponseTimes> {
    RwLock::new(times)
}

/// `Arc::clone`: another pointer to the same host.
#[verifier::external_body]
pub(crate) fn share_host(host: &Arc<Host>) -> (shared: Arc<Host>)
    ensures
        shared == *host,
{
    Arc::clone(host)
}

/// A backend host.
#[derive(Clone)]
pub struct Host {
    pub address: HostAddress,
    pub response_times: Arc<RwLock<ResponseTimes>>,
}

impl Host {
    /// A host at `address` that has no response times yet.
    pub fn new(address: HostAddress) -> (host: Host)
        ensures
            host.address == address,
    {
        let times = ResponseTimes::new();
        Host { address, response_times: Arc::new(lock_response_times(times)) }
    }

    /// `Arc::strong_count`: how many pointers to this host exist. Every
    /// request in flight holds one, so the number rises with the open
    /// connections of the host; the pool's own pointer makes it at least
    /// one. The number depends on what the rest of the program holds, so
    /// nothing ties it to the host's value.
    #[verifier::external_body]
    pub fn count_connections(host: &Arc<Host>) -> (count: usize)
        ensures
            count >= 1,
    {
        Arc::strong_count(host)
    }
}

} // verus!
