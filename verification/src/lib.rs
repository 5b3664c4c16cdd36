//! A load-balancing pool of backend hosts: host selection by round robin or
//! by least connections, the rule that switches between the two, the pool's
//! membership operations, and the configuration of the balancer and its
//! workers.

pub mod address;
pub mod config;
pub mod host;
pub mod pool;
pub mod response_times;
pub mod selection;

pub use address::HostAddress;
pub use config::{LoadBalancerConfig, WorkerConfig};
pub use host::Host;
pub use pool::Pool;
pub use response_times::ResponseTimes;
pub use selection::LoadBalancingAlgorithm;
