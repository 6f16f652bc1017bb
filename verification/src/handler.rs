//! The request handler's settings.
use vstd::prelude::*;

verus! {

/// Where this node listens and which controllers it knows.
#[derive(Clone, Debug)]
pub struct HandlerConfig {
    pub node_id: i32,
    pub host: String,
    pub port: i32,
    pub controller_addrs: Vec<String>,
}

} // verus!
