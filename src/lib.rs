use vstd::prelude::*;

pub mod broker_kv;
pub mod cluster;
pub mod delay_task;
pub mod keys;
pub mod metrics;
pub mod node_call;
pub mod pool;
pub mod raft;
pub mod storage;
pub mod text;

verus! {

} // verus!
