//! A Highway-style DAG-based Byzantine-fault-tolerant consensus core: the protocol state (a
//! DAG of votes with equivocation detection), the finality detector, the active validator's
//! timing decisions and the dependency synchronizer, with a few surrounding building blocks.

pub mod active_validator;
pub mod block;
pub mod chain;
pub mod deploy_buffer;
pub mod finality_detector;
pub mod pothole;
pub mod protocol;
pub mod state;
pub mod synchronizer;
pub mod vertex;
pub mod vote;
