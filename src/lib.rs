//! A weighted fair queuing scheduler with a bounded primary queue and an
//! overflow buffer, verified with Verus.
use vstd::prelude::*;

pub mod item;
pub mod precedence;
pub mod queue;
pub mod laws;

pub use item::{Item, ItemView};
pub use precedence::IpPrecedence;
pub use queue::{FlowState, QueueSize, WeightMode, WeightedFairQueue};

verus! {

} // verus!
