//! A fixed-arity join combinator, as a verified state machine.
//!
//! A join drives `n` independent operations to completion and hands back
//! their results in input order. The pieces are:
//! - [`SlotState`]: the lifecycle stage of one operation's result cell;
//! - [`Readiness`]: the bitmap of slots that signalled progress, plus the
//!   outer continuation to wake;
//! - [`Join`]: the combinator's bookkeeping: which slot to poll next, where
//!   results go, and when the ordered aggregate is handed out.

pub mod join;
pub mod readiness;
pub mod slot;

pub use join::{Join, JoinModel};
pub use readiness::Readiness;
pub use slot::SlotState;
