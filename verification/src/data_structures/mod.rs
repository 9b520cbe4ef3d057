//! Container types.

pub mod queue;

pub use self::queue::Queue;
