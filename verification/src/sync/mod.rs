//! Deadlock avoidance and deadlock detection.
pub mod banker;
pub mod detector;
