pub mod bridge;
pub mod diff;
