pub mod log;
pub mod types;
