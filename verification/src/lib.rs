pub mod civilization;
pub mod components;
pub mod engine;
pub mod environment;
pub mod events;
pub mod narrative;
pub mod net;
