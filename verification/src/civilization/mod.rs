pub mod culture;
pub mod defense;
pub mod hierarchy;
pub mod neat;
pub mod settlement;
pub mod trade;
