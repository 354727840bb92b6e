pub mod behavior_tree;
pub mod bt_ops;
pub mod composite;
pub mod genome;
pub mod identity;
pub mod memory;
pub mod physical;
pub mod tribe;
pub mod world_object;
