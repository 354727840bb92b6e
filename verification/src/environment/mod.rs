pub mod chunks;
pub mod climate;
pub mod resources;
pub mod spatial_index;
pub mod structures;
pub mod terrain;
