pub mod arcs;
pub mod biography;
pub mod fits;
pub mod ids;
pub mod ledgers;
pub mod significance;
pub mod tracker;
