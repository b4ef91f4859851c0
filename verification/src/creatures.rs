pub mod ai;
pub mod pathfinding;
pub mod data;
pub mod attributes;
