pub mod world_lib;
pub mod world_generation;
pub mod world_noise;
pub mod world_generator;
pub mod world_rendering;
