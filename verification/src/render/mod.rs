//! Rendering arithmetic and policies.
pub mod colormap;
pub mod history;
pub mod image;
pub mod mapping;
pub mod monitor;
pub mod visualizer;
