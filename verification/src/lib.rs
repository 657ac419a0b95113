//! Per-display wallpaper artifacts: fingerprints, build planning and pixel work.

pub mod cache;
pub mod closing;
pub mod colour;
pub mod config;
pub mod directories;
pub mod frame;
pub mod groups;
pub mod ids;
pub mod interactive;
pub mod monitors;
pub mod paths;
pub mod sweep;
pub mod text;
pub mod wallpaper;
