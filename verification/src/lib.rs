//! Verified core of the wallpaper patcher for the Kimi Code desktop app.
pub mod text;
pub mod hook;
pub mod mp4;
pub mod mp4_layout;
pub mod patch;
pub mod pattern;
pub mod paths;
pub mod hot;
pub mod locate;
pub mod crop;
pub mod conf;
pub mod picture;
pub mod persist;
