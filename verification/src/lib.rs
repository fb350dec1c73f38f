//! Wallpaper assignment for the hyprpaper daemon: the daemon's configuration
//! file as a value, the rules by which a picked wallpaper changes it, and the
//! commands that bring the running daemon in line.

pub mod hypr;
pub mod images;
pub mod paths;
pub mod state;
pub mod text;
