//! The hyprpaper daemon: its configuration file and the commands it takes.

pub mod hyprctl;
pub mod hyprpaper;
