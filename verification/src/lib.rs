//! Core logic of the Thearf tiling window manager: configuration parsing,
//! key-binding matching, tiling layout and window ordering.

pub mod drm;
pub mod text;
pub mod config;
pub mod keys;
pub mod layout;
pub mod order;
pub mod actions;
