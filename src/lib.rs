//! An on-screen task switcher's core: the registry of tracked windows and
//! its selection cursor, a software pixel frame with its drawing primitives
//! and bilinear resampling, the glyph and icon caches, the overlay's layout,
//! and the controller that turns window-system events into redraws.

pub mod config;
pub mod controller;
pub mod frame;
pub mod geometry;
pub mod icon;
pub mod icon_cache;
pub mod keys;
pub mod scale;
pub mod tasks;
pub mod text;
