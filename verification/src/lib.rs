//! scr33ny: an OLED-friendly screensaver.
//!
//! The library holds the pixel canvas and its drawing primitives, the
//! configuration values, the anti burn-in shift and the timing decisions of
//! the screensavers and widgets, each with its contract proved by Verus.

pub mod canvas;
pub mod raster;
pub mod config;
pub mod app;
pub mod screensaver;
pub mod decode;
pub mod fits;
pub mod widget;
pub mod font;
