//! Fences for the desktop: windows that show folders, settle on a grid, and collect downloads. The
//! library holds the state and decides; what it asks of the window system it appends to a list of
//! effects.
pub mod animation;
pub mod bits;
pub mod choice;
pub mod config;
pub mod config_laws;
pub mod dialog;
pub mod download_laws;
pub mod downloads;
pub mod effect;
pub mod fence;
pub mod fence_laws;
pub mod float;
pub mod float_laws;
pub mod geometry;
pub mod layout;
pub mod layout_laws;
pub mod lifecycle;
pub mod lifecycle_laws;
pub mod menu;
pub mod menu_laws;
pub mod message;
pub mod mouse;
pub mod mouse_laws;
pub mod opacity;
pub mod opacity_laws;
pub mod order;
pub mod paint;
pub mod paint_laws;
pub mod paths;
pub mod precision;
pub mod pull_laws;
pub mod refresh;
pub mod state;
pub mod text;
pub mod text_laws;
pub mod visibility;
pub mod visibility_laws;
pub mod window;
pub mod window_laws;
