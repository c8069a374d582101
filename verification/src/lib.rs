//! Split-screen co-op launcher logic: controller handling, the on-screen
//! keyboard, Hyprland command planning, sandbox and config-file rewriting.

pub mod app;
pub mod handler;
pub mod hypr;
pub mod input;
pub mod launch;
pub mod osk;
pub mod paths;
pub mod profiles;
pub mod text;
