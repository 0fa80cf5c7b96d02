//! Window-management logic of the terra-wm Wayland compositor: the tiling
//! layout engine, the vscreen grid of the infinite layer, the per-layer
//! minimize bookkeeping, the layer stack, command-line parsing and the
//! decisions of the DRM/udev backend. Every function here is verified;
//! the compositor around it (protocol handling, rendering, devices) calls
//! into this crate with plain values.

pub mod geometry;
pub mod tiling;
pub mod vscreen;
pub mod layer;
pub mod wm;
pub mod cli;
pub mod drm;
pub mod grab;
