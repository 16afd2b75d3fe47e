//! Turns a history of geotagged, timestamped edits into per-frame raster
//! data for an animation in which recent activity outshines older activity.

pub mod aggregate;
pub mod binning;
pub mod colour_ramp;
pub mod intermediate;
pub mod projection;
pub mod text;
