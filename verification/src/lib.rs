//! Verified core of an RGBA image processor driven by plugins: the buffer
//! layout, the mirror and blur plugins' pixel logic, their JSON parameters,
//! and the host's checks on files, dimensions and plugin file names.

pub mod blur;
pub mod host;
pub mod layout;
pub mod mirror;
pub mod params;
