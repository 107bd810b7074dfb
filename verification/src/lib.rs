//! Verified core of a telemetry overlay tool for onboard racing video.
use vstd::prelude::*;

pub mod text;
pub mod binary64;
pub mod gpmf;
pub mod timeline;
pub mod project;
pub mod telemetry;
pub mod sync;
pub mod session;
pub mod overlay;
pub mod export;
pub mod video;
pub mod cache;
pub mod merge;

verus! {
}
