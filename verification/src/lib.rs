//! Pickture: culling a folder of photographs down to the keepers.
//!
//! The library holds everything the interface shares and nothing about
//! painting it: frames and their judgements, per-folder sessions and their
//! record, the destination rules and the names of written copies, the
//! decode queue and caches, the JPEG segment walk that carries EXIF blocks
//! over, exact raster operations, and the decisions behind every surface.
use vstd::prelude::*;

pub mod browse;
pub mod cache;
pub mod chrome;
pub mod clock;
pub mod control;
pub mod decode;
pub mod encode;
pub mod enhance;
pub mod exif;
pub mod jobs;
pub mod mark;
pub mod model;
pub mod natural;
pub mod pathname;
pub mod paths;
pub mod raster;
pub mod select;
pub mod session;
pub mod table;
pub mod text;
pub mod tokens;

pub use clock::{civil_from_days, now_secs, today_stamp};
pub use model::{
    frame_id, is_supported, supported_label, Destination, EffectMode, EffectSpec, ExifSummary,
    Frame, Judgement, LEVELS_MIN_SPAN,
};
pub use session::{relative_age, PersistedSession, Session, SessionStore};

verus! {

} // verus!
