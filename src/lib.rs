//! Pose data for named yoga positions: the pose database and its binary
//! file format, and fuzzy search over pose names.

pub mod bytes;
pub mod model;
pub mod codec;
pub mod search;

pub use codec::DecodeError;
pub use model::{Asana, AsanaData, DuplicatePose, Joint};
pub use search::{rank_matches, NameField, YogaAssets};
