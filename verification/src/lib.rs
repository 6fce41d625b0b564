//! The catalog's own logic: how names are folded and compared, how a naming
//! layout is read and written, how moves are ordered, and how the lookups'
//! answers are weighed.
pub mod text;
pub mod credits;
pub mod ids;
pub mod reference;
pub mod fold;
pub mod model;
pub mod enrich;
pub mod query;
pub mod error;
pub mod organise;
pub mod progress;
pub mod db;
pub mod playlist;
pub mod enriched;
pub mod alternatives;
pub mod hashed;
pub mod elsewhere;
pub mod fingerprint;
pub mod retag;
pub mod import;
pub mod sheet;
pub mod moves;
pub mod sought;
pub mod mounts;
pub mod asking;
