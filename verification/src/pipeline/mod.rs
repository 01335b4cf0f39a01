//! The durable event pipeline.
use vstd::prelude::*;

pub mod layout;
pub mod log;
pub mod materialize;
pub mod publication;
pub mod publication_effects;
pub mod wal;
pub mod wal_effects;

verus! {

} // verus!
