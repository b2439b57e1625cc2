//! Foreign-field acceleration for the Aleo Edwards-BLS12 curve: canonical
//! base-field arithmetic, twisted-Edwards point operations, the record
//! identity `x*y = w*q + z` with its 64-bit column carries, and the record
//! blob layout that ties every field operation to a 16-word block.

pub mod limbs;
pub mod record;
pub mod sdk;
pub mod curve_laws;
pub mod bind;
pub mod sequence_builder;
pub mod guest;
pub mod event_log;
