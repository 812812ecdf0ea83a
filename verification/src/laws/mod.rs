//! What holds of the codec as a whole.

pub mod reading;
pub mod framing;
pub mod floats;
pub mod order;
pub mod maps;
pub mod well_formed;
pub mod skipping;
pub mod round_trip;
pub mod links;
