//! What holds of the library as a whole.

pub mod deriving;
pub mod exactness;
pub mod finding;
pub mod numbers;
pub mod owning;
pub mod paying;
pub mod protocol;
pub mod reading;
pub mod restoring;
pub mod round_trip;
pub mod scanning;
pub mod sending;
