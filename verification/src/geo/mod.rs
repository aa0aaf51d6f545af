//! Location metadata for recognised addresses.

pub mod fakegeo;
pub mod geodb;
pub mod geolite2;
