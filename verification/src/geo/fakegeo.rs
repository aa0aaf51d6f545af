use vstd::prelude::*;
use vstd::string::StringExecFns;
use super::geodb::{GeoDB, GeoLocation};

verus! {

/// A database that places every address at the same made-up location.
pub struct FakeGeo {}

/// The location that `FakeGeo` reports for every address.
pub const FAKE_LOCATION: &'static str = "Fake Location";

impl FakeGeo {
    pub fn new() -> (db: Self) {
        Self {  }
    }
}

impl Default for FakeGeo {
    fn default() -> (db: Self) {
        Self::new()
    }
}

impl GeoDB for FakeGeo {
    /// The same location for every text.
    open spec fn located(&self, ip: Seq<char>) -> Option<Seq<char>> {
        Some(FAKE_LOCATION@)
    }

    fn lookup(&self, _ip: &str) -> (geo: Option<GeoLocation>) {
        Some(GeoLocation { location: String::from_str(FAKE_LOCATION) })
    }
}

} // verus!
