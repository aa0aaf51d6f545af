use vstd::prelude::*;

verus! {

/// Where an address is located, as a display string.
#[derive(Debug, Clone, PartialEq)]
pub struct GeoLocation {
    pub location: String,
}

impl View for GeoLocation {
    type V = Seq<char>;

    open spec fn view(&self) -> Seq<char> {
        self.location@
    }
}

/// The view of an optional location: the location's text, if there is one.
pub open spec fn location_view(geo: Option<GeoLocation>) -> Option<Seq<char>> {
    match geo {
        Some(g) => Some(g@),
        None => None,
    }
}

/// What is shown in place of a location that is not known.
pub const UNKNOWN_LOCATION: &'static str = "Unknown";

/// The text that stands for an optional location: the location, or a marker
/// for an unknown one.
pub open spec fn place_text(geo: Option<Seq<char>>) -> Seq<char> {
    match geo {
        Some(location) => location,
        None => UNKNOWN_LOCATION@,
    }
}

pub fn place_label(geo: &Option<GeoLocation>) -> (label: &str)
    ensures
        label@ == place_text(location_view(*geo)),
{
    match geo {
        Some(g) => g.location.as_str(),
        None => UNKNOWN_LOCATION,
    }
}

/// A source of location metadata.
///
/// `lookup` takes an IPv4 or IPv6 address as text. Absence of data is `None`,
/// and so is an address that cannot be read: no text makes `lookup` fail.
///
/// What a database answers depends on the database and on the address alone:
/// `located` is that answer, and `lookup` returns it. An implementation that
/// says nothing of `located` leaves it at that: some answer for each address,
/// the same whenever it is asked.
pub trait GeoDB {
    /// What this database answers when it is asked for `ip`.
    open spec fn located(&self, ip: Seq<char>) -> Option<Seq<char>> {
        arbitrary::<spec_fn(&Self, Seq<char>) -> Option<Seq<char>>>()(self, ip)
    }

    fn lookup(&self, ip: &str) -> (geo: Option<GeoLocation>)
        ensures
            location_view(geo) == self.located(ip@),
    ;
}

/// Two answers of one database for one address agree.
pub proof fn lemma_lookups_agree<G: GeoDB>(
    db: &G,
    ip: Seq<char>,
    first: Option<GeoLocation>,
    second: Option<GeoLocation>,
)
    requires
        location_view(first) == db.located(ip),
        location_view(second) == db.located(ip),
    ensures
        location_view(first) == location_view(second),
{
}

/// A database behind a pointer answers as the database does.
impl GeoDB for Box<dyn GeoDB> {
    open spec fn located(&self, ip: Seq<char>) -> Option<Seq<char>> {
        (**self).located(ip)
    }

    fn lookup(&self, ip: &str) -> (geo: Option<GeoLocation>) {
        (**self).lookup(ip)
    }
}

} // verus!
