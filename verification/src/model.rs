//! Data model of the pipeline: raw server records as the provider's
//! directory lists them, ranked servers enriched with a distance and a
//! validated public key, and the user's preferences. Coordinates are
//! carried in microdegrees so that the ranking logic stays in exact
//! integer arithmetic.

use vstd::prelude::*;
use vstd::string::StrSliceExecFns;
use vstd::string::StringExecFns;
use crate::geo::{LAT_LIMIT_UDEG, LON_LIMIT_UDEG, MAX_DISTANCE_KM};

verus! {

/// A city name inside a raw location entry.
pub struct City {
    pub name: String,
}

/// A country entry of a raw location, with its optional city.
pub struct Country {
    pub name: String,
    pub city: Option<City>,
}

/// One geographic placement of a raw server record.
pub struct Location {
    pub country: Country,
    /// Latitude in microdegrees, within `[-90e6, 90e6]`.
    pub latitude_udeg: i64,
    /// Longitude in microdegrees, within `[-180e6, 180e6]`.
    pub longitude_udeg: i64,
}

impl Location {
    /// Coordinates lie in their geographic ranges.
    pub open spec fn wf(self) -> bool {
        &&& -LAT_LIMIT_UDEG <= self.latitude_udeg <= LAT_LIMIT_UDEG
        &&& -LON_LIMIT_UDEG <= self.longitude_udeg <= LON_LIMIT_UDEG
    }
}

/// One key/value entry of a technology's metadata.
pub struct Metadata {
    pub name: String,
    pub value: String,
}

/// A connection technology a raw server supports.
pub struct Technology {
    pub identifier: String,
    pub metadata: Vec<Metadata>,
}

/// A raw server record as fetched from the provider's directory,
/// already decoded into plain values. Immutable once fetched.
pub struct ServerResponse {
    pub name: String,
    pub hostname: String,
    pub station: String,
    /// Current load percentage; a missing value counts as the worst.
    pub load: Option<i32>,
    pub locations: Vec<Location>,
    pub technologies: Vec<Technology>,
}

impl ServerResponse {
    /// The decoded record is in range: load within `[0, 100]` and
    /// every location's coordinates geographic.
    pub open spec fn wf(self) -> bool {
        &&& (self.load is Some ==> 0 <= self.load->0 <= 100)
        &&& forall|i: int| 0 <= i < self.locations@.len() ==> (#[trigger] self.locations@[i]).wf()
    }
}

/// The mathematical view of a ranked server: every text field as a
/// character sequence, every number unbounded.
pub struct ServerModel {
    pub name: Seq<char>,
    pub hostname: Seq<char>,
    pub station: Seq<char>,
    pub load: int,
    pub country: Seq<char>,
    pub city: Seq<char>,
    pub latitude_udeg: int,
    pub longitude_udeg: int,
    pub public_key: Seq<char>,
    pub distance_km: int,
}

impl ServerModel {
    /// Invariant of every ranked server: load within `[0, 100]`, a
    /// non-empty public key, geographic coordinates and a bounded
    /// distance.
    pub open spec fn wf(self) -> bool {
        &&& 0 <= self.load <= 100
        &&& self.public_key.len() > 0
        &&& 0 <= self.distance_km <= MAX_DISTANCE_KM
        &&& -LAT_LIMIT_UDEG <= self.latitude_udeg <= LAT_LIMIT_UDEG
        &&& -LON_LIMIT_UDEG <= self.longitude_udeg <= LON_LIMIT_UDEG
    }

    /// The ordering key of the ranking: load first, distance second.
    pub open spec fn key_le(self, other: ServerModel) -> bool {
        self.load < other.load || (self.load == other.load && self.distance_km
            <= other.distance_km)
    }

    /// The location key of the best-per-location selection.
    pub open spec fn loc_key(self) -> (Seq<char>, Seq<char>) {
        (self.country, self.city)
    }
}

/// A server enriched with its distance from the user and its WireGuard
/// public key, as produced by the ranking stage; never mutated after
/// creation.
pub struct Server {
    pub name: String,
    pub hostname: String,
    pub station: String,
    pub load: i32,
    pub country: String,
    pub city: String,
    pub latitude_udeg: i64,
    pub longitude_udeg: i64,
    pub public_key: String,
    pub distance_km: u64,
}

impl View for Server {
    type V = ServerModel;

    open spec fn view(&self) -> ServerModel {
        ServerModel {
            name: self.name@,
            hostname: self.hostname@,
            station: self.station@,
            load: self.load as int,
            country: self.country@,
            city: self.city@,
            latitude_udeg: self.latitude_udeg as int,
            longitude_udeg: self.longitude_udeg as int,
            public_key: self.public_key@,
            distance_km: self.distance_km as int,
        }
    }
}

impl Server {
    /// A field-for-field copy, equal to this server.
    pub fn duplicate(&self) -> (r: Server)
        ensures
            r == *self,
            r@ == self@,
    {
        Server {
            name: self.name.clone(),
            hostname: self.hostname.clone(),
            station: self.station.clone(),
            load: self.load,
            country: self.country.clone(),
            city: self.city.clone(),
            latitude_udeg: self.latitude_udeg,
            longitude_udeg: self.longitude_udeg,
            public_key: self.public_key.clone(),
            distance_km: self.distance_km,
        }
    }
}

/// The views of a sequence of ranked servers.
pub open spec fn models(s: Seq<Server>) -> Seq<ServerModel> {
    s.map_values(|x: Server| x@)
}

/// A character allowed in a dotted-decimal DNS address.
pub open spec fn spec_dns_char_ok(c: char) -> bool {
    (48 <= c as u32 <= 57) || c == '.'
}

/// The user's preferences, validated before any work proceeds.
pub struct UserConfig {
    /// DNS address written into every profile, dotted-decimal.
    pub dns: String,
    /// Put the station IP rather than the hostname into the endpoint.
    pub use_ip: bool,
    /// Keepalive seconds, within `[15, 120]`.
    pub keepalive: i32,
}

impl UserConfig {
    /// The preferences are acceptable: the DNS string holds only
    /// digits and dots, and the keepalive lies within `[15, 120]`.
    pub open spec fn spec_valid(self) -> bool {
        &&& forall|i: int| 0 <= i < self.dns@.len() ==> spec_dns_char_ok(#[trigger] self.dns@[i])
        &&& 15 <= self.keepalive <= 120
    }

    /// Check the preferences; invalid input is a hard input error for
    /// the caller, never retried.
    pub fn is_valid(&self) -> (r: bool)
        ensures
            r == self.spec_valid(),
    {
        if self.keepalive < 15 || self.keepalive > 120 {
            return false;
        }
        let s = self.dns.as_str();
        let n = s.unicode_len();
        let mut i: usize = 0;
        while i < n
            invariant
                n == s@.len(),
                i <= n,
                s@ == self.dns@,
                forall|j: int| 0 <= j < i ==> spec_dns_char_ok(#[trigger] s@[j]),
            decreases n - i,
        {
            let c = s.get_char(i);
            let ok = if c == '.' {
                true
            } else {
                let u = c as u32;
                48 <= u && u <= 57
            };
            if !ok {
                return false;
            }
            i = i + 1;
        }
        true
    }
}

impl Default for UserConfig {
    /// The defaults offered at the interactive prompt.
    fn default() -> (r: UserConfig)
        ensures
            r.dns@ == "103.86.96.100"@,
            r.use_ip == false,
            r.keepalive == 25,
    {
        UserConfig { dns: String::from_str("103.86.96.100"), use_ip: false, keepalive: 25 }
    }
}

} // verus!
