//! Verified core of a WireGuard profile generator for a VPN provider's
//! server directory: ranking servers by load and proximity, rendering
//! profile files, selecting the best server per location, and the state
//! machines that drive bounded-concurrency writing with cooperative
//! shutdown. Network and file I/O live outside this crate; everything
//! here is pure logic with proved contracts.

pub mod auth;
pub mod best;
pub mod coords;
pub mod errors;
pub mod geo;
pub mod model;
pub mod prefs;
pub mod profile;
pub mod rank;
pub mod sched;
pub mod sanitize;
pub mod strutil;
pub mod summary;
