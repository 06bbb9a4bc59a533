//! Rendering of one WireGuard profile and of its on-disk location.
//! The text layout is a bit-exact contract: third-party client
//! software consumes these files.

use vstd::prelude::*;
use vstd::string::StringExecFns;
use crate::model::{Server, ServerModel, UserConfig};
use crate::sanitize::{sanitize_filename, spec_sanitize};
use crate::strutil::{spec_decimal, u64_to_string};

verus! {

/// The exact text of a profile: an interface block with the private
/// key, the fixed internal address and the configured DNS, and a peer
/// block with the server's public key, catch-all allowed IPs, the
/// chosen endpoint on port 51820 and the keepalive.
pub open spec fn spec_render(
    key: Seq<char>,
    server: ServerModel,
    dns: Seq<char>,
    use_ip: bool,
    keepalive: int,
) -> Seq<char> {
    "[Interface]\nPrivateKey = "@ + key + "\nAddress = 10.5.0.2/16\nDNS = "@ + dns
        + "\n\n[Peer]\nPublicKey = "@ + server.public_key + "\nAllowedIPs = 0.0.0.0/0, ::/0\nEndpoint = "@
        + (if use_ip {
        server.station
    } else {
        server.hostname
    }) + ":51820\nPersistentKeepalive = "@ + spec_decimal(keepalive as nat)
}

/// Render the profile text for one ranked server under the user's
/// preferences. The endpoint is the station IP when the user asked
/// for it, the hostname otherwise.
pub fn generate_config(key: &str, server: &Server, config: &UserConfig) -> (r: String)
    requires
        config.spec_valid(),
    ensures
        r@ == spec_render(key@, server@, config.dns@, config.use_ip, config.keepalive as int),
{
    let mut out = String::new();
    out.append("[Interface]\nPrivateKey = ");
    out.append(key);
    out.append("\nAddress = 10.5.0.2/16\nDNS = ");
    out.append(config.dns.as_str());
    out.append("\n\n[Peer]\nPublicKey = ");
    out.append(server.public_key.as_str());
    out.append("\nAllowedIPs = 0.0.0.0/0, ::/0\nEndpoint = ");
    if config.use_ip {
        out.append(server.station.as_str());
    } else {
        out.append(server.hostname.as_str());
    }
    out.append(":51820\nPersistentKeepalive = ");
    let ks = u64_to_string(config.keepalive as u64);
    out.append(ks.as_str());
    proof {
        assert(out@ =~= spec_render(
            key@,
            server@,
            config.dns@,
            config.use_ip,
            config.keepalive as int,
        ));
    }
    out
}

/// The relative destination of a server's profile below the output
/// directory: `base/country/city/name.conf`, every component
/// sanitized.
pub open spec fn spec_profile_rel_path(base: Seq<char>, server: ServerModel) -> Seq<char> {
    base + "/"@ + spec_sanitize(server.country) + "/"@ + spec_sanitize(server.city) + "/"@
        + spec_sanitize(server.name) + ".conf"@
}

/// The sanitized relative path of one profile under `base` (the
/// `configs` or `best_configs` subdirectory).
pub fn profile_rel_path(base: &str, server: &Server) -> (r: String)
    ensures
        r@ == spec_profile_rel_path(base@, server@),
{
    let mut out = String::new();
    out.append(base);
    out.append("/");
    let country = sanitize_filename(server.country.as_str());
    out.append(country.as_str());
    out.append("/");
    let city = sanitize_filename(server.city.as_str());
    out.append(city.as_str());
    out.append("/");
    let name = sanitize_filename(server.name.as_str());
    out.append(name.as_str());
    out.append(".conf");
    proof {
        assert(out@ =~= spec_profile_rel_path(base@, server@));
    }
    out
}

} // verus!
