use nordconf::model::{Server, UserConfig};
use nordconf::profile::{generate_config, profile_rel_path};

fn server() -> Server {
    Server {
        name: "Germany #101".to_string(),
        hostname: "de101.example.com".to_string(),
        station: "192.0.2.7".to_string(),
        load: 10,
        country: "Germany".to_string(),
        city: "Berlin".to_string(),
        latitude_udeg: 52_520_000,
        longitude_udeg: 13_405_000,
        public_key: "SERVERPUBKEY=".to_string(),
        distance_km: 877,
    }
}

#[test]
fn profile_text_is_bit_exact() {
    let config = UserConfig {
        dns: "103.86.96.100".to_string(),
        use_ip: false,
        keepalive: 25,
    };
    let text = generate_config("PRIVATEKEY=", &server(), &config);
    let expected = "[Interface]\n\
                    PrivateKey = PRIVATEKEY=\n\
                    Address = 10.5.0.2/16\n\
                    DNS = 103.86.96.100\n\n\
                    [Peer]\n\
                    PublicKey = SERVERPUBKEY=\n\
                    AllowedIPs = 0.0.0.0/0, ::/0\n\
                    Endpoint = de101.example.com:51820\n\
                    PersistentKeepalive = 25";
    assert_eq!(text, expected);
}

#[test]
fn profile_endpoint_uses_station_when_asked() {
    let config = UserConfig {
        dns: "1.1.1.1".to_string(),
        use_ip: true,
        keepalive: 120,
    };
    let text = generate_config("K", &server(), &config);
    assert!(text.contains("Endpoint = 192.0.2.7:51820"));
    assert!(text.contains("PersistentKeepalive = 120"));
    assert!(text.contains("DNS = 1.1.1.1"));
}

#[test]
fn profile_rel_path_is_sanitized() {
    let p = profile_rel_path("configs", &server());
    assert_eq!(p, "configs/germany/berlin/germany_101.conf");
    let b = profile_rel_path("best_configs", &server());
    assert_eq!(b, "best_configs/germany/berlin/germany_101.conf");
}
