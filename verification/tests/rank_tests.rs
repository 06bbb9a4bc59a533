use nordconf::model::{City, Country, Location, Metadata, ServerResponse, Technology};
use nordconf::rank::process_servers;

fn wg_tech(key: &str) -> Technology {
    Technology {
        identifier: "wireguard_udp".to_string(),
        metadata: vec![Metadata {
            name: "public_key".to_string(),
            value: key.to_string(),
        }],
    }
}

fn record(
    name: &str,
    load: Option<i32>,
    country: &str,
    city: Option<&str>,
    lat: i64,
    lon: i64,
    techs: Vec<Technology>,
) -> ServerResponse {
    ServerResponse {
        name: name.to_string(),
        hostname: format!("{}.example", name),
        station: "10.0.0.1".to_string(),
        load,
        locations: vec![Location {
            country: Country {
                name: country.to_string(),
                city: city.map(|c| City { name: c.to_string() }),
            },
            latitude_udeg: lat,
            longitude_udeg: lon,
        }],
        technologies: techs,
    }
}

#[test]
fn rank_three_servers_scenario() {
    let servers = vec![
        record("de1", Some(40), "Germany", Some("Berlin"), 52_520_000, 13_405_000, vec![wg_tech("k1")]),
        record("de2", Some(10), "Germany", Some("Berlin"), 52_520_000, 13_405_000, vec![wg_tech("k2")]),
        record("fr1", Some(90), "France", Some("Paris"), 48_856_600, 2_352_200, vec![wg_tech("k3")]),
    ];
    let (ranked, dropped) = process_servers(&servers, 0, 0);
    assert_eq!(dropped, 0);
    let names: Vec<&str> = ranked.iter().map(|s| s.name.as_str()).collect();
    assert_eq!(names, vec!["de2", "de1", "fr1"]);
    assert_eq!(ranked[0].load, 10);
    assert_eq!(ranked[1].load, 40);
    assert_eq!(ranked[2].load, 90);
}

#[test]
fn rank_record_without_wireguard_technology_is_excluded() {
    let other = Technology {
        identifier: "openvpn_udp".to_string(),
        metadata: vec![Metadata {
            name: "public_key".to_string(),
            value: "x".to_string(),
        }],
    };
    let servers = vec![
        record("no-wg", Some(5), "Germany", Some("Berlin"), 52_520_000, 13_405_000, vec![other]),
        record("ok", Some(50), "Germany", Some("Berlin"), 52_520_000, 13_405_000, vec![wg_tech("k")]),
    ];
    let (ranked, dropped) = process_servers(&servers, 0, 0);
    assert_eq!(ranked.len(), 1);
    assert_eq!(dropped, 1);
    assert_eq!(ranked[0].name, "ok");
    assert!(!ranked[0].public_key.is_empty());
}

#[test]
fn rank_record_with_empty_key_or_no_location_is_excluded() {
    let mut no_loc = record("no-loc", Some(5), "X", None, 0, 0, vec![wg_tech("k")]);
    no_loc.locations.clear();
    let servers = vec![
        no_loc,
        record("empty-key", Some(5), "X", None, 0, 0, vec![wg_tech("")]),
        record("kept", Some(7), "X", None, 0, 0, vec![wg_tech("k")]),
    ];
    let (ranked, dropped) = process_servers(&servers, 0, 0);
    assert_eq!(ranked.len(), 1);
    assert_eq!(dropped, 2);
    assert_eq!(ranked[0].name, "kept");
}

#[test]
fn rank_missing_load_counts_as_worst() {
    let servers = vec![
        record("unknown-load", None, "X", None, 0, 0, vec![wg_tech("a")]),
        record("light", Some(1), "X", None, 0, 0, vec![wg_tech("b")]),
    ];
    let (ranked, _) = process_servers(&servers, 0, 0);
    assert_eq!(ranked[0].name, "light");
    assert_eq!(ranked[1].name, "unknown-load");
    assert_eq!(ranked[1].load, 100);
}

#[test]
fn rank_is_stable_for_equal_load_and_distance() {
    // four records in the same place with the same load keep input order
    let servers = vec![
        record("first", Some(20), "X", Some("Y"), 1_000_000, 1_000_000, vec![wg_tech("a")]),
        record("heavy", Some(90), "X", Some("Y"), 1_000_000, 1_000_000, vec![wg_tech("d")]),
        record("second", Some(20), "X", Some("Y"), 1_000_000, 1_000_000, vec![wg_tech("b")]),
        record("third", Some(20), "X", Some("Y"), 1_000_000, 1_000_000, vec![wg_tech("c")]),
    ];
    let (ranked, _) = process_servers(&servers, 0, 0);
    let names: Vec<&str> = ranked.iter().map(|s| s.name.as_str()).collect();
    assert_eq!(names, vec!["first", "second", "third", "heavy"]);
}

#[test]
fn rank_city_falls_back_to_unknown() {
    let servers = vec![record("s", Some(1), "Nowhere", None, 0, 0, vec![wg_tech("k")])];
    let (ranked, _) = process_servers(&servers, 0, 0);
    assert_eq!(ranked[0].city, "unknown");
    assert_eq!(ranked[0].country, "Nowhere");
}

#[test]
fn rank_distance_breaks_load_ties() {
    let servers = vec![
        record("far", Some(30), "X", Some("F"), 48_856_600, 2_352_200, vec![wg_tech("a")]),
        record("near", Some(30), "X", Some("N"), 1_000_000, 1_000_000, vec![wg_tech("b")]),
    ];
    let (ranked, _) = process_servers(&servers, 0, 0);
    assert_eq!(ranked[0].name, "near");
    assert!(ranked[0].distance_km < ranked[1].distance_km);
}
