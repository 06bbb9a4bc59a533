use nordconf::model::Server;
use nordconf::summary::{build, serialize};

fn server(name: &str, load: i32, country: &str, city: &str, dist: u64) -> Server {
    Server {
        name: name.to_string(),
        hostname: format!("{}.example", name),
        station: "10.0.0.1".to_string(),
        load,
        country: country.to_string(),
        city: city.to_string(),
        latitude_udeg: 0,
        longitude_udeg: 0,
        public_key: "pk".to_string(),
        distance_km: dist,
    }
}

#[test]
fn summary_groups_by_country_and_city_in_order() {
    let ranked = vec![
        server("de2", 10, "Germany", "Berlin", 5971),
        server("de1", 40, "Germany", "Berlin", 5971),
        server("fr1", 90, "France", "Paris", 5437),
    ];
    let idx = build(&ranked);
    assert_eq!(idx.countries.len(), 2);
    assert_eq!(idx.countries[0].name, "Germany");
    assert_eq!(idx.countries[0].cities.len(), 1);
    assert_eq!(idx.countries[0].cities[0].name, "Berlin");
    assert_eq!(idx.countries[0].cities[0].distance_km, 5971);
    assert_eq!(idx.countries[0].cities[0].servers.len(), 2);
    assert_eq!(idx.countries[0].cities[0].servers[0].0, "de2");
    assert_eq!(idx.countries[0].cities[0].servers[0].1, 10);
    assert_eq!(idx.countries[0].cities[0].servers[1].0, "de1");
    assert_eq!(idx.countries[1].name, "France");
}

#[test]
fn summary_serializes_deterministic_json() {
    let ranked = vec![
        server("de2", 10, "Germany", "Berlin", 100),
        server("de1", 40, "Germany", "Berlin", 200),
        server("fr1", 90, "France", "Paris", 300),
    ];
    let idx = build(&ranked);
    let text = serialize(&idx);
    let expected = "{\"Germany\":{\"Berlin\":{\"distance\":200,\"servers\":[[\"de2\",10],[\"de1\",40]]}},\"France\":{\"Paris\":{\"distance\":300,\"servers\":[[\"fr1\",90]]}}}";
    assert_eq!(text, expected);
}

#[test]
fn summary_last_server_sets_city_distance() {
    let ranked = vec![
        server("a", 1, "X", "P", 111),
        server("b", 2, "X", "P", 222),
    ];
    let idx = build(&ranked);
    assert_eq!(idx.countries[0].cities[0].distance_km, 222);
}

#[test]
fn summary_escapes_json_strings() {
    let ranked = vec![server("na\"me", 7, "Land\\x", "Ci\"ty", 1)];
    let idx = build(&ranked);
    let text = serialize(&idx);
    assert_eq!(
        text,
        "{\"Land\\\\x\":{\"Ci\\\"ty\":{\"distance\":1,\"servers\":[[\"na\\\"me\",7]]}}}"
    );
}

#[test]
fn summary_empty_input_gives_empty_object() {
    let ranked: Vec<Server> = Vec::new();
    let idx = build(&ranked);
    assert_eq!(serialize(&idx), "{}");
}
