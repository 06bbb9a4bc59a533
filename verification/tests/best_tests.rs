use nordconf::best::best_per_location;
use nordconf::model::Server;

fn server(name: &str, load: i32, country: &str, city: &str, dist: u64) -> Server {
    Server {
        name: name.to_string(),
        hostname: format!("{}.example", name),
        station: "10.0.0.1".to_string(),
        load,
        country: country.to_string(),
        city: city.to_string(),
        latitude_udeg: 0,
        longitude_udeg: 0,
        public_key: "pk".to_string(),
        distance_km: dist,
    }
}

#[test]
fn best_one_entry_per_location() {
    let ranked = vec![
        server("de2", 10, "Germany", "Berlin", 5971),
        server("de1", 40, "Germany", "Berlin", 5971),
        server("fr1", 90, "France", "Paris", 5437),
    ];
    let best = best_per_location(&ranked);
    assert_eq!(best.len(), 2);
    assert_eq!(best[0].country, "Germany");
    assert_eq!(best[0].city, "Berlin");
    assert_eq!(best[0].name, "de2");
    assert_eq!(best[0].load, 10);
    assert_eq!(best[1].country, "France");
    assert_eq!(best[1].city, "Paris");
    assert_eq!(best[1].name, "fr1");
    assert_eq!(best[1].load, 90);
}

#[test]
fn best_load_is_minimal_per_location() {
    let ranked = vec![
        server("a", 30, "X", "P", 1),
        server("b", 10, "X", "P", 2),
        server("c", 20, "X", "Q", 3),
        server("d", 15, "X", "P", 4),
    ];
    let best = best_per_location(&ranked);
    assert_eq!(best.len(), 2);
    for b in &best {
        for r in &ranked {
            if r.country == b.country && r.city == b.city {
                assert!(b.load <= r.load);
            }
        }
    }
    assert_eq!(best[0].name, "b");
    assert_eq!(best[1].name, "c");
}

#[test]
fn best_first_seen_wins_exact_load_tie() {
    // equal minimum load: the earlier entry stays, distance is not
    // reconsulted
    let ranked = vec![
        server("early", 10, "X", "P", 900),
        server("late", 10, "X", "P", 1),
    ];
    let best = best_per_location(&ranked);
    assert_eq!(best.len(), 1);
    assert_eq!(best[0].name, "early");
    assert_eq!(best[0].distance_km, 900);
}

#[test]
fn best_same_city_name_in_two_countries_kept_apart() {
    let ranked = vec![
        server("us", 50, "United States", "Springfield", 1),
        server("au", 40, "Australia", "Springfield", 2),
    ];
    let best = best_per_location(&ranked);
    assert_eq!(best.len(), 2);
}
