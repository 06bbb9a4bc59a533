use nordconf::geo::calculate_distance;

const BERLIN: (i64, i64) = (52_520_000, 13_405_000);
const PARIS: (i64, i64) = (48_856_600, 2_352_200);

#[test]
fn geo_distance_to_self_is_zero() {
    assert_eq!(calculate_distance(BERLIN.0, BERLIN.1, BERLIN.0, BERLIN.1), 0);
    assert_eq!(calculate_distance(0, 0, 0, 0), 0);
    assert_eq!(calculate_distance(-90_000_000, 180_000_000, -90_000_000, 180_000_000), 0);
}

#[test]
fn geo_distance_is_symmetric() {
    let d1 = calculate_distance(BERLIN.0, BERLIN.1, PARIS.0, PARIS.1);
    let d2 = calculate_distance(PARIS.0, PARIS.1, BERLIN.0, BERLIN.1);
    assert_eq!(d1, d2);
    let d3 = calculate_distance(40_712_800, -74_006_000, -33_868_800, 151_209_300);
    let d4 = calculate_distance(-33_868_800, 151_209_300, 40_712_800, -74_006_000);
    assert_eq!(d3, d4);
}

#[test]
fn geo_known_distances() {
    // ~877 km between Berlin and Paris
    assert_eq!(calculate_distance(BERLIN.0, BERLIN.1, PARIS.0, PARIS.1), 877);
    // equator origin to Berlin, ~5972 km
    assert_eq!(calculate_distance(0, 0, BERLIN.0, BERLIN.1), 5971);
    // New York to Sydney, ~15989 km
    assert_eq!(
        calculate_distance(40_712_800, -74_006_000, -33_868_800, 151_209_300),
        15988
    );
}

#[test]
fn geo_distance_is_bounded() {
    let d = calculate_distance(0, 0, 0, 180_000_000);
    assert!(d <= 20_016);
    assert!(d > 19_000);
}
