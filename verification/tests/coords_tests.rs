use nordconf::coords::parse_lat_lon;

#[test]
fn coords_reads_decimal_pair() {
    assert_eq!(parse_lat_lon("52.52,13.405"), Some((52_520_000, 13_405_000)));
    assert_eq!(parse_lat_lon("0,0"), Some((0, 0)));
    assert_eq!(parse_lat_lon("-33.8688,151.2093"), Some((-33_868_800, 151_209_300)));
    assert_eq!(parse_lat_lon("90,-180"), Some((90_000_000, -180_000_000)));
}

#[test]
fn coords_cuts_fraction_after_six_places() {
    assert_eq!(parse_lat_lon("0.1234567,0"), Some((123_456, 0)));
    assert_eq!(parse_lat_lon("0.5,0"), Some((500_000, 0)));
    assert_eq!(parse_lat_lon("-0.5,0"), Some((-500_000, 0)));
    assert_eq!(parse_lat_lon("1.,2"), Some((1_000_000, 2_000_000)));
}

#[test]
fn coords_rejects_malformed_text() {
    assert_eq!(parse_lat_lon(""), None);
    assert_eq!(parse_lat_lon("52.52"), None);
    assert_eq!(parse_lat_lon("1,2,3"), None);
    assert_eq!(parse_lat_lon("abc,def"), None);
    assert_eq!(parse_lat_lon("1.2.3,4"), None);
    assert_eq!(parse_lat_lon(",5"), None);
}

#[test]
fn coords_rejects_out_of_range_positions() {
    assert_eq!(parse_lat_lon("95,0"), None);
    assert_eq!(parse_lat_lon("-90.000001,0"), None);
    assert_eq!(parse_lat_lon("0,180.5"), None);
    assert_eq!(parse_lat_lon("0,-181"), None);
}
