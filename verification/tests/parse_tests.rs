use tsp_hill::parse::{parse_city, parse_city_list};

fn line(s: &str) -> Vec<u8> {
    s.as_bytes().to_vec()
}

#[test]
fn parses_plain_record() {
    let c = parse_city(&line("65.6478 68.3254 Cid1000")).unwrap();
    assert_eq!(c.x, 656_478);
    assert_eq!(c.y, 683_254);
    assert_eq!(c.name, b"Cid1000".to_vec());
}

#[test]
fn parses_integers_and_signs() {
    let c = parse_city(&line("-3.5 +2 town")).unwrap();
    assert_eq!(c.x, -35_000);
    assert_eq!(c.y, 20_000);
    let d = parse_city(&line("7 0 spot")).unwrap();
    assert_eq!(d.x, 70_000);
    assert_eq!(d.y, 0);
}

#[test]
fn parses_with_extra_whitespace_and_tokens() {
    let c = parse_city(&line("  1.5\t2.5   a  trailing junk ")).unwrap();
    assert_eq!(c.x, 15_000);
    assert_eq!(c.y, 25_000);
    assert_eq!(c.name, b"a".to_vec());
}

#[test]
fn truncates_extra_fraction_digits() {
    let c = parse_city(&line("1.23456789 0.1 p")).unwrap();
    assert_eq!(c.x, 12_345);
    assert_eq!(c.y, 1_000);
}

#[test]
fn accepts_bare_dot_forms() {
    let c = parse_city(&line("65. .5 q")).unwrap();
    assert_eq!(c.x, 650_000);
    assert_eq!(c.y, 5_000);
}

#[test]
fn rejects_missing_name() {
    assert!(parse_city(&line("1 2")).is_none());
}

#[test]
fn rejects_missing_coordinate() {
    assert!(parse_city(&line("1")).is_none());
    assert!(parse_city(&line("")).is_none());
    assert!(parse_city(&line("   ")).is_none());
}

#[test]
fn rejects_non_numeric_coordinates() {
    assert!(parse_city(&line("abc 1 n")).is_none());
    assert!(parse_city(&line("1 2x3 n")).is_none());
    assert!(parse_city(&line("nan 1 n")).is_none());
    assert!(parse_city(&line("inf 1 n")).is_none());
    assert!(parse_city(&line("- 1 n")).is_none());
    assert!(parse_city(&line("1..2 3 n")).is_none());
}

#[test]
fn rejects_out_of_range_coordinate() {
    assert!(parse_city(&line("999999999 0 far")).is_none());
    let ok = parse_city(&line("100000 0 edge")).unwrap();
    assert_eq!(ok.x, 1_000_000_000);
}

#[test]
fn list_drops_header_and_malformed_lines() {
    let lines = vec![
        line("3"),
        line("0 0 a"),
        line("0 1 b"),
        line("1 1 c"),
        line("1 0"),
    ];
    let cities = parse_city_list(&lines);
    assert_eq!(cities.len(), 3);
    assert_eq!(cities[0].name, b"a".to_vec());
    assert_eq!(cities[1].name, b"b".to_vec());
    assert_eq!(cities[2].name, b"c".to_vec());
    assert_eq!(cities[1].y, 10_000);
}

#[test]
fn list_header_is_never_validated() {
    let lines = vec![line("not a number at all"), line("2 3 d")];
    let cities = parse_city_list(&lines);
    assert_eq!(cities.len(), 1);
    assert_eq!(cities[0].x, 20_000);
    assert_eq!(cities[0].y, 30_000);
}

#[test]
fn empty_list_yields_no_cities() {
    assert_eq!(parse_city_list(&Vec::new()).len(), 0);
    assert_eq!(parse_city_list(&vec![line("5")]).len(), 0);
}
