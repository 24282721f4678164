use echo_core::ports::MalformedRange;
use echo_core::ports::PortSet;

fn parse(s: &str) -> Result<PortSet, MalformedRange> {
    PortSet::parse_ports(s)
}

fn ports_of(s: &str) -> Vec<u16> {
    parse(s).unwrap().as_vec().clone()
}

#[test]
fn parse_single_port() {
    assert_eq!(ports_of("8080"), vec![8080]);
}

#[test]
fn parse_inclusive_range() {
    assert_eq!(ports_of("8000-8002"), vec![8000, 8001, 8002]);
}

#[test]
fn parse_mixed_expression() {
    assert_eq!(ports_of("80,443,8000-8002"), vec![80, 443, 8000, 8001, 8002]);
}

#[test]
fn parse_empty_is_empty_set() {
    assert_eq!(ports_of(""), Vec::<u16>::new());
}

#[test]
fn parse_collapses_duplicates_and_overlaps() {
    assert_eq!(ports_of("80,80,79-81"), vec![79, 80, 81]);
}

#[test]
fn parse_reversed_range_is_empty() {
    assert_eq!(ports_of("9000-8000"), Vec::<u16>::new());
}

#[test]
fn parse_port_bounds() {
    assert_eq!(ports_of("0,65535"), vec![0, 65535]);
    assert!(parse("65536").is_err());
}

#[test]
fn parse_malformed_word() {
    let e = parse("abc").unwrap_err();
    assert_eq!(e.token, "abc");
}

#[test]
fn parse_malformed_range_bound() {
    let e = parse("100-abc").unwrap_err();
    assert_eq!(e.token, "100-abc");
}

#[test]
fn parse_reports_first_bad_token() {
    let e = parse("80,x,y").unwrap_err();
    assert_eq!(e.token, "x");
}

#[test]
fn parse_rejects_empty_token() {
    assert!(parse("80,").is_err());
    assert!(parse(",80").is_err());
    assert!(parse("-80").is_err());
    assert!(parse("1-2-3").is_err());
}

#[test]
fn contains_follows_membership() {
    let ps = parse("80,443,8000-8002").unwrap();
    assert!(ps.contains(80));
    assert!(ps.contains(8001));
    assert!(!ps.contains(81));
    assert_eq!(ps.len(), 5);
}

#[test]
fn render_groups_contiguous_runs() {
    let ps = PortSet::from_ports(&vec![9000, 8080, 8081, 8082, 443]);
    assert_eq!(ps.render(), "443,8080-8082,9000");
}

#[test]
fn render_empty_set() {
    assert_eq!(PortSet::new().render(), "");
}

#[test]
fn render_single_ports() {
    assert_eq!(PortSet::from_ports(&vec![8080]).render(), "8080");
    assert_eq!(PortSet::from_ports(&vec![0]).render(), "0");
    assert_eq!(PortSet::from_ports(&vec![65535]).render(), "65535");
}

#[test]
fn render_is_order_independent() {
    let a = PortSet::from_ports(&vec![3, 1, 2]);
    let b = PortSet::from_ports(&vec![2, 3, 1, 1]);
    assert_eq!(a.render(), "1-3");
    assert_eq!(b.render(), "1-3");
}

#[test]
fn round_trip_parse_of_render() {
    let cases: Vec<Vec<u16>> = vec![
        vec![],
        vec![8080],
        vec![0, 1, 2, 3],
        vec![9000, 8080, 8081, 8082, 443],
        vec![65533, 65535],
        vec![1, 3, 5, 7],
    ];
    for ports in cases {
        let s = PortSet::from_ports(&ports);
        let back = PortSet::parse_ports(&s.render()).unwrap();
        assert_eq!(back.as_vec(), s.as_vec());
    }
}

#[test]
fn round_trip_render_of_parse_keeps_membership() {
    let first = PortSet::parse_ports("8002,8000-8001,443").unwrap();
    let again = PortSet::parse_ports(&first.render()).unwrap();
    assert_eq!(again.as_vec(), first.as_vec());
    assert_eq!(first.render(), "443,8000-8002");
}

#[test]
fn malformed_error_names_the_token() {
    let e = parse("80,oops").unwrap_err();
    assert_eq!(e.token, "oops");
    assert_eq!(e.message(), "malformed port range token: oops");
}
