use grid_clusters::geometry::Point;
use grid_clusters::parse::parse_dataset;
use grid_clusters::parse::parse_point_line;
use grid_clusters::parse::parse_scaled;
use grid_clusters::parse::trim_newline;
use grid_clusters::parse::ParseError;

#[test]
fn scaled_reads_plain_decimals() {
    assert_eq!(parse_scaled(b"0.1"), Some(100_000));
    assert_eq!(parse_scaled(b"1.5"), Some(1_500_000));
    assert_eq!(parse_scaled(b"0.05"), Some(50_000));
    assert_eq!(parse_scaled(b"2"), Some(2_000_000));
    assert_eq!(parse_scaled(b"0"), Some(0));
}

#[test]
fn scaled_reads_bare_dot_forms() {
    assert_eq!(parse_scaled(b".5"), Some(500_000));
    assert_eq!(parse_scaled(b"1."), Some(1_000_000));
}

#[test]
fn scaled_truncates_past_six_fraction_digits() {
    assert_eq!(parse_scaled(b"0.1234567"), Some(123_456));
    assert_eq!(parse_scaled(b"0.0000001"), Some(0));
    assert_eq!(parse_scaled(b"0.000001"), Some(1));
}

#[test]
fn scaled_rejects_malformed_literals() {
    assert_eq!(parse_scaled(b""), None);
    assert_eq!(parse_scaled(b"."), None);
    assert_eq!(parse_scaled(b"12x"), None);
    assert_eq!(parse_scaled(b"1.2.3"), None);
    assert_eq!(parse_scaled(b"-1"), None);
    assert_eq!(parse_scaled(b"1 2"), None);
}

#[test]
fn scaled_caps_the_whole_part() {
    assert_eq!(parse_scaled(b"9999999"), Some(9_999_999_000_000));
    assert_eq!(parse_scaled(b"10000000"), None);
}

#[test]
fn point_line_reads_two_fields() {
    assert_eq!(
        parse_point_line(b"0.05, 0.1"),
        Some(Point { x: 50_000, y: 100_000 })
    );
    assert_eq!(
        parse_point_line(b"  0.2\t,0.3  "),
        Some(Point { x: 200_000, y: 300_000 })
    );
}

#[test]
fn point_line_ignores_fields_past_the_second() {
    assert_eq!(
        parse_point_line(b"0.1,0.2,0.9"),
        Some(Point { x: 100_000, y: 200_000 })
    );
}

#[test]
fn point_line_rejects_missing_or_bad_fields() {
    assert_eq!(parse_point_line(b"0.1 0.2"), None);
    assert_eq!(parse_point_line(b"0.1,"), None);
    assert_eq!(parse_point_line(b",0.2"), None);
    assert_eq!(parse_point_line(b""), None);
}

#[test]
fn dataset_reads_radius_then_points() {
    let data = b"0.1\n0.05, 0.05\n0.1, 0.05\n0.5,0.5\n";
    let (r, pts) = parse_dataset(data).unwrap();
    assert_eq!(r, 100_000);
    assert_eq!(
        pts,
        vec![
            Point { x: 50_000, y: 50_000 },
            Point { x: 100_000, y: 50_000 },
            Point { x: 500_000, y: 500_000 },
        ]
    );
}

#[test]
fn dataset_accepts_crlf_and_missing_final_newline() {
    let data = b"0.1\r\n0.05, 0.05\r\n0.5,0.5";
    let (r, pts) = parse_dataset(data).unwrap();
    assert_eq!(r, 100_000);
    assert_eq!(pts.len(), 2);
    assert_eq!(pts[1], Point { x: 500_000, y: 500_000 });
}

#[test]
fn dataset_with_only_a_radius_has_no_points() {
    let (r, pts) = parse_dataset(b"0.25\n").unwrap();
    assert_eq!(r, 250_000);
    assert!(pts.is_empty());
}

#[test]
fn dataset_rejects_bad_radius() {
    assert_eq!(parse_dataset(b"abc\n1,2\n"), Err(ParseError::BadRadius));
    assert_eq!(parse_dataset(b""), Err(ParseError::BadRadius));
}

#[test]
fn dataset_names_the_bad_point_line() {
    assert_eq!(
        parse_dataset(b"0.1\n0.05 0.05\n"),
        Err(ParseError::BadPoint(1))
    );
    assert_eq!(
        parse_dataset(b"0.1\n0.05,0.05\n\n0.2,0.2\n"),
        Err(ParseError::BadPoint(2))
    );
}

#[test]
fn trim_newline_strips_lf_and_crlf() {
    let mut a: Vec<u8> = b"abc\r\n".to_vec();
    trim_newline(&mut a);
    assert_eq!(a, b"abc".to_vec());

    let mut b: Vec<u8> = b"abc\n".to_vec();
    trim_newline(&mut b);
    assert_eq!(b, b"abc".to_vec());

    let mut c: Vec<u8> = b"abc\r".to_vec();
    trim_newline(&mut c);
    assert_eq!(c, b"abc\r".to_vec());

    let mut d: Vec<u8> = Vec::new();
    trim_newline(&mut d);
    assert_eq!(d, Vec::<u8>::new());
}
