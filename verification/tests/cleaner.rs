use clean_raw_tx::aggregate::Aggregator;
use clean_raw_tx::datetime::DateTime;
use clean_raw_tx::datetime::fmt_datetime;
use clean_raw_tx::datetime::parse_timestamp;
use clean_raw_tx::digits::fmt_uint;
use clean_raw_tx::digits::parse_uint;
use clean_raw_tx::pipeline::parse_file_lines;
use clean_raw_tx::record::LineError;
use clean_raw_tx::record::Point;
use clean_raw_tx::record::parse_line;
use clean_raw_tx::render::output_file_name;
use clean_raw_tx::render::render_group;
use clean_raw_tx::sort::sort_all;
use clean_raw_tx::sort::sort_points;
use clean_raw_tx::text::split_commas;
use clean_raw_tx::text::str_lex_le;
use clean_raw_tx::text::trim;

fn dt(year: u16, month: u8, day: u8, hour: u8, minute: u8, second: u8) -> DateTime {
    DateTime { year, month, day, hour, minute, second }
}

fn point(id: usize, time: DateTime, lat: &str, lng: &str) -> Point {
    Point { id, time, lat: lat.to_owned(), lng: lng.to_owned() }
}

#[test]
fn accepts_well_formed_line() {
    let r = parse_line("7,x,y,20230101120000,12.5,45.5,1").unwrap().unwrap();
    assert_eq!(r.id, 7);
    assert_eq!(r.time, dt(2023, 1, 1, 12, 0, 0));
    assert_eq!(r.lat, "12.5");
    assert_eq!(r.lng, "45.5");
}

#[test]
fn rejects_zero_validity_flag() {
    let r = parse_line("7,x,y,20230101120000,12.5,45.5,0").unwrap();
    assert!(r.is_none());
}

#[test]
fn rejects_short_line_before_numeric_parsing() {
    let r = parse_line("0.0000000,0.0000000").unwrap();
    assert!(r.is_none());
    let r = parse_line("0.0000000,0.0000000,1").unwrap();
    assert!(r.is_none());
}

#[test]
fn rejects_sentinel_latitude() {
    let r = parse_line("7,x,y,20230101120000,0.0000000,45.5,1").unwrap();
    assert!(r.is_none());
}

#[test]
fn rejects_sentinel_longitude() {
    let r = parse_line("7,x,y,20230101120000,12.5,0.0000000,1").unwrap();
    assert!(r.is_none());
}

#[test]
fn rejects_zero_identifier() {
    let r = parse_line("0,x,y,20230101120000,12.5,45.5,1").unwrap();
    assert!(r.is_none());
}

#[test]
fn rejects_line_with_exactly_five_fields() {
    let r = parse_line("7,x,y,20230101120000,1").unwrap();
    assert!(r.is_none());
}

#[test]
fn malformed_flag_is_hard_error() {
    let r = parse_line("7,x,y,20230101120000,12.5,45.5,notanumber");
    assert_eq!(r.unwrap_err(), LineError::BadFlag);
}

#[test]
fn overflowing_flag_is_hard_error() {
    let r = parse_line("7,x,y,20230101120000,12.5,45.5,99999999999999999999999999");
    assert_eq!(r.unwrap_err(), LineError::BadFlag);
}

#[test]
fn malformed_timestamp_is_hard_error() {
    let r = parse_line("7,x,y,2023010112000,12.5,45.5,1");
    assert_eq!(r.unwrap_err(), LineError::BadTimestamp);
}

#[test]
fn impossible_date_is_hard_error() {
    let r = parse_line("7,x,y,20230230120000,12.5,45.5,1");
    assert_eq!(r.unwrap_err(), LineError::BadTimestamp);
}

#[test]
fn malformed_identifier_is_hard_error() {
    let r = parse_line("seven,x,y,20230101120000,12.5,45.5,1");
    assert_eq!(r.unwrap_err(), LineError::BadId);
}

#[test]
fn coordinates_are_trimmed() {
    let r = parse_line("7,x,y,20230101120000,  12.5\t, 45.5 ,1").unwrap().unwrap();
    assert_eq!(r.lat, "12.5");
    assert_eq!(r.lng, "45.5");
}

#[test]
fn parse_uint_plain_and_signed() {
    assert_eq!(parse_uint("7"), Some(7));
    assert_eq!(parse_uint("007"), Some(7));
    assert_eq!(parse_uint("+42"), Some(42));
    assert_eq!(parse_uint(""), None);
    assert_eq!(parse_uint("+"), None);
    assert_eq!(parse_uint("-3"), None);
    assert_eq!(parse_uint("1 2"), None);
    assert_eq!(parse_uint("99999999999999999999999999"), None);
}

#[test]
fn fmt_uint_decimal() {
    assert_eq!(fmt_uint(0), "0");
    assert_eq!(fmt_uint(7), "7");
    assert_eq!(fmt_uint(12345), "12345");
}

#[test]
fn timestamp_parses_and_formats_canonically() {
    let t = parse_timestamp("20230101120000").unwrap();
    assert_eq!(t, dt(2023, 1, 1, 12, 0, 0));
    assert_eq!(fmt_datetime(&t), "2023-01-01 12:00:00");
}

#[test]
fn timestamp_leap_year_rules() {
    assert!(parse_timestamp("20240229000000").is_some());
    assert!(parse_timestamp("20230229000000").is_none());
    assert!(parse_timestamp("20000229000000").is_some());
    assert!(parse_timestamp("19000229000000").is_none());
}

#[test]
fn timestamp_rejects_bad_fields() {
    assert!(parse_timestamp("20231301120000").is_none());
    assert!(parse_timestamp("20230100120000").is_none());
    assert!(parse_timestamp("20230101240000").is_none());
    assert!(parse_timestamp("20230101126000").is_none());
    assert!(parse_timestamp("20230101120060").is_none());
    assert!(parse_timestamp("2023010112000a").is_none());
    assert!(parse_timestamp("202301011200000").is_none());
}

#[test]
fn trim_strips_surrounding_whitespace() {
    assert_eq!(trim("  12.5 \t"), "12.5");
    assert_eq!(trim("12.5"), "12.5");
    assert_eq!(trim("   "), "");
    assert_eq!(trim("a b"), "a b");
}

#[test]
fn split_keeps_empty_fields() {
    assert_eq!(split_commas("a,b,c"), vec!["a", "b", "c"]);
    assert_eq!(split_commas(""), vec![""]);
    assert_eq!(split_commas("a,,c,"), vec!["a", "", "c", ""]);
}

#[test]
fn lex_order_on_text() {
    assert!(str_lex_le("abc", "abd"));
    assert!(!str_lex_le("abd", "abc"));
    assert!(str_lex_le("ab", "abc"));
    assert!(str_lex_le("abc", "abc"));
}

#[test]
fn sort_orders_by_timestamp() {
    let v = vec![
        point(7, dt(2023, 1, 1, 12, 0, 0), "1.0", "2.0"),
        point(7, dt(2022, 5, 5, 5, 5, 5), "3.0", "4.0"),
        point(7, dt(2023, 1, 1, 11, 59, 59), "5.0", "6.0"),
    ];
    let sorted = sort_points(v);
    assert_eq!(sorted[0].time, dt(2022, 5, 5, 5, 5, 5));
    assert_eq!(sorted[1].time, dt(2023, 1, 1, 11, 59, 59));
    assert_eq!(sorted[2].time, dt(2023, 1, 1, 12, 0, 0));
}

#[test]
fn sort_breaks_timestamp_ties_by_coordinates() {
    let t = dt(2023, 1, 1, 12, 0, 0);
    let v = vec![point(7, t, "2.0", "9.0"), point(7, t, "1.0", "9.0")];
    let sorted = sort_points(v);
    assert_eq!(sorted[0].lat, "1.0");
    assert_eq!(sorted[1].lat, "2.0");
}

#[test]
fn aggregator_groups_by_identifier() {
    let mut agg = Aggregator::new();
    agg.record(point(7, dt(2023, 1, 1, 0, 0, 0), "1", "2"));
    agg.record(point(9, dt(2023, 1, 1, 0, 0, 0), "3", "4"));
    agg.record(point(7, dt(2023, 1, 2, 0, 0, 0), "5", "6"));
    let groups = agg.into_groups();
    assert_eq!(groups.len(), 2);
    assert_eq!(groups[0].id, 7);
    assert_eq!(groups[0].recs.len(), 2);
    assert_eq!(groups[1].id, 9);
    assert_eq!(groups[1].recs.len(), 1);
}

#[test]
fn file_parsing_skips_rejects_and_collects_accepts() {
    let lines = vec![
        "7,x,y,20230101120000,12.5,45.5,1".to_owned(),
        "short,line".to_owned(),
        "8,x,y,20230101120000,12.5,45.5,0".to_owned(),
        "9,x,y,20230101120000,1.5,4.5,2".to_owned(),
    ];
    let ps = parse_file_lines(&lines).unwrap();
    assert_eq!(ps.len(), 2);
    assert_eq!(ps[0].id, 7);
    assert_eq!(ps[1].id, 9);
}

#[test]
fn file_parsing_reports_first_hard_error() {
    let lines = vec![
        "7,x,y,20230101120000,12.5,45.5,1".to_owned(),
        "7,x,y,bad,12.5,45.5,1".to_owned(),
        "seven,x,y,20230101120000,12.5,45.5,1".to_owned(),
    ];
    assert_eq!(parse_file_lines(&lines).unwrap_err(), LineError::BadTimestamp);
}

#[test]
fn output_file_name_is_id_dot_txt() {
    assert_eq!(output_file_name(7), "7.txt");
    assert_eq!(output_file_name(12345), "12345.txt");
}

#[test]
fn rendered_group_has_one_line_per_record() {
    let mut agg = Aggregator::new();
    agg.record(point(7, dt(2023, 1, 1, 12, 0, 0), "12.5", "45.5"));
    agg.record(point(7, dt(2022, 5, 5, 5, 5, 5), "10.0", "20.0"));
    let groups = sort_all(agg.into_groups());
    let text = render_group(&groups[0]);
    assert_eq!(text, "7,2022-05-05 05:05:05,10.0,20.0\n7,2023-01-01 12:00:00,12.5,45.5\n");
    assert_eq!(text.lines().count(), 2);
}

#[test]
fn two_roots_merge_into_one_sorted_file() {
    let root_a = vec!["7,x,y,20230101120000,12.5,45.5,1".to_owned()];
    let root_b = vec!["7,x,y,20220505050505,10.0,20.0,1".to_owned()];
    let mut agg = Aggregator::new();
    agg.record_all(parse_file_lines(&root_a).unwrap());
    agg.record_all(parse_file_lines(&root_b).unwrap());
    let groups = sort_all(agg.into_groups());
    assert_eq!(groups.len(), 1);
    assert_eq!(groups[0].id, 7);
    let text = render_group(&groups[0]);
    assert_eq!(text, "7,2022-05-05 05:05:05,10.0,20.0\n7,2023-01-01 12:00:00,12.5,45.5\n");
}

#[test]
fn sentinel_detected_after_trimming() {
    let r = parse_line("7,x,y,20230101120000, 0.0000000 ,45.5,1").unwrap();
    assert!(r.is_none());
}

#[test]
fn carriage_return_in_flag_is_hard_error() {
    let r = parse_line("7,x,y,20230101120000,12.5,45.5,1\r");
    assert_eq!(r.unwrap_err(), LineError::BadFlag);
}

#[test]
fn groups_keep_first_seen_order() {
    let mut agg = Aggregator::new();
    agg.record(point(9, dt(2023, 1, 1, 0, 0, 0), "1", "2"));
    agg.record(point(7, dt(2023, 1, 1, 0, 0, 0), "3", "4"));
    agg.record(point(9, dt(2023, 1, 2, 0, 0, 0), "5", "6"));
    let groups = sort_all(agg.into_groups());
    assert_eq!(groups[0].id, 9);
    assert_eq!(groups[1].id, 7);
}

#[test]
fn arrival_order_does_not_change_output() {
    let file_a = vec![
        "7,x,y,20230101120000,12.5,45.5,1".to_owned(),
        "7,x,y,20230101120000,1.0,9.0,1".to_owned(),
    ];
    let file_b = vec!["7,x,y,20220505050505,10.0,20.0,1".to_owned()];

    let mut first = Aggregator::new();
    first.record_all(parse_file_lines(&file_a).unwrap());
    first.record_all(parse_file_lines(&file_b).unwrap());
    let out_first = render_group(&sort_all(first.into_groups())[0]);

    let mut second = Aggregator::new();
    second.record_all(parse_file_lines(&file_b).unwrap());
    second.record_all(parse_file_lines(&file_a).unwrap());
    let out_second = render_group(&sort_all(second.into_groups())[0]);

    assert_eq!(out_first, out_second);
}
