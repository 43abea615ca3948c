use chrono::TimeZone;
use iss_notify::dates::{parse_datetime, DateParts};
use iss_notify::feed::{map_to_sighting, parse, parse_duration, parse_elevation,
    parse_skylocation, ParseError};

fn bytes(s: &str) -> Vec<u8> {
    s.as_bytes().to_vec()
}

fn pairs(kvs: &[(&str, &str)]) -> Vec<(Vec<u8>, Vec<u8>)> {
    let mut out = Vec::new();
    for (k, v) in kvs {
        out.push((bytes(k), bytes(v)));
    }
    out
}

fn la_timestamp(y: i32, mo: u32, d: u32, h: u32, mi: u32) -> i64 {
    chrono_tz::America::Los_Angeles
        .with_ymd_and_hms(y, mo, d, h, mi, 0)
        .single()
        .expect("fixture time should be unambiguous")
        .timestamp()
}

fn full_pairs() -> Vec<(Vec<u8>, Vec<u8>)> {
    pairs(&[
        ("Date", "Friday Jan 03, 2025"),
        ("Time", "9:45 PM"),
        ("Approach", "10° above NW"),
        ("Departure", "45° above NE"),
        ("Duration", "6 minutes"),
        ("Maximum Elevation", "52°"),
    ])
}

#[test]
fn skylocation_parses_degrees_and_direction() {
    let sk = parse_skylocation(&bytes("10° above NW")).unwrap();
    assert_eq!(sk.direction, "NW");
    assert_eq!(sk.elevation, 10);
}

#[test]
fn skylocation_rejects_out_of_range_elevation() {
    assert!(parse_skylocation(&bytes("91° above NW")).is_none());
}

#[test]
fn skylocation_rejects_unknown_direction() {
    assert!(parse_skylocation(&bytes("10° above NNNW")).is_none());
    assert!(parse_skylocation(&bytes("10° above Q")).is_none());
}

#[test]
fn duration_is_found_inside_the_text() {
    assert_eq!(parse_duration(&bytes("6 minutes")), Some(6));
    assert_eq!(parse_duration(&bytes("about 12 minutes or so")), Some(12));
    assert_eq!(parse_duration(&bytes("six minutes")), None);
}

#[test]
fn elevation_strips_degree_signs() {
    assert_eq!(parse_elevation(&bytes("52°")), Some(52));
    assert_eq!(parse_elevation(&bytes("90°°")), Some(90));
    assert_eq!(parse_elevation(&bytes("+7°")), Some(7));
    assert_eq!(parse_elevation(&bytes("91°")), None);
    assert_eq!(parse_elevation(&bytes("-5°")), None);
    assert_eq!(parse_elevation(&bytes("high°")), None);
}

#[test]
fn datetime_parses_the_feed_format() {
    let p = parse_datetime(&bytes("Friday Jan 03, 2025 9:45 PM")).unwrap();
    assert_eq!(p, DateParts { year: 2025, month: 1, day: 3, hour24: 21, minute: 45 });
}

#[test]
fn datetime_handles_noon_and_midnight() {
    let p = parse_datetime(&bytes("Wednesday Jan 01, 2025 12:00 AM")).unwrap();
    assert_eq!(p.hour24, 0);
    let p = parse_datetime(&bytes("Friday Jan 3, 2025 12:15 PM")).unwrap();
    assert_eq!(p.hour24, 12);
    assert_eq!(p.day, 3);
}

#[test]
fn datetime_accepts_space_padded_hour() {
    // A single-digit hour is space-padded, leaving two spaces after the year.
    let p = parse_datetime(&bytes("Friday Jan 03, 2025  9:45 PM")).unwrap();
    assert_eq!(p, DateParts { year: 2025, month: 1, day: 3, hour24: 21, minute: 45 });
}

#[test]
fn sighting_accepts_space_padded_time_value() {
    let mut kvs = full_pairs();
    kvs[1].1 = bytes(" 9:45 PM");
    let s = map_to_sighting(&kvs).unwrap();
    assert_eq!(s.datetime, la_timestamp(2025, 1, 3, 21, 45));
}

#[test]
fn datetime_rejects_wrong_weekday() {
    assert!(parse_datetime(&bytes("Thursday Jan 03, 2025 9:45 PM")).is_none());
}

#[test]
fn datetime_rejects_invalid_calendar_day() {
    assert!(parse_datetime(&bytes("Sunday Feb 30, 2025 9:45 PM")).is_none());
}

#[test]
fn sighting_round_trips_description_values() {
    let s = map_to_sighting(&full_pairs()).unwrap();
    assert_eq!(s.datetime, la_timestamp(2025, 1, 3, 21, 45));
    assert_eq!(s.approach.direction, "NW");
    assert_eq!(s.approach.elevation, 10);
    assert_eq!(s.departure.direction, "NE");
    assert_eq!(s.departure.elevation, 45);
    assert_eq!(s.duration, 6);
    assert_eq!(s.max_elevation, 52);
}

#[test]
fn missing_required_key_is_reported() {
    let mut kvs = full_pairs();
    kvs.retain(|p| p.0 != bytes("Duration"));
    assert_eq!(map_to_sighting(&kvs).unwrap_err(), ParseError::MissingField);
}

#[test]
fn inconsistent_weekday_is_a_timestamp_error() {
    let mut kvs = full_pairs();
    kvs[0].1 = bytes("Thursday Jan 03, 2025");
    assert_eq!(map_to_sighting(&kvs).unwrap_err(), ParseError::BadTimestamp);
}

#[test]
fn approach_elevation_above_ninety_is_a_skylocation_error() {
    let mut kvs = full_pairs();
    kvs[2].1 = bytes("91° above NW");
    assert_eq!(map_to_sighting(&kvs).unwrap_err(), ParseError::BadSkyLocation);
}

#[test]
fn departure_elevation_above_ninety_is_a_skylocation_error() {
    let mut kvs = full_pairs();
    kvs[3].1 = bytes("120° above NE");
    assert_eq!(map_to_sighting(&kvs).unwrap_err(), ParseError::BadSkyLocation);
}

#[test]
fn bad_duration_is_reported() {
    let mut kvs = full_pairs();
    kvs[4].1 = bytes("a little while");
    assert_eq!(map_to_sighting(&kvs).unwrap_err(), ParseError::BadDuration);
}

#[test]
fn max_elevation_out_of_range_is_an_elevation_error() {
    let mut kvs = full_pairs();
    kvs[5].1 = bytes("95°");
    assert_eq!(map_to_sighting(&kvs).unwrap_err(), ParseError::BadElevation);
    kvs[5].1 = bytes("-5°");
    assert_eq!(map_to_sighting(&kvs).unwrap_err(), ParseError::BadElevation);
}

#[test]
fn repeated_keys_take_the_last_value() {
    let mut kvs = full_pairs();
    kvs.push((bytes("Duration"), bytes("9 minutes")));
    let s = map_to_sighting(&kvs).unwrap();
    assert_eq!(s.duration, 9);
}

fn item(title: &str, desc_lines: &[(&str, &str)]) -> String {
    let mut desc = String::new();
    for (i, (k, v)) in desc_lines.iter().enumerate() {
        if i > 0 {
            desc.push('\n');
        }
        desc.push('\t');
        desc.push_str(k);
        desc.push_str(": ");
        desc.push_str(v);
        desc.push_str(" &lt;br/&gt;");
    }
    format!(
        "<item><title>{}</title><description>{}</description></item>",
        title, desc
    )
}

fn feed_doc(items: &[String]) -> Vec<u8> {
    let mut doc = String::from(
        "<rss version=\"2.0\"><channel><title>Sightings</title>\
         <link>http://example.invalid/</link><description>upcoming</description>",
    );
    for it in items {
        doc.push_str(it);
    }
    doc.push_str("</channel></rss>");
    doc.into_bytes()
}

fn entry(date: &str, time: &str, approach: &str) -> String {
    item(
        "ISS Sighting",
        &[
            ("Date", date),
            ("Time", time),
            ("Approach", approach),
            ("Departure", "45° above NE"),
            ("Duration", "6 minutes"),
            ("Maximum Elevation", "52°"),
        ],
    )
}

#[test]
fn garbage_bytes_are_a_document_error() {
    assert_eq!(parse(&bytes("not a feed")).unwrap_err(), ParseError::BadDocument);
}

#[test]
fn unrelated_items_are_filtered_out() {
    let doc = feed_doc(&[item("Launch news", &[("Date", "whenever")])]);
    let v = parse(&doc).unwrap();
    assert_eq!(v.len(), 0);
}

#[test]
fn parse_extracts_a_qualifying_entry() {
    let doc = feed_doc(&[
        item("Launch news", &[("Date", "whenever")]),
        entry("Friday Jan 03, 2025", "9:45 PM", "10° above NW"),
    ]);
    let v = parse(&doc).unwrap();
    assert_eq!(v.len(), 1);
    assert_eq!(v[0].datetime, la_timestamp(2025, 1, 3, 21, 45));
    assert_eq!(v[0].approach.direction, "NW");
    assert_eq!(v[0].max_elevation, 52);
}

#[test]
fn parse_sorts_by_time() {
    let doc = feed_doc(&[
        entry("Saturday Jan 04, 2025", "6:30 AM", "10° above NW"),
        entry("Friday Jan 03, 2025", "9:45 PM", "20° above SW"),
    ]);
    let v = parse(&doc).unwrap();
    assert_eq!(v.len(), 2);
    assert!(v[0].datetime < v[1].datetime);
    assert_eq!(v[0].approach.direction, "SW");
    assert_eq!(v[1].approach.direction, "NW");
}

#[test]
fn parse_keeps_feed_order_on_equal_times() {
    let doc = feed_doc(&[
        entry("Friday Jan 03, 2025", "9:45 PM", "20° above SW"),
        entry("Friday Jan 03, 2025", "9:45 PM", "10° above NW"),
        entry("Friday Jan 03, 2025", "6:00 AM", "5° above N"),
    ]);
    let v = parse(&doc).unwrap();
    assert_eq!(v.len(), 3);
    assert_eq!(v[0].approach.direction, "N");
    assert_eq!(v[1].approach.direction, "SW");
    assert_eq!(v[2].approach.direction, "NW");
}

#[test]
fn all_sixteen_compass_points_are_accepted() {
    let names = [
        "N", "NNE", "NE", "ENE", "E", "ESE", "SE", "SSE", "S", "SSW", "SW", "WSW", "W", "WNW",
        "NW", "NNW",
    ];
    for name in names {
        let text = format!("10° above {}", name);
        let sk = parse_skylocation(&bytes(&text)).unwrap();
        assert_eq!(sk.direction, name);
    }
}

#[test]
fn zero_duration_and_zero_elevation_are_valid() {
    assert_eq!(parse_duration(&bytes("0 minutes")), Some(0));
    assert_eq!(parse_elevation(&bytes("0°")), Some(0));
}

#[test]
fn item_without_title_is_filtered_out() {
    let doc = feed_doc(&[String::from(
        "<item><description>\tDate: whenever &lt;br/&gt;</description></item>",
    )]);
    let v = parse(&doc).unwrap();
    assert_eq!(v.len(), 0);
}

#[test]
fn qualifying_item_without_description_lacks_every_key() {
    let doc = feed_doc(&[String::from("<item><title>ISS Sighting</title></item>")]);
    assert_eq!(parse(&doc).unwrap_err(), ParseError::MissingField);
}

#[test]
fn parse_reports_the_failing_entry_error() {
    let doc = feed_doc(&[entry("Friday Jan 03, 2025", "9:45 PM", "95° above NW")]);
    assert_eq!(parse(&doc).unwrap_err(), ParseError::BadSkyLocation);
}
