use site::date::{parse_date, format_date, Date};
use site::frontmatter::{
    split_frontmatter, decode_frontmatter, encode_frontmatter, Frontmatter, HeaderFault,
};

#[test]
fn split_two_markers_gives_clean_body() {
    let text = "---\ntitle: A\n---\n\nBody text here";
    let (header, body) = split_frontmatter(text).expect("should split");
    assert_eq!(header, "\ntitle: A\n");
    assert_eq!(body, "Body text here");
}

#[test]
fn split_zero_markers_fails() {
    assert!(split_frontmatter("no markers at all").is_none());
}

#[test]
fn split_one_marker_fails() {
    assert!(split_frontmatter("---\ntitle: A\n").is_none());
}

#[test]
fn split_requires_opening_marker_at_start() {
    assert!(split_frontmatter("x---\ntitle: A\n---\nbody").is_none());
}

#[test]
fn decode_full_header() {
    let fm = decode_frontmatter("\ntitle: Hello\ndate: 05-03-2023\narchived: false\ntags: [a, b]\n")
        .expect("should decode");
    assert_eq!(fm.title, "Hello");
    assert_eq!(fm.date, Date { day: 5, month: 3, year: 2023 });
    assert!(!fm.archived);
    assert_eq!(fm.tags, vec!["a".to_string(), "b".to_string()]);
}

#[test]
fn decode_empty_tags() {
    let fm = decode_frontmatter("title: T\ndate: 01-01-2020\narchived: true\ntags: []")
        .expect("should decode");
    assert!(fm.archived);
    assert!(fm.tags.is_empty());
}

#[test]
fn decode_ignores_unknown_keys() {
    let fm = decode_frontmatter("title: T\ndate: 01-01-2020\narchived: false\ntags: []\nauthor: me")
        .expect("should decode");
    assert_eq!(fm.title, "T");
}

#[test]
fn decode_missing_field_fails() {
    let r = decode_frontmatter("title: T\ndate: 01-01-2020\narchived: false");
    assert_eq!(r.unwrap_err(), HeaderFault::MissingField);
}

#[test]
fn decode_empty_title_fails() {
    let r = decode_frontmatter("title: \ndate: 01-01-2020\narchived: false\ntags: []");
    assert_eq!(r.unwrap_err(), HeaderFault::EmptyTitle);
}

#[test]
fn decode_bad_date_fails() {
    let r = decode_frontmatter("title: T\ndate: 2020-01-01\narchived: false\ntags: []");
    assert_eq!(r.unwrap_err(), HeaderFault::BadDate);
}

#[test]
fn decode_impossible_date_fails() {
    let r = decode_frontmatter("title: T\ndate: 31-02-2021\narchived: false\ntags: []");
    assert_eq!(r.unwrap_err(), HeaderFault::BadDate);
}

#[test]
fn decode_bad_flag_fails() {
    let r = decode_frontmatter("title: T\ndate: 01-01-2020\narchived: maybe\ntags: []");
    assert_eq!(r.unwrap_err(), HeaderFault::BadFlag);
}

#[test]
fn decode_bad_tags_fails() {
    let r = decode_frontmatter("title: T\ndate: 01-01-2020\narchived: false\ntags: a, b");
    assert_eq!(r.unwrap_err(), HeaderFault::BadTags);
}

#[test]
fn decode_duplicate_key_fails() {
    let r = decode_frontmatter("title: T\ntitle: U\ndate: 01-01-2020\narchived: false\ntags: []");
    assert_eq!(r.unwrap_err(), HeaderFault::DuplicateKey);
}

#[test]
fn decode_line_without_separator_fails() {
    let r = decode_frontmatter("title\ndate: 01-01-2020\narchived: false\ntags: []");
    assert_eq!(r.unwrap_err(), HeaderFault::Syntax);
}

#[test]
fn encode_decode_round_trips_all_fields() {
    let fm = Frontmatter {
        title: "A post: with punctuation".to_string(),
        date: Date { day: 9, month: 12, year: 2022 },
        archived: true,
        tags: vec!["rust".to_string(), "web dev".to_string()],
    };
    let encoded = encode_frontmatter(&fm);
    let decoded = decode_frontmatter(&encoded).expect("canonical form should decode");
    assert_eq!(decoded, fm);
}

#[test]
fn encode_decode_round_trips_empty_tags() {
    let fm = Frontmatter {
        title: "T".to_string(),
        date: Date { day: 29, month: 2, year: 2024 },
        archived: false,
        tags: vec![],
    };
    let decoded = decode_frontmatter(&encode_frontmatter(&fm)).expect("should decode");
    assert_eq!(decoded, fm);
}

#[test]
fn parse_date_accepts_leap_day() {
    assert_eq!(parse_date("29-02-2024"), Some(Date { day: 29, month: 2, year: 2024 }));
}

#[test]
fn parse_date_rejects_non_leap_day() {
    assert_eq!(parse_date("29-02-2023"), None);
}

#[test]
fn parse_date_rejects_wrong_shape() {
    assert_eq!(parse_date("1-1-2023"), None);
    assert_eq!(parse_date("01/01/2023"), None);
    assert_eq!(parse_date(""), None);
}

#[test]
fn format_date_zero_pads() {
    let d = Date { day: 5, month: 3, year: 987 };
    assert_eq!(format_date(&d), "05-03-0987");
}

#[test]
fn format_then_parse_date_round_trips() {
    let d = Date { day: 31, month: 12, year: 1999 };
    assert_eq!(parse_date(&format_date(&d)), Some(d));
}
