use hooddl::decimal::{parse_u64, render_u64, ParseU64Error};
use hooddl::filename::{
    choose_filename, filename_from_disposition, filename_from_url, sanitize_filename,
};
use hooddl::plan::parse_content_length;

fn chars(s: &str) -> Vec<char> {
    s.chars().collect()
}

#[test]
fn render_gives_decimal_digits() {
    assert_eq!(render_u64(0), chars("0"));
    assert_eq!(render_u64(105), chars("105"));
    assert_eq!(render_u64(u64::MAX), chars("18446744073709551615"));
}

#[test]
fn parse_follows_from_str_rules() {
    assert_eq!(parse_u64(&chars("42")), Ok(42));
    assert_eq!(parse_u64(&chars("+42")), Ok(42));
    assert_eq!(parse_u64(&chars("007")), Ok(7));
    assert_eq!(parse_u64(&chars("")), Err(ParseU64Error::Empty));
    assert_eq!(parse_u64(&chars("+")), Err(ParseU64Error::InvalidDigit));
    assert_eq!(parse_u64(&chars("-")), Err(ParseU64Error::InvalidDigit));
    assert_eq!(parse_u64(&chars("-1")), Err(ParseU64Error::InvalidDigit));
    assert_eq!(parse_u64(&chars("1 2")), Err(ParseU64Error::InvalidDigit));
    assert_eq!(parse_u64(&chars("18446744073709551616")), Err(ParseU64Error::PosOverflow));
    // the first problem met from the left decides
    assert_eq!(parse_u64(&chars("99999999999999999999x")), Err(ParseU64Error::PosOverflow));
    assert_eq!(parse_u64(&chars("9x9999999999999999999")), Err(ParseU64Error::InvalidDigit));
}

#[test]
fn parse_agrees_with_std() {
    for s in ["", "+", "-", "0", "+0", "-0", "12a", "18446744073709551615", "18446744073709551616", " 1", "١"] {
        let ours = parse_u64(&chars(s));
        let std = s.parse::<u64>();
        match (ours, std) {
            (Ok(a), Ok(b)) => assert_eq!(a, b),
            (Err(e), Err(f)) => assert_eq!(e.message(), f.to_string()),
            (a, b) => panic!("disagree on {:?}: {:?} vs {:?}", s, a, b),
        }
    }
}

#[test]
fn content_length_is_parsed() {
    assert_eq!(parse_content_length("1048576"), Ok(1048576));
    assert_eq!(parse_content_length("abc"), Err(ParseU64Error::InvalidDigit));
}

#[test]
fn sanitize_replaces_path_separators() {
    assert_eq!(sanitize_filename("a/b\\c.txt"), "a_b_c.txt");
    assert_eq!(sanitize_filename("plain.zip"), "plain.zip");
}

#[test]
fn url_name_is_last_piece_before_query() {
    assert_eq!(filename_from_url("https://example.com/files/archive.tar.gz?token=1/2"), "2");
    assert_eq!(filename_from_url("https://example.com/files/archive.tar.gz?token=1"), "archive.tar.gz");
    assert_eq!(filename_from_url("https://example.com/"), "");
    assert_eq!(filename_from_url("nofolder"), "nofolder");
}

#[test]
fn disposition_name_is_found_and_made_safe() {
    assert_eq!(
        filename_from_disposition("attachment; filename=\"../etc/passwd\""),
        Some(".._etc_passwd".to_string())
    );
    assert_eq!(filename_from_disposition("attachment; filename=report.pdf"), Some("report.pdf".to_string()));
    assert_eq!(filename_from_disposition("attachment; filename='a b.txt'"), Some("a b.txt".to_string()));
    assert_eq!(filename_from_disposition("inline"), None);
    // a quote right after another quote does not start a name; a later `filename=` does
    assert_eq!(
        filename_from_disposition("attachment; filename='\"x\"; filename=b.bin"),
        Some("b.bin".to_string())
    );
    assert_eq!(filename_from_disposition("attachment; filename="), None);
    assert_eq!(filename_from_disposition("attachment; filename=\""), None);
    assert_eq!(filename_from_disposition("filename=a\"b"), Some("a".to_string()));
}

#[test]
fn chosen_name_prefers_disposition() {
    let d = choose_filename(Some("attachment; filename=\"x.iso\""), "https://h/y.iso");
    assert_eq!(d.name, "x.iso");
    assert!(d.from_disposition);
    let u = choose_filename(Some("inline"), "https://h/y.iso?a=b");
    assert_eq!(u.name, "y.iso");
    assert!(!u.from_disposition);
    let n = choose_filename(None, "https://h/z");
    assert_eq!(n.name, "z");
    assert!(!n.from_disposition);
}
