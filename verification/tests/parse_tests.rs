use subclean::srt::{Subtitle, TimePoint};
use subclean::text::normalize_input;

#[test]
fn round_trip_two_blocks() {
    let input =
        "1\n00:00:01,000 --> 00:00:02,500\nHello there\n\n2\n00:01:00,000 --> 00:01:02,000\nSecond\nblock\n\n";
    let sub = Subtitle::parse(input).unwrap();
    assert_eq!(2, sub.blocks.len());
    assert_eq!(input, sub.to_text());
}

#[test]
fn ordinals_are_renumbered_on_output() {
    let input = "7\n00:00:01,000 --> 00:00:02,000\nA\n\n99\n00:00:03,000 --> 00:00:04,000\nB\n\n";
    let sub = Subtitle::parse(input).unwrap();
    let out = sub.to_text();
    assert_eq!("1\n00:00:01,000 --> 00:00:02,000\nA\n\n2\n00:00:03,000 --> 00:00:04,000\nB\n\n", out);
}

#[test]
fn time_components_fold_into_milliseconds() {
    let t = TimePoint::from_components(1, 2, 3, 4);
    assert_eq!(3_723_004, t.total_ms());
    assert_eq!("01:02:03,004", t.to_text());
}

#[test]
fn out_of_range_components_are_accepted() {
    let t = TimePoint::from_components(0, 90, 0, 0);
    assert_eq!(5_400_000, t.total_ms());
    assert_eq!("01:30:00,000", t.to_text());
}

#[test]
fn hours_wrap_at_sixty_in_display() {
    let t = TimePoint::from_components(61, 2, 3, 4);
    assert_eq!("01:02:03,004", t.to_text());
}

#[test]
fn leading_whitespace_and_bom_are_skipped() {
    let input = "  \u{feff}1\n00:00:00,000 --> 00:00:00,001\nX\n\n";
    let sub = Subtitle::parse(input).unwrap();
    assert_eq!(1, sub.blocks.len());
    assert_eq!("X", sub.blocks[0].text);
}

#[test]
fn malformed_time_line_fails_with_excerpt() {
    let input = "1\n00:00:01,000 00:00:02,000\nText\n\n";
    let err = Subtitle::parse(input).unwrap_err();
    assert_eq!(" 00:00:02,000\nText\n\n", err.excerpt);
}

#[test]
fn short_excerpt_is_whole_remainder() {
    let input = "1\nbad\n\n";
    let err = Subtitle::parse(input).unwrap_err();
    assert_eq!("bad\n\n", err.excerpt);
}

#[test]
fn trailing_garbage_fails() {
    let input = "1\n00:00:01,000 --> 00:00:02,000\nText\n\ngarbage";
    assert!(Subtitle::parse(input).is_err());
}

#[test]
fn overlong_ordinal_fails() {
    let input = "99999999999999999999\n00:00:01,000 --> 00:00:02,000\nText\n\n";
    let err = Subtitle::parse(input).unwrap_err();
    assert_eq!("99999999999999999999", err.excerpt);
}

#[test]
fn overflowing_time_fold_fails() {
    let input = "1\n99999999999999:00:00,000 --> 00:00:00,000\nX\n\n";
    assert!(Subtitle::parse(input).is_err());
}

#[test]
fn missing_blank_line_terminator_fails() {
    let input = "1\n00:00:01,000 --> 00:00:02,000\nText\n";
    assert!(Subtitle::parse(input).is_err());
}

#[test]
fn empty_input_parses_to_empty_document() {
    let sub = Subtitle::parse("").unwrap();
    assert_eq!(0, sub.blocks.len());
    assert_eq!("", sub.to_text());
}

#[test]
fn block_renders_without_ordinal() {
    let input = "3\n00:00:01,000 --> 00:00:02,000\nHi\nthere\n\n";
    let sub = Subtitle::parse(input).unwrap();
    assert_eq!("00:00:01,000 --> 00:00:02,000\nHi\nthere", sub.blocks[0].to_text());
}

#[test]
fn normalize_trims_appends_and_rewrites_line_breaks() {
    assert_eq!("a\nb\n\n", normalize_input("  a\r\nb  "));
    assert_eq!("\n\n", normalize_input(" \t\r\n "));
    let raw = "1\r\n00:00:01,000 --> 00:00:02,000\r\nHi\r\n\r\nextra trailing\r\n";
    let normalized = normalize_input(raw);
    assert!(normalized.ends_with("\n\n"));
    assert!(!normalized.contains('\r'));
}
