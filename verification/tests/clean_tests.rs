use subclean::clean::clean_subtitle;
use subclean::srt::{SubBlock, Subtitle, TimePoint};

fn map(s: &str) -> Option<String> {
    let mut sub = Subtitle {
        blocks: vec![SubBlock {
            start: TimePoint::from_components(0, 0, 0, 0),
            end: TimePoint::from_components(0, 0, 0, 0),
            text: s.to_string(),
        }],
    };

    clean_subtitle(&mut sub);

    match sub.blocks.len() {
        0 => None,
        1 => Some(sub.blocks.pop().unwrap().text),
        _ => panic!("Created an extra block, unexpected"),
    }
}

fn assert_unchanged(s: &str) {
    assert_eq!(Some(s), map(s).as_deref())
}

#[test]
fn time() {
    assert_unchanged("We'll meet at 10:00");
}

#[test]
fn speaker() {
    assert_eq!(Some("Nice"), map("DAVE 5: Nice").as_deref())
}

#[test]
fn speaker_html() {
    assert_eq!(None, map("<color>MAN</color>:").as_deref())
}

#[test]
fn speaker_wonky_digit() {
    assert_eq!(Some("Message"), map("-CH1lD: Message").as_deref())
}

#[test]
fn music_marker_pair_removed() {
    assert_eq!(Some("abc  def"), map("abc \u{266a}noise\u{266a} def").as_deref())
}

#[test]
fn lone_music_marker_vanishes() {
    assert_eq!(None, map("\u{266a}").as_deref())
}

#[test]
fn bracketed_direction_vanishes() {
    assert_eq!(None, map("[door slams]").as_deref())
}

#[test]
fn parenthetical_stripped_and_lines_trimmed() {
    assert_eq!(Some("Hello"), map("Hello\n(whispering)").as_deref())
}

#[test]
fn attribution_footer_removed() {
    assert_eq!(
        Some("Bye"),
        map("Bye\nSubtitles downloaded from www.OpenSubtitles.org").as_deref()
    )
}

#[test]
fn leading_dash_stripped() {
    assert_eq!(Some("yes\nno"), map("- yes\n- no").as_deref())
}

#[test]
fn cleaning_is_idempotent() {
    let input = "1\n00:00:01,000 --> 00:00:02,000\n- DAVE: Hi [loud]\n\n2\n00:00:03,000 --> 00:00:04,000\n\u{266a}ominous hum\u{266a}\n\n";
    let mut once = Subtitle::parse(input).unwrap();
    clean_subtitle(&mut once);
    let after_once = once.to_text();
    let count_once = once.blocks.len();
    clean_subtitle(&mut once);
    assert_eq!(count_once, once.blocks.len());
    assert_eq!(after_once, once.to_text());
}

#[test]
fn empty_block_vanishes_and_rest_renumbers() {
    let input = "1\n00:00:01,000 --> 00:00:02,000\nKeep me\n\n2\n00:00:03,000 --> 00:00:04,000\n[door slams]\n\n";
    let mut sub = Subtitle::parse(input).unwrap();
    assert_eq!(2, sub.blocks.len());
    clean_subtitle(&mut sub);
    assert_eq!(1, sub.blocks.len());
    assert_eq!("1\n00:00:01,000 --> 00:00:02,000\nKeep me\n\n", sub.to_text());
}
