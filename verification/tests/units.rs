use docx2txt::list::{LevelDef, ListState, NumFormat};
use docx2txt::numerals::{lower_letter, lower_roman, upper_letter, upper_roman};
use docx2txt::scrub::{remove_element, replace_attr_value, replace_timestamps, scrub_xml};
use docx2txt::strings::{decimal_string, parse_usize_str};
use docx2txt::tables::{bullet_char_map, lookup, special_chars_map};
use docx2txt::text::{convert_special_chars, justify, replace_literal};

fn level(format: NumFormat, text: &str, start: usize, indent: usize, left: usize) -> LevelDef {
    LevelDef { format, lvl_text: text.to_string(), start, indent_spaces: indent, left_twips: left }
}

#[test]
fn roman_numerals() {
    assert_eq!(lower_roman(0), "");
    assert_eq!(lower_roman(4), "iv");
    assert_eq!(lower_roman(1994), "mcmxciv");
    assert_eq!(upper_roman(2024), "MMXXIV");
    assert_eq!(upper_roman(3999), "MMMCMXCIX");
}

#[test]
fn letter_counters() {
    assert_eq!(lower_letter(1), "a");
    assert_eq!(lower_letter(26), "z");
    assert_eq!(lower_letter(27), "aa");
    assert_eq!(lower_letter(28), "bb");
    assert_eq!(upper_letter(53), "AAA");
}

#[test]
fn decimal_rendering() {
    assert_eq!(decimal_string(0), "0");
    assert_eq!(decimal_string(1234567), "1234567");
    assert_eq!(decimal_string(usize::MAX), usize::MAX.to_string());
}

#[test]
fn usize_parsing() {
    assert_eq!(parse_usize_str("42"), Some(42));
    assert_eq!(parse_usize_str("+7"), Some(7));
    assert_eq!(parse_usize_str(""), None);
    assert_eq!(parse_usize_str("+"), None);
    assert_eq!(parse_usize_str("-1"), None);
    assert_eq!(parse_usize_str("12a"), None);
    assert_eq!(parse_usize_str("99999999999999999999999"), None);
    assert_eq!(parse_usize_str(&usize::MAX.to_string()), Some(usize::MAX));
}

#[test]
fn special_characters() {
    assert_eq!(convert_special_chars("a\u{2026}b"), "a...b");
    assert_eq!(convert_special_chars("\u{00A0}\u{03C0}\u{2192}"), " PI-->");
    assert_eq!(convert_special_chars("plain é"), "plain é");
    assert_eq!(special_chars_map().len(), 59);
    assert_eq!(lookup(&special_chars_map(), '\u{20AC}'), Some("Euro"));
    assert_eq!(lookup(&bullet_char_map(), '\u{F0D8}'), Some(">"));
    assert_eq!(lookup(&bullet_char_map(), 'x'), None);
}

#[test]
fn justification() {
    assert_eq!(justify("center", "abc\n"), format!("{}abc\n", " ".repeat(38)));
    assert_eq!(justify("right", "abc\n"), format!("{}abc\n", " ".repeat(76)));
    assert_eq!(justify("left", "abc\n"), "abc\n");
    let long = "x".repeat(79);
    assert_eq!(justify("center", &long), long);
    assert_eq!(justify("right", &long), format!(" {}", long));
    // the width counts bytes, not characters
    let wide = "\u{00E9}".repeat(39);
    assert_eq!(justify("right", &wide), format!("  {}", wide));
}

#[test]
fn literal_replacement() {
    assert_eq!(replace_literal("a<w:tab/>b<w:tab/>", "<w:tab/>", "\t"), "a\tb\t");
    assert_eq!(replace_literal("aaa", "aa", "b"), "ba");
    assert_eq!(replace_literal("none", "x", "y"), "none");
}

#[test]
fn bullets_do_not_count() {
    let mut st = ListState::new();
    let b = level(NumFormat::Bullet, "\u{F0B7}", 1, 3, 720);
    assert_eq!(st.format_number(&b, "0:0"), "   * ");
    let unknown = level(NumFormat::Bullet, "?", 1, 0, 720);
    assert_eq!(st.format_number(&unknown, "0:0"), "oo ");
    let empty = level(NumFormat::Bullet, "", 1, 1, 720);
    assert_eq!(st.format_number(&empty, "0:0"), " oo ");
    let d = level(NumFormat::Decimal, "%1.", 1, 0, 720);
    assert_eq!(st.format_number(&d, "1:0"), "1. ");
}

#[test]
fn counters_restart_for_another_level() {
    let mut st = ListState::new();
    let d = level(NumFormat::Decimal, "%1.", 5, 2, 720);
    assert_eq!(st.format_number(&d, "1:0"), "  5. ");
    assert_eq!(st.format_number(&d, "1:0"), "  6. ");
    let r = level(NumFormat::LowerRoman, "(%1)", 1, 2, 720);
    assert_eq!(st.format_number(&r, "2:0"), "  (i) ");
    assert_eq!(st.format_number(&r, "2:0"), "  (ii) ");
}

#[test]
fn invalid_markers_are_refused() {
    let mut st = ListState::new();
    let zero_letter = level(NumFormat::LowerLetter, "%1)", 0, 0, 720);
    assert_eq!(st.try_format_number(&zero_letter, "1:0"), None);
    let mut st = ListState::new();
    let dangling = level(NumFormat::Decimal, "x%", 1, 0, 720);
    assert_eq!(st.try_format_number(&dangling, "1:0"), None);
    let mut st = ListState::new();
    let wide = level(NumFormat::Decimal, "%\u{00E9}", 1, 0, 720);
    assert_eq!(st.try_format_number(&wide, "1:0"), None);
    let mut st = ListState::new();
    let outer_only = level(NumFormat::Decimal, "%%1", 1, 0, 720);
    assert_eq!(st.try_format_number(&outer_only, "1:0"), Some("0 ".to_string()));
}

#[test]
fn element_removal() {
    let mut x = "a<dc:creator>Jane</dc:creator>b<dc:creator>John</dc:creator>c".to_string();
    remove_element(&mut x, "<dc:creator>", "</dc:creator>");
    assert_eq!(x, "abc");
    let mut y = "a<dc:creator>unterminated".to_string();
    remove_element(&mut y, "<dc:creator>", "</dc:creator>");
    assert_eq!(y, "a<dc:creator>unterminated");
}

#[test]
fn attribute_values() {
    let mut x = r#"<a w:author="Jane" w:author="John" other="x"/>"#.to_string();
    replace_attr_value(&mut x, "w:author", "");
    assert_eq!(x, r#"<a w:author="" w:author="" other="x"/>"#);
    let mut y = r#"<a siteId="abc"/>"#.to_string();
    replace_attr_value(&mut y, "siteId", "{0}");
    assert_eq!(y, r#"<a siteId="{0}"/>"#);
}

#[test]
fn timestamps() {
    let mut x = "d=2024-05-06T07:08:09Z; e=2024-05-06T07:08:09".to_string();
    replace_timestamps(&mut x);
    assert_eq!(x, "d=1970-01-01T00:00:00Z; e=2024-05-06T07:08:09");
}

#[test]
fn timestamps_in_non_ascii_text() {
    let mut x = String::from("\u{e9}abcdefghijklmnopqrst");
    replace_timestamps(&mut x);
    assert_eq!(x, "\u{e9}abcdefghijklmnopqrst");
    let mut y = String::from("\u{e9}\u{1F600} 2024-05-06T07:08:09Z \u{4E2D}");
    replace_timestamps(&mut y);
    assert_eq!(y, "\u{e9}\u{1F600} 1970-01-01T00:00:00Z \u{4E2D}");
}

#[test]
fn scrubbing() {
    let xml = r#"<cp:lastModifiedBy>Jane</cp:lastModifiedBy><w15:person w15:val="{1234}"/><w:c siteId="s" t="2020-01-02T03:04:05Z"/>"#;
    assert_eq!(
        scrub_xml(xml),
        r#"<w15:person w15:val="{00000000-0000-0000-0000-000000000000}"/><w:c siteId="{00000000-0000-0000-0000-000000000000}" t="1970-01-01T00:00:00Z"/>"#
    );
}

#[test]
fn letters_are_distinct() {
    let all: Vec<String> = (1..200).map(lower_letter).collect();
    for i in 0..all.len() {
        for j in (i + 1)..all.len() {
            assert_ne!(all[i], all[j]);
        }
    }
}

#[test]
fn decimal_reads_back() {
    for n in [0usize, 7, 10, 99, 1000, 123456789, usize::MAX] {
        assert_eq!(parse_usize_str(&decimal_string(n)), Some(n));
    }
}

#[test]
fn special_substitution_is_idempotent() {
    let once = convert_special_chars("\u{201C}x\u{201D} \u{00BD} \u{2192} plain");
    assert_eq!(once, "\"x\" (1/2) --> plain");
    assert_eq!(convert_special_chars(&once), once);
    assert_eq!(convert_special_chars("ASCII only <>&"), "ASCII only <>&");
}

#[test]
fn nesting_closes_deeper_levels() {
    let mut st = ListState::new();
    let outer = level(NumFormat::Decimal, "%1.", 1, 0, 720);
    let inner = level(NumFormat::LowerLetter, "%2)", 1, 4, 1440);
    assert_eq!(st.format_number(&outer, "0:0"), "1. ");
    assert_eq!(st.format_number(&inner, "0:1"), "    a) ");
    assert_eq!(st.format_number(&inner, "0:1"), "    b) ");
    assert_eq!(st.format_number(&outer, "0:0"), "2. ");
    assert_eq!(st.format_number(&inner, "0:1"), "    a) ");
}

#[test]
fn timestamps_keep_length() {
    let mut x = "0000-00-00T00:00:00Z9999-12-31T23:59:59Z".to_string();
    let before = x.chars().count();
    replace_timestamps(&mut x);
    assert_eq!(x.chars().count(), before);
    assert_eq!(x, "1970-01-01T00:00:00Z1970-01-01T00:00:00Z");
}

#[test]
fn attribute_replacement_is_idempotent() {
    let mut x = r#"<a w:author="Jane" b="1"/><c w:author="J\u{00F6}rg"/><d w:author=open"#.to_string();
    replace_attr_value(&mut x, "w:author", "");
    let once = x.clone();
    assert_eq!(once, r#"<a w:author="" b="1"/><c w:author=""/><d w:author=open"#);
    replace_attr_value(&mut x, "w:author", "");
    assert_eq!(x, once);
    let mut y = r#"<p siteId="abc" siteId="{x}"/>"#.to_string();
    replace_attr_value(&mut y, "siteId", "{0}");
    let first = y.clone();
    replace_attr_value(&mut y, "siteId", "{0}");
    assert_eq!(y, first);
}

#[test]
fn timestamp_replacement_is_idempotent() {
    let mut x = "a2024-05-06T07:08:09Z1999-12-31T23:59:59Zb 2024-05-06 07:08:09Z".to_string();
    replace_timestamps(&mut x);
    let once = x.clone();
    assert_eq!(once, "a1970-01-01T00:00:00Z1970-01-01T00:00:00Zb 2024-05-06 07:08:09Z");
    replace_timestamps(&mut x);
    assert_eq!(x, once);
}

#[test]
fn roman_thousands_come_first() {
    for n in [0usize, 1, 999, 1000, 1994, 3999, 12345] {
        let expected = format!("{}{}", "m".repeat(n / 1000), lower_roman(n % 1000));
        assert_eq!(lower_roman(n), expected);
        assert_eq!(lower_roman(n).is_empty(), n == 0);
    }
    assert_eq!(lower_roman(12345), "mmmmmmmmmmmmcccxlv");
}

#[test]
fn shallower_level_reopens_after_deeper_ones() {
    let mut st = ListState::new();
    let l0 = level(NumFormat::Decimal, "%1.", 1, 0, 720);
    let l1 = level(NumFormat::LowerRoman, "%2.", 1, 2, 1440);
    let l2 = level(NumFormat::UpperLetter, "%3.", 1, 4, 2160);
    let mid = level(NumFormat::Decimal, "%2)", 5, 2, 1000);
    assert_eq!(st.format_number(&l0, "0:0"), "1. ");
    assert_eq!(st.format_number(&l1, "0:1"), "  i. ");
    assert_eq!(st.format_number(&l2, "0:2"), "    A. ");
    assert_eq!(st.format_number(&mid, "9:1"), "  5) ");
    assert_eq!(st.format_number(&l1, "0:1"), "  i. ");
    assert_eq!(st.format_number(&l0, "0:0"), "2. ");
}

#[test]
fn timestamp_changes_stay_in_their_windows() {
    let before = "x2024-05-06T07:08:09Zy 12345-06-07T08:09:10Zq".to_string();
    let mut after = before.clone();
    replace_timestamps(&mut after);
    assert_eq!(after, "x1970-01-01T00:00:00Zy 11970-01-01T00:00:00Zq");
    let b: Vec<char> = before.chars().collect();
    let a: Vec<char> = after.chars().collect();
    for i in 0..b.len() {
        if a[i] != b[i] {
            assert!((1..21).contains(&i) || (24..44).contains(&i));
        }
    }
}
