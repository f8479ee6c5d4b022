use docx2txt::captures::{replace_all_str, replace_first_str};
use docx2txt::convert::{convert_parts, ConvertError};
use docx2txt::list::NumFormat;
use docx2txt::ooxml::{
    decode_entities, lookup_pair, parse_numbering, parse_or_default, parse_rels, process_hyperlink,
    process_paragraph, to_ascii_lower,
};
use docx2txt::strip::{ends_with_text, is_stripped_part_name, is_xml_part_name, strip_entry, StripError};
use docx2txt::text::{same_text, space_string};

#[test]
fn entities_are_decoded_once_in_any_case() {
    assert_eq!(decode_entities("a &amp;lt; b").unwrap(), "a &lt; b");
    assert_eq!(decode_entities("&AMP;&Lt;&GT;&QUOT;&Apos;").unwrap(), "&<>\"'");
    assert_eq!(decode_entities("&nbsp; stays").unwrap(), "&nbsp; stays");
    assert_eq!(to_ascii_lower("QuOt-É"), "quot-É");
}

#[test]
fn paragraph_text_and_alignment() {
    assert_eq!(process_paragraph("<w:r><w:t>hi</w:t></w:r>").unwrap(), "hi\n");
    assert_eq!(
        process_paragraph(r#"<w:pPr><w:jc w:val="right"/></w:pPr><w:t>hi</w:t>"#).unwrap(),
        format!("{}hi\n", " ".repeat(77))
    );
    assert_eq!(process_paragraph(r#"<w:jc w:val="both"/>x"#).unwrap(), "x\n");
}

#[test]
fn hyperlinks_become_their_text() {
    let rels = parse_rels(r#"<Relationship Id="rId5" Type="http://x/relationships/hyperlink" Target="https://a.b" TargetMode="External"/>"#).unwrap();
    assert_eq!(rels, vec![("hyperlink:rId5".to_string(), "https://a.b".to_string())]);
    assert_eq!(lookup_pair(&rels, "hyperlink:rId5"), Some(&"https://a.b".to_string()));
    assert_eq!(lookup_pair(&rels, "hyperlink:rId6"), None);
    assert_eq!(process_hyperlink("rId5", "<w:r><w:t>link</w:t></w:r>", &rels).unwrap(), "link");
}

#[test]
fn later_relationships_win() {
    let rels = parse_rels(concat_rels().as_str()).unwrap();
    assert_eq!(lookup_pair(&rels, "image:rId1"), Some(&"second".to_string()));
}

fn concat_rels() -> String {
    [
        r#"<Relationship Id="rId1" Type="http://x/image" Target="first"/>"#,
        r#"<Relationship Id="rId1" Type="http://x/image" Target="second"/>"#,
    ]
    .concat()
}

#[test]
fn numbering_definitions() {
    let xml = [
        r#"<w:abstractNum w:abstractNumId="2"><w:lvl w:ilvl="0"><w:start w:val="3"/><w:numFmt w:val="upperLetter"/><w:lvlText w:val="%1."/><w:ind w:left="1440" w:hanging="720"/></w:lvl>"#,
        r#"<w:lvl w:ilvl="1"><w:start w:val="1"/><w:numFmt w:val="ordinal"/><w:lvlText w:val="%2"/><w:ind w:left="100" w:hanging="0"/></w:lvl></w:abstractNum>"#,
        r#"<w:num w:numId="9"><w:abstractNumId w:val="2"/></w:num>"#,
    ]
    .concat();
    let (levels, nums) = parse_numbering(&xml).unwrap();
    assert_eq!(levels.len(), 1);
    assert_eq!(levels[0].0, (2, 0));
    assert_eq!(levels[0].1.format, NumFormat::UpperLetter);
    assert_eq!(levels[0].1.lvl_text, "%1.");
    assert_eq!(levels[0].1.start, 3);
    assert_eq!(levels[0].1.indent_spaces, 6);
    assert_eq!(levels[0].1.left_twips, 1440);
    assert_eq!(nums, vec![(9, 2)]);
}

#[test]
fn indentation_rounding() {
    // (left - hanging) / 120 + 0.5, truncated: 180 twips -> 2, 179 -> 1, hanging past left -> 0
    let body = [
        r#"<w:p x="1"><w:ind w:left="180"/>a</w:p>"#,
        r#"<w:p x="1"><w:ind w:left="179"/>b</w:p>"#,
        r#"<w:p x="1"><w:ind w:left="100" w:hanging="400"/>c</w:p>"#,
    ]
    .concat();
    assert_eq!(convert_parts("", "", &body).unwrap(), "  a\n b\nc\n");
}

#[test]
fn parts_without_lists_convert() {
    assert_eq!(convert_parts("", "", "<w:p a=\"1\"><w:t>x &amp; y</w:t></w:p>").unwrap(), "x & y\n");
    assert_eq!(convert_parts("", "", "no markup at all").unwrap(), "no markup at all");
}

#[test]
fn undefined_list_level_gets_no_marker() {
    let body = r#"<w:p a="1"><w:pPr><w:numPr><w:ilvl w:val="0"/><w:numId w:val="4"/></w:numPr></w:pPr><w:t>x</w:t></w:p>"#;
    assert_eq!(convert_parts("", "", body).unwrap(), "x\n");
}

#[test]
fn dangling_placeholder_is_invalid_numbering() {
    let numbering = [
        r#"<w:abstractNum w:abstractNumId="0"><w:lvl w:ilvl="0"><w:start w:val="1"/><w:numFmt w:val="decimal"/><w:lvlText w:val="x%"/><w:ind w:left="720" w:hanging="360"/></w:lvl></w:abstractNum>"#,
        r#"<w:num w:numId="1"><w:abstractNumId w:val="0"/></w:num>"#,
    ]
    .concat();
    let body = r#"<w:p a="1"><w:numPr><w:ilvl w:val="0"/><w:numId w:val="1"/></w:numPr><w:t>x</w:t></w:p>"#;
    assert!(matches!(convert_parts("", &numbering, body), Err(ConvertError::InvalidNumbering)));
}

#[test]
fn regex_replacement_helpers() {
    assert_eq!(replace_all_str("a1b22c", r"\d+", "#").unwrap(), "a#b#c");
    assert_eq!(replace_first_str("a1b22c", r"\d+", "#").unwrap(), "a#b22c");
    assert_eq!(replace_all_str("unchanged", "zzz", "#").unwrap(), "unchanged");
    assert_eq!(replace_all_str("é1ü", r"\d", "").unwrap(), "éü");
    assert!(replace_all_str("x", "(", "").is_none());
}

#[test]
fn small_helpers() {
    assert_eq!(parse_or_default("12", 5), 12);
    assert_eq!(parse_or_default("x", 5), 5);
    assert!(same_text("abc", "abc"));
    assert!(!same_text("abc", "abd"));
    assert_eq!(space_string(3), "   ");
    assert!(ends_with_text("word/document.xml", ".xml"));
    assert!(!ends_with_text("a.xm", ".xml"));
    assert!(is_xml_part_name("_rels/.rels"));
    assert!(!is_xml_part_name("media/a.png"));
    assert!(is_stripped_part_name("docProps/app.xml"));
    assert!(!is_stripped_part_name("docProps/custom.xml"));
}

#[test]
fn entries_are_stripped_or_scrubbed() {
    assert_eq!(strip_entry("docProps/core.xml", b"x".to_vec()).unwrap(), None);
    assert_eq!(strip_entry("media/a.bin", vec![0xff, 0]).unwrap(), Some(vec![0xff, 0]));
    assert_eq!(
        strip_entry("word/x.xml", br#"<a w:author="Me"/>"#.to_vec()).unwrap(),
        Some(br#"<a w:author=""/>"#.to_vec())
    );
    assert!(matches!(strip_entry("word/x.xml", vec![0xff]), Err(StripError::NotUtf8(_))));
    let wide = "\u{00E9} and then enough ascii text".as_bytes().to_vec();
    assert_eq!(strip_entry("word/x.xml", wide.clone()).unwrap(), Some(wide));
    let dated = "\u{00E9}\u{4E2D} t=\"2021-02-03T04:05:06Z\" w:author=\"J\u{00F6}rg\"".as_bytes().to_vec();
    assert_eq!(
        strip_entry("word/x.xml", dated).unwrap(),
        Some("\u{00E9}\u{4E2D} t=\"1970-01-01T00:00:00Z\" w:author=\"\"".as_bytes().to_vec())
    );
}

#[test]
fn non_utf8_part_reports_the_decoding_error() {
    let expected = String::from_utf8(vec![b'a', 0xff]).unwrap_err().to_string();
    match strip_entry("word/document.xml", vec![b'a', 0xff]) {
        Err(e @ StripError::NotUtf8(_)) => assert_eq!(e.message(), expected),
        other => panic!("unexpected {:?}", other),
    }
}

#[test]
fn converted_text_holds_no_special_character() {
    let body = "<w:p><w:t>\u{201C}quoted\u{201D} \u{2014} \u{00BD} &amp;ldquo; &lt;x&gt;</w:t></w:p>";
    let text = convert_parts("", "", body).unwrap();
    let table = docx2txt::tables::special_chars_map();
    for c in text.chars() {
        assert!(table.iter().all(|(k, _)| *k != c), "{:?} left in {:?}", c, text);
    }
    assert!(text.contains("&ldquo; <x>"));
}
