use std::io::{Cursor, Write};

use zip::write::SimpleFileOptions;
use zip::ZipWriter;

fn build_docx(parts: &[(&str, &str)]) -> Vec<u8> {
    let mut buf = Cursor::new(Vec::new());
    {
        let mut zw = ZipWriter::new(&mut buf);
        let opts = SimpleFileOptions::default().compression_method(zip::CompressionMethod::Deflated);
        for &(name, content) in parts {
            zw.start_file(name, opts).unwrap();
            zw.write_all(content.as_bytes()).unwrap();
        }
        zw.finish().unwrap();
    }
    buf.into_inner()
}

fn content_types(extras: &str) -> String {
    format!(
        r#"<?xml version="1.0" encoding="UTF-8" standalone="yes"?><Types xmlns="http://schemas.openxmlformats.org/package/2006/content-types"><Default Extension="rels" ContentType="application/vnd.openxmlformats-package.relationships+xml"/><Default Extension="xml" ContentType="application/xml"/><Override PartName="/word/document.xml" ContentType="application/vnd.openxmlformats-officedocument.wordprocessingml.document.main+xml"/>{extras}</Types>"#
    )
}

const ROOT_RELS: &str = r#"<?xml version="1.0" encoding="UTF-8" standalone="yes"?><Relationships xmlns="http://schemas.openxmlformats.org/package/2006/relationships"><Relationship Id="rId1" Type="http://schemas.openxmlformats.org/officeDocument/2006/relationships/officeDocument" Target="word/document.xml"/></Relationships>"#;

fn ns() -> String {
    [
    r#"xmlns:r="http://schemas.openxmlformats.org/officeDocument/2006/relationships" "#,
    r#"xmlns:w="http://schemas.openxmlformats.org/wordprocessingml/2006/main" "#,
    r#"xmlns:wp="http://schemas.openxmlformats.org/drawingml/2006/wordprocessingDrawing" "#,
    r#"xmlns:wp14="http://schemas.microsoft.com/office/word/2010/wordprocessingDrawing" "#,
    r#"xmlns:w14="http://schemas.microsoft.com/office/word/2010/wordml""#,
].concat()
}

fn wrap_document(body: &str) -> String {
    let ns = ns();
    format!(
        "<?xml version=\"1.0\" encoding=\"UTF-8\" standalone=\"yes\"?>\n\
         <w:document {ns}><w:body>{body}</w:body></w:document>"
    )
}

const A: &str = r#"w:rsidR="00000000" w:rsidRDefault="00000000""#;

fn p(inner: &str) -> String {
    format!("<w:p {A}>{inner}</w:p>")
}

fn sp() -> String {
    format!("<w:p {A}/>")
}

fn t(text: &str) -> String {
    format!(r#"<w:r><w:t xml:space="preserve">{text}</w:t></w:r>"#)
}

fn basic_docx() -> Vec<u8> {
    let doc_rels = [
        r#"<?xml version="1.0" encoding="UTF-8" standalone="yes"?>"#,
        r#"<Relationships xmlns="http://schemas.openxmlformats.org/package/2006/relationships">"#,
        r#"<Relationship Id="rId1" Type="http://schemas.openxmlformats.org/officeDocument/2006/relationships/hyperlink" Target="https://example.com" TargetMode="External"/>"#,
        r#"<Relationship Id="rId2" Type="http://schemas.openxmlformats.org/officeDocument/2006/relationships/hyperlink" Target="https://git-scm.com" TargetMode="External"/>"#,
        r#"</Relationships>"#,
    ].concat();

    let body = [
        p(&t("Plain paragraph.")),
        p(&format!("{}{}", t("Two "), t("runs merged."))),
        p(&format!("{}<w:r><w:br/></w:r>{}", t("Line one."), t("Line two."))),
        p(&format!("{}<w:r><w:tab/></w:r>{}", t("Col1"), t("Col2"))),
        p(&format!("{}<w:r><w:noBreakHyphen/></w:r>{}", t("non"), t("breaking"))),
        p(&format!("{}<w:r><w:softHyphen/></w:r>{}", t("soft"), t("hyphen"))),
        p(r#"<w:pPr><w:pBdr><w:bottom w:val="single" w:sz="6" w:space="1" w:color="auto"/></w:pBdr></w:pPr>"#),
        p(r#"<w:r><w:rPr><w:caps/></w:rPr><w:t>shouting text</w:t></w:r>"#),
        p(&format!(
            "{}{}{}",
            t("See note"),
            r#"<w:r><w:rPr><w:vertAlign w:val="superscript"/></w:rPr><w:t>1</w:t></w:r>"#,
            t(" for details.")
        )),
        p(&format!(
            "{}{}{}",
            t("Visit "),
            format!(r#"<w:hyperlink r:id="rId1" w:history="1">{}</w:hyperlink>"#, t("our site")),
            t(".")
        )),
        p(&format!(r#"<w:hyperlink r:id="rId2" w:history="1">{}</w:hyperlink>"#, t("https://git-scm.com"))),
        p(&format!(r#"<w:pPr><w:ind w:left="720"/></w:pPr>{}"#, t("Indented text."))),
        p(&format!(r#"<w:pPr><w:ind w:firstLine="480"/></w:pPr>{}"#, t("First-line indent."))),
        p(&format!(r#"<w:pPr><w:ind w:left="960" w:hanging="240"/></w:pPr>{}"#, t("Hanging indent."))),
        p(&t("\u{00A9} \u{00AE} \u{2122} \u{00BD} \u{20AC}")),
        p(&t("\u{201C}Hello\u{201D} \u{2014} World")),
        p(&t("AT&amp;T, 5 &gt; 3, &apos;quoted&apos;")),
        p(&format!(
            "{}{}{}",
            t("visible"),
            r#"<w:del w:id="1" w:author="test"><w:r><w:delText>DELETED</w:delText></w:r></w:del>"#,
            t(" text")
        )),
        p(&format!(
            "{}{}{}",
            t("before"),
            r#"<w:r><w:instrText xml:space="preserve"> PAGE </w:instrText></w:r>"#,
            t("after")
        )),
        p(&format!(
            "{}{}{}",
            t("text"),
            r#"<wp:inline distT="0" distB="0" distL="0" distR="0"><wp:extent cx="914400" cy="914400"/></wp:inline>"#,
            t("more")
        )),
        p(&format!(
            "{}{}{}",
            t("before wp14"),
            r#"<wp14:sizeRelH relativeFrom="page"><wp14:pctWidth>0</wp14:pctWidth></wp14:sizeRelH>"#,
            t("after wp14")
        )),
        sp(),
    ]
    .join("");

    let ct = content_types("");
    let doc = wrap_document(&body);
    build_docx(&[
        ("[Content_Types].xml", &ct),
        ("_rels/.rels", ROOT_RELS),
        ("word/_rels/document.xml.rels", &doc_rels),
        ("word/document.xml", &doc),
    ])
}

const BULLET: char = '\u{F0B7}';
const SQUARE_BUL: char = '\u{F0A7}';

struct Level {
    ilvl: usize,
    start: usize,
    num_fmt: &'static str,
    lvl_text: String,
    left: usize,
    hanging: usize,
    font: Option<&'static str>,
}

fn abstract_num(id: usize, nsid: &mut u32, tmpl: &mut u32, levels: &[Level]) -> String {
    let nsid_str = format!("{:08X}", *nsid);
    *nsid += 1;
    let tmpl_str = format!("{:08X}", *tmpl);
    *tmpl += 1;

    let mut lvl_xml = String::new();
    for i in 0..9usize {
        if let Some(l) = levels.iter().find(|l| l.ilvl == i) {
            let rpr = match l.font {
                Some(f) => format!(r#"<w:rPr><w:rFonts w:ascii="{f}" w:hAnsi="{f}" w:hint="default"/></w:rPr>"#),
                None => String::new(),
            };
            lvl_xml += &format!(
                r#"<w:lvl w:ilvl="{ilvl}"><w:start w:val="{start}"/><w:numFmt w:val="{fmt}"/><w:lvlText w:val="{txt}"/><w:lvlJc w:val="left"/><w:pPr><w:ind w:left="{left}" w:hanging="{hang}"/></w:pPr>{rpr}</w:lvl>"#,
                ilvl = i, start = l.start, fmt = l.num_fmt,
                txt = l.lvl_text, left = l.left, hang = l.hanging,
            );
        } else {
            let left = 720 * (i + 1);
            lvl_xml += &format!(
                r#"<w:lvl w:ilvl="{ilvl}" w:tentative="1"><w:start w:val="1"/><w:numFmt w:val="decimal"/><w:lvlText w:val="%{n}."/><w:lvlJc w:val="left"/><w:pPr><w:ind w:left="{left}" w:hanging="360"/></w:pPr></w:lvl>"#,
                ilvl = i, n = i + 1, left = left,
            );
        }
    }

    format!(
        r#"<w:abstractNum w:abstractNumId="{id}"><w:nsid w:val="{nsid_str}"/><w:multiLevelType w:val="multilevel"/><w:tmpl w:val="{tmpl_str}"/>{lvl_xml}</w:abstractNum>"#,
    )
}

fn num_instance(num_id: usize, abstract_num_id: usize) -> String {
    format!(r#"<w:num w:numId="{num_id}"><w:abstractNumId w:val="{abstract_num_id}"/></w:num>"#)
}

fn list_p(num_id: usize, ilvl: usize, text: &str) -> String {
    format!(
        r#"<w:p {A}><w:pPr><w:numPr><w:ilvl w:val="{ilvl}"/><w:numId w:val="{num_id}"/></w:numPr></w:pPr><w:r><w:t>{text}</w:t></w:r></w:p>"#,
    )
}

fn lists_docx() -> Vec<u8> {
    let mut nsid = 0x10000000u32;
    let mut tmpl = 0xA0000000u32;

    let numbering_xml = format!(
        r#"<?xml version="1.0" encoding="UTF-8" standalone="yes"?><w:numbering xmlns:w="http://schemas.openxmlformats.org/wordprocessingml/2006/main">{abs0}{abs1}{abs2}{abs3}{abs4}{n1}{n2}{n3}{n4}{n5}</w:numbering>"#,
        abs0 = abstract_num(0, &mut nsid, &mut tmpl, &[
            Level { ilvl: 0, start: 1, num_fmt: "bullet", lvl_text: BULLET.to_string(), left: 720, hanging: 360, font: Some("Symbol") },
        ]),
        abs1 = abstract_num(1, &mut nsid, &mut tmpl, &[
            Level { ilvl: 0, start: 1, num_fmt: "decimal", lvl_text: "%1.".into(), left: 720, hanging: 360, font: None },
        ]),
        abs2 = abstract_num(2, &mut nsid, &mut tmpl, &[
            Level { ilvl: 0, start: 1, num_fmt: "lowerLetter", lvl_text: "%1)".into(), left: 720, hanging: 360, font: None },
        ]),
        abs3 = abstract_num(3, &mut nsid, &mut tmpl, &[
            Level { ilvl: 0, start: 1, num_fmt: "upperRoman", lvl_text: "%1.".into(), left: 720, hanging: 360, font: None },
        ]),
        abs4 = abstract_num(4, &mut nsid, &mut tmpl, &[
            Level { ilvl: 0, start: 1, num_fmt: "decimal", lvl_text: "%1.".into(), left: 720, hanging: 360, font: None },
            Level { ilvl: 1, start: 1, num_fmt: "bullet", lvl_text: SQUARE_BUL.to_string(), left: 1440, hanging: 360, font: Some("Wingdings") },
        ]),
        n1 = num_instance(1, 0), n2 = num_instance(2, 1),
        n3 = num_instance(3, 2), n4 = num_instance(4, 3),
        n5 = num_instance(5, 4),
    );

    let body = [
        list_p(1, 0, "Bullet one"), list_p(1, 0, "Bullet two"), list_p(1, 0, "Bullet three"),
        sp(),
        list_p(2, 0, "First item"), list_p(2, 0, "Second item"), list_p(2, 0, "Third item"),
        sp(),
        list_p(3, 0, "Alpha"), list_p(3, 0, "Bravo"), list_p(3, 0, "Charlie"),
        sp(),
        list_p(4, 0, "First"), list_p(4, 0, "Second"), list_p(4, 0, "Third"),
        sp(),
        list_p(5, 0, "Parent one"), list_p(5, 1, "Child A"), list_p(5, 1, "Child B"),
        list_p(5, 0, "Parent two"), list_p(5, 1, "Child C"),
    ]
    .join("");

    let ct = content_types(
        r#"<Override PartName="/word/numbering.xml" ContentType="application/vnd.openxmlformats-officedocument.wordprocessingml.numbering+xml"/>"#,
    );
    let lists_doc_rels = [
        r#"<?xml version="1.0" encoding="UTF-8" standalone="yes"?>"#,
        r#"<Relationships xmlns="http://schemas.openxmlformats.org/package/2006/relationships">"#,
        r#"<Relationship Id="rId1" Type="http://schemas.openxmlformats.org/officeDocument/2006/relationships/numbering" Target="numbering.xml"/>"#,
        r#"</Relationships>"#,
    ].concat();
    let doc = wrap_document(&body);
    build_docx(&[
        ("[Content_Types].xml", &ct),
        ("_rels/.rels", ROOT_RELS),
        ("word/_rels/document.xml.rels", &lists_doc_rels),
        ("word/document.xml", &doc),
        ("word/numbering.xml", &numbering_xml),
    ])
}

fn check_bytes(docx_bytes: &[u8], expected: &str, label: &str) {
    let actual = docx2txt::convert(docx_bytes)
        .unwrap_or_else(|e| panic!("convert({}) failed: {}", label, e.message()));
    assert_eq!(actual, expected, "output mismatch for {}", label);
}

#[test]
fn basic_generated() {
    let mut expected = String::new();
    expected += "Plain paragraph.\n";
    expected += "Two runs merged.\n";
    expected += "Line one.\nLine two.\n";
    expected += "Col1\tCol2\n";
    expected += "non-breaking\n";
    expected += "soft - hyphen\n";
    expected += &"-".repeat(80);
    expected += "\n\n";
    expected += "SHOUTING TEXT\n";
    expected += "See note[1] for details.\n";
    expected += "Visit our site.\n";
    expected += "https://git-scm.com\n";
    expected += "      Indented text.\n";
    expected += "    First-line indent.\n";
    expected += "      Hanging indent.\n";
    expected += "(C) (R) (TM) (1/2) Euro\n";
    expected += "\"Hello\"  --  World\n";
    expected += "AT&T, 5 > 3, 'quoted'\n";
    expected += "visible text\n";
    expected += "beforeafter\n";
    expected += "textmore\n";
    expected += "before wp14after wp14\n";
    expected += "\n";
    check_bytes(&basic_docx(), &expected, "basic-generated");
}

#[test]
fn lists_generated() {
    let expected = [
        "   * Bullet one\n",
        "   * Bullet two\n",
        "   * Bullet three\n",
        "\n",
        "   1. First item\n",
        "   2. Second item\n",
        "   3. Third item\n",
        "\n",
        "   a) Alpha\n",
        "   b) Bravo\n",
        "   c) Charlie\n",
        "\n",
        "   I. First\n",
        "   II. Second\n",
        "   III. Third\n",
        "\n",
        "   1. Parent one\n",
        "         # Child A\n",
        "         # Child B\n",
        "   2. Parent two\n",
        "         # Child C\n",
    ].concat();
    check_bytes(&lists_docx(), &expected, "lists-generated");
}

#[test]
fn not_a_zip_is_rejected() {
    let res = docx2txt::convert(b"this is not a zip archive");
    assert!(matches!(res, Err(docx2txt::ConvertError::InvalidArchive(_))));
}

#[test]
fn missing_document_part_is_reported() {
    let bytes = build_docx(&[("[Content_Types].xml", "<Types/>")]);
    let res = docx2txt::convert(&bytes);
    assert!(matches!(res, Err(docx2txt::ConvertError::MissingDocument)));
    assert_eq!(res.unwrap_err().message(), "word/document.xml not found");
}

#[test]
fn document_part_alone_converts() {
    let doc = wrap_document(&p(&t("only the body")));
    let bytes = build_docx(&[("word/document.xml", &doc)]);
    assert_eq!(docx2txt::convert(&bytes).unwrap(), "only the body\n");
}

#[test]
fn nested_decimal_levels_fill_parent_counters() {
    let numbering = [
        r#"<w:numbering><w:abstractNum w:abstractNumId="7">"#,
        r#"<w:lvl w:ilvl="0"><w:start w:val="1"/><w:numFmt w:val="decimal"/><w:lvlText w:val="%1."/><w:pPr><w:ind w:left="720" w:hanging="360"/></w:pPr></w:lvl>"#,
        r#"<w:lvl w:ilvl="1"><w:start w:val="1"/><w:numFmt w:val="decimal"/><w:lvlText w:val="%1.%2."/><w:pPr><w:ind w:left="1440" w:hanging="360"/></w:pPr></w:lvl>"#,
        r#"</w:abstractNum><w:num w:numId="3"><w:abstractNumId w:val="7"/></w:num></w:numbering>"#,
    ].concat();
    let body = [list_p(3, 0, "A"), list_p(3, 1, "B"), list_p(3, 1, "C"), list_p(3, 0, "D"), list_p(3, 1, "E")].join("");
    let doc = wrap_document(&body);
    let bytes = build_docx(&[("word/document.xml", &doc), ("word/numbering.xml", &numbering)]);
    let expected = "   1. A\n         1.1. B\n         1.2. C\n   2. D\n         2.1. E\n";
    assert_eq!(docx2txt::convert(&bytes).unwrap(), expected);
}

#[test]
fn letter_counter_at_zero_is_invalid_numbering() {
    let numbering = [
        r#"<w:numbering><w:abstractNum w:abstractNumId="1">"#,
        r#"<w:lvl w:ilvl="0"><w:start w:val="0"/><w:numFmt w:val="lowerLetter"/><w:lvlText w:val="%1)"/><w:pPr><w:ind w:left="720" w:hanging="360"/></w:pPr></w:lvl>"#,
        r#"</w:abstractNum><w:num w:numId="1"><w:abstractNumId w:val="1"/></w:num></w:numbering>"#,
    ].concat();
    let doc = wrap_document(&list_p(1, 0, "x"));
    let bytes = build_docx(&[("word/document.xml", &doc), ("word/numbering.xml", &numbering)]);
    assert!(matches!(docx2txt::convert(&bytes), Err(docx2txt::ConvertError::InvalidNumbering)));
}

#[test]
fn centred_and_right_paragraphs_are_aligned() {
    let body = [
        p(&format!(r#"<w:pPr><w:jc w:val="center"/></w:pPr>{}"#, t("abc"))),
        p(&format!(r#"<w:pPr><w:jc w:val="right"/></w:pPr>{}"#, t("abc"))),
        p(&format!(r#"<w:pPr><w:jc w:val="both"/></w:pPr>{}"#, t("abc"))),
    ]
    .join("");
    let bytes = build_docx(&[("word/document.xml", &wrap_document(&body))]);
    let expected = format!("{}abc\n{}abc\nabc\n", " ".repeat(38), " ".repeat(76));
    assert_eq!(docx2txt::convert(&bytes).unwrap(), expected);
}

#[test]
fn strip_package_drops_metadata_and_scrubs_xml() {
    let core = "<cp:coreProperties><dc:creator>Jane</dc:creator></cp:coreProperties>";
    let doc = r#"<w:document><w:ins w:id="1" w:author="Jane Doe" w:date="2024-05-06T07:08:09Z"><w:t>kept</w:t></w:ins></w:document>"#;
    let bytes = build_docx(&[
        ("docProps/core.xml", core),
        ("word/document.xml", doc),
        ("media/image1.bin", "raw bytes"),
    ]);
    let cleaned = docx2txt::strip::strip_package(&bytes).unwrap();
    let mut archive = zip::ZipArchive::new(Cursor::new(cleaned)).unwrap();
    assert_eq!(archive.len(), 2);
    let mut names = Vec::new();
    for i in 0..archive.len() {
        names.push(archive.by_index(i).unwrap().name().to_string());
    }
    assert_eq!(names, vec!["word/document.xml".to_string(), "media/image1.bin".to_string()]);
    let mut text = String::new();
    std::io::Read::read_to_string(&mut archive.by_name("word/document.xml").unwrap(), &mut text).unwrap();
    assert_eq!(
        text,
        r#"<w:document><w:ins w:id="1" w:author="" w:date="1970-01-01T00:00:00Z"><w:t>kept</w:t></w:ins></w:document>"#
    );
    let mut raw = String::new();
    std::io::Read::read_to_string(&mut archive.by_name("media/image1.bin").unwrap(), &mut raw).unwrap();
    assert_eq!(raw, "raw bytes");
}

#[test]
fn strip_package_rejects_non_zip() {
    assert!(matches!(
        docx2txt::strip::strip_package(b"nope"),
        Err(docx2txt::strip::StripError::Archive(_))
    ));
}

#[test]
fn strip_package_scrubs_non_ascii_xml() {
    let doc = "<w:document><w:ins w:author=\"J\u{00F6}rg M\u{00FC}ller\" w:date=\"2024-05-06T07:08:09Z\"><w:t>Gr\u{00FC}\u{00DF}e \u{2014} \u{4E2D}\u{6587}</w:t></w:ins></w:document>";
    let bytes = build_docx(&[("word/document.xml", doc), ("docProps/app.xml", "<Properties/>")]);
    let cleaned = docx2txt::strip::strip_package(&bytes).unwrap();
    let mut archive = zip::ZipArchive::new(Cursor::new(cleaned)).unwrap();
    assert_eq!(archive.len(), 1);
    let mut text = String::new();
    std::io::Read::read_to_string(&mut archive.by_name("word/document.xml").unwrap(), &mut text).unwrap();
    assert_eq!(
        text,
        "<w:document><w:ins w:author=\"\" w:date=\"1970-01-01T00:00:00Z\"><w:t>Gr\u{00FC}\u{00DF}e \u{2014} \u{4E2D}\u{6587}</w:t></w:ins></w:document>"
    );
}

#[test]
fn strip_package_rejects_xml_that_is_not_utf8() {
    let mut buf = Cursor::new(Vec::new());
    {
        let mut zw = ZipWriter::new(&mut buf);
        let opts = SimpleFileOptions::default().compression_method(zip::CompressionMethod::Deflated);
        zw.start_file("word/document.xml", opts).unwrap();
        zw.write_all(&[b'<', 0xff, b'>']).unwrap();
        zw.finish().unwrap();
    }
    assert!(matches!(
        docx2txt::strip::strip_package(&buf.into_inner()),
        Err(docx2txt::strip::StripError::NotUtf8(_))
    ));
}

fn stored_zip(raw_name: &[u8], data: &[u8]) -> Vec<u8> {
    fn u16le(v: &mut Vec<u8>, x: u16) {
        v.extend_from_slice(&x.to_le_bytes());
    }
    fn u32le(v: &mut Vec<u8>, x: u32) {
        v.extend_from_slice(&x.to_le_bytes());
    }
    let crc = {
        let mut c: u32 = 0xffff_ffff;
        for &b in data {
            c ^= b as u32;
            for _ in 0..8 {
                c = if c & 1 != 0 { (c >> 1) ^ 0xedb8_8320 } else { c >> 1 };
            }
        }
        !c
    };
    let mut out = Vec::new();
    u32le(&mut out, 0x0403_4b50);
    for x in [20u16, 0, 0, 0, 0x21] {
        u16le(&mut out, x);
    }
    u32le(&mut out, crc);
    u32le(&mut out, data.len() as u32);
    u32le(&mut out, data.len() as u32);
    u16le(&mut out, raw_name.len() as u16);
    u16le(&mut out, 0);
    out.extend_from_slice(raw_name);
    out.extend_from_slice(data);
    let cd_start = out.len();
    u32le(&mut out, 0x0201_4b50);
    for x in [20u16, 20, 0, 0, 0, 0x21] {
        u16le(&mut out, x);
    }
    u32le(&mut out, crc);
    u32le(&mut out, data.len() as u32);
    u32le(&mut out, data.len() as u32);
    for x in [raw_name.len() as u16, 0, 0, 0, 0] {
        u16le(&mut out, x);
    }
    u32le(&mut out, 0);
    u32le(&mut out, 0);
    out.extend_from_slice(raw_name);
    let cd_len = out.len() - cd_start;
    u32le(&mut out, 0x0605_4b50);
    for x in [0u16, 0, 1, 1] {
        u16le(&mut out, x);
    }
    u32le(&mut out, cd_len as u32);
    u32le(&mut out, cd_start as u32);
    u16le(&mut out, 0);
    out
}

#[test]
fn strip_package_copies_a_hand_built_archive() {
    let bytes = stored_zip(b"media/a.bin", b"abc");
    let cleaned = docx2txt::strip::strip_package(&bytes).unwrap();
    let mut archive = zip::ZipArchive::new(Cursor::new(cleaned)).unwrap();
    assert_eq!(archive.len(), 1);
    let mut raw = String::new();
    std::io::Read::read_to_string(&mut archive.by_name("media/a.bin").unwrap(), &mut raw).unwrap();
    assert_eq!(raw, "abc");
}

#[test]
fn strip_package_refuses_a_name_too_long_for_a_zip_header() {
    // 40000 CP437 bytes 0x80 decode to 40000 two-byte characters.
    let bytes = stored_zip(&vec![0x80u8; 40000], b"abc");
    match docx2txt::strip::strip_package(&bytes) {
        Err(e @ docx2txt::strip::StripError::Write(_)) => {
            assert_eq!(e.message(), "an entry name is longer than a ZIP header allows (65535 bytes)")
        }
        other => panic!("unexpected {:?}", other.map(|b| b.len())),
    }
}
