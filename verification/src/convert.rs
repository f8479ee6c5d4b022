//! The conversion of a document's XML to plain text, step by step.

use vstd::prelude::*;
use vstd::string::StringSliceAdditionalSpecFns;
use crate::archive::{archive_opens, entry_text, extract_string, open_package, zip_error_message};
use crate::captures::{
    caps_wf, find_captures, first_only, group, group_text, pattern_compiles, regex_captures,
    replace_all_str, replace_all_with, replace_first_str, replace_matches, spans_view, splice,
    texts_view,
};
use crate::list::{initial_model, next_number, LevelDef, LevelSpec, ListModel, ListState};
use crate::ooxml::{
    assoc_last, decode_entities, entities_decoded, hyperlink_text, indent_of, levels_view,
    numbering_levels, numbering_nums, pairs_view, paragraph_text, parse_numbering,
    parse_or_default, parse_rels, process_hyperlink, process_paragraph, rels_spec,
    ABSTRACT_NUM_PATTERN, ANY_TAG_PATTERN, ENTITY_PATTERN, JC_PATTERN, LEVEL_PATTERN, NEWLINE,
    NUM_PATTERN, REL_PATTERN, TAG_PATTERN,
};
use crate::strings::{decimal, decimal_string, parse_or};
use crate::text::{
    convert_special_chars, has_no_specials, lemma_substituted_has_no_specials, push_str, replace_lit, replace_literal, space_string, spaces,
    substitute_specials, to_uppercase, unicode_upper, LINE_WIDTH,
};

verus! {

/// The XML declaration with the line break after it.
pub const DECLARATION_PATTERN: &'static str = r"<\?xml [^?]*\?>\r?\n";
/// Drawing wrappers of the `wp14` namespace.
pub const WP14_PATTERN: &'static str = r"<wp14:[^>]*>.*?</wp14:[^>]*>";
/// Drawing wrappers of the `wp` namespace.
pub const WP_PATTERN: &'static str = r"<wp:[^>]*>.*?</wp:[^>]*>";
/// Field instructions.
pub const INSTR_TEXT_PATTERN: &'static str = r"(?s)<w:instrText[^>]*>.*?</w:instrText>";
/// Field data.
pub const FLD_DATA_PATTERN: &'static str = r"(?s)<w:fldData[^>]*>.*?</w:fldData>";
/// Deleted text of tracked changes.
pub const DEL_TEXT_PATTERN: &'static str = r"(?s)<w:delText[^>]*>.*?</w:delText>";
/// A superscript run, taken as a cross-reference.
pub const SUPERSCRIPT_PATTERN: &'static str = r#"<w:vertAlign w:val="superscript"/></w:rPr><w:t>(.*?)</w:t>"#;
/// Paragraph borders.
pub const BORDER_PATTERN: &'static str = r"<w:pBdr>.*?</w:pBdr>";
/// A run in capitals.
pub const CAPS_PATTERN: &'static str = r"<w:caps/>.*?(?:<w:t>|<w:t [^>]+>)(.*?)</w:t>";
/// A hyperlink.
pub const HYPERLINK_PATTERN: &'static str = r#"<w:hyperlink r:id="([^"]*)"[^>]*>(.*?)</w:hyperlink>"#;
/// The list level of a paragraph.
pub const NUMPR_PATTERN: &'static str = r#"<w:numPr><w:ilvl w:val="(\d+)"/><w:numId w:val="(\d+)"/>"#;
/// A paragraph indentation.
pub const INDENT_PATTERN: &'static str = r#"<w:ind w:(?:left|firstLine)="(\d+)"(?: w:hanging="(\d+)")?[^>]*>"#;
/// An empty paragraph or a line break.
pub const BREAK_PATTERN: &'static str = r"<w:p [^/>]+?/>|<w:br/>";
/// A paragraph and its content.
pub const PARAGRAPH_PATTERN: &'static str = r"(?s)<w:p[^>]+?>(.*?)</w:p>";

/// The package part holding the relationships of the main document.
pub const RELS_PART: &'static str = "word/_rels/document.xml.rels";
/// The package part holding the numbering definitions.
pub const NUMBERING_PART: &'static str = "word/numbering.xml";
/// The package part holding the main document.
pub const DOCUMENT_PART: &'static str = "word/document.xml";

/// Why a conversion failed.
#[derive(Debug)]
pub enum ConvertError {
    /// The input is not a ZIP archive; the message of the ZIP reader.
    InvalidArchive(String),
    /// The archive has no readable `word/document.xml`.
    MissingDocument,
    /// One of the conversion's regular expressions was refused by the regex
    /// engine.
    UnsupportedPattern,
    /// A list paragraph whose marker cannot be made: a counter past
    /// `usize::MAX`, a letter counter at zero, or a marker template whose
    /// placeholder ends the template or precedes a multi-byte character.
    InvalidNumbering,
}

impl ConvertError {
    /// The text of the error, as the command line shows it.
    pub fn message(&self) -> (res: String)
        ensures
            res@ == match self {
                ConvertError::InvalidArchive(m) => m@,
                ConvertError::MissingDocument => "word/document.xml not found"@,
                ConvertError::UnsupportedPattern => "unsupported regular expression"@,
                ConvertError::InvalidNumbering => "invalid list numbering"@,
            },
    {
        match self {
            ConvertError::InvalidArchive(m) => m.clone(),
            ConvertError::MissingDocument => "word/document.xml not found".to_owned(),
            ConvertError::UnsupportedPattern => "unsupported regular expression".to_owned(),
            ConvertError::InvalidNumbering => "invalid list numbering".to_owned(),
        }
    }
}

/// Every regular expression of the conversion compiles.
pub open spec fn all_patterns_compile() -> bool {
    &&& pattern_compiles(REL_PATTERN@)
    &&& pattern_compiles(ABSTRACT_NUM_PATTERN@)
    &&& pattern_compiles(LEVEL_PATTERN@)
    &&& pattern_compiles(NUM_PATTERN@)
    &&& pattern_compiles(DECLARATION_PATTERN@)
    &&& pattern_compiles(WP14_PATTERN@)
    &&& pattern_compiles(WP_PATTERN@)
    &&& pattern_compiles(INSTR_TEXT_PATTERN@)
    &&& pattern_compiles(FLD_DATA_PATTERN@)
    &&& pattern_compiles(DEL_TEXT_PATTERN@)
    &&& pattern_compiles(SUPERSCRIPT_PATTERN@)
    &&& pattern_compiles(BORDER_PATTERN@)
    &&& pattern_compiles(CAPS_PATTERN@)
    &&& pattern_compiles(HYPERLINK_PATTERN@)
    &&& pattern_compiles(TAG_PATTERN@)
    &&& pattern_compiles(NUMPR_PATTERN@)
    &&& pattern_compiles(INDENT_PATTERN@)
    &&& pattern_compiles(BREAK_PATTERN@)
    &&& pattern_compiles(PARAGRAPH_PATTERN@)
    &&& pattern_compiles(JC_PATTERN@)
    &&& pattern_compiles(ANY_TAG_PATTERN@)
    &&& pattern_compiles(ENTITY_PATTERN@)
}

/// `h` with every match of `p` removed.
pub open spec fn strip(h: Seq<char>, p: Seq<char>) -> Seq<char> {
    replace_all_with(h, regex_captures(p, h), Seq::empty())
}

/// Steps 1 to 3: the XML declaration, drawings, field codes and deleted
/// text removed.
pub open spec fn cleaned(doc: Seq<char>) -> Seq<char> {
    let t1 = replace_all_with(doc, first_only(regex_captures(DECLARATION_PATTERN@, doc)), Seq::empty());
    let t2 = strip(strip(t1, WP14_PATTERN@), WP_PATTERN@);
    strip(strip(strip(t2, INSTR_TEXT_PATTERN@), FLD_DATA_PATTERN@), DEL_TEXT_PATTERN@)
}

/// Step 4: superscript runs become `[text]`.
pub open spec fn superscripts_marked(h: Seq<char>) -> Seq<char> {
    let caps = regex_captures(SUPERSCRIPT_PATTERN@, h);
    replace_matches(h, caps, caps.map_values(|c: Seq<Option<(usize, usize)>>| seq!['['] + group_text(h, c, 1) + seq![']']))
}

/// Step 5: tabs and the two special hyphens.
pub open spec fn specials_expanded(h: Seq<char>) -> Seq<char> {
    replace_lit(replace_lit(replace_lit(h, "<w:tab/>"@, "\t"@), "<w:noBreakHyphen/>"@, "-"@), "<w:softHyphen/>"@, " - "@)
}

/// A horizontal rule: a line of `LINE_WIDTH` dashes.
pub open spec fn rule_line() -> Seq<char> {
    Seq::new(LINE_WIDTH as nat, |i: int| '-') + NEWLINE@
}

/// Step 7: runs in capitals are upper-cased.
pub open spec fn caps_applied(h: Seq<char>) -> Seq<char> {
    let caps = regex_captures(CAPS_PATTERN@, h);
    replace_matches(h, caps, caps.map_values(|c: Seq<Option<(usize, usize)>>| unicode_upper(group_text(h, c, 1))))
}

/// Step 8: hyperlinks become their text.
pub open spec fn hyperlinks_applied(h: Seq<char>, rels: Seq<(Seq<char>, Seq<char>)>) -> Seq<char> {
    let caps = regex_captures(HYPERLINK_PATTERN@, h);
    replace_matches(
        h,
        caps,
        caps.map_values(|c: Seq<Option<(usize, usize)>>| hyperlink_text(group_text(h, c, 1), group_text(h, c, 2), rels)),
    )
}

/// The key under which a level is counted: `abstractNumId:ilvl`.
pub open spec fn numbering_key(abs: usize, ilvl: usize) -> Seq<char> {
    decimal(abs as nat) + seq![':'] + decimal(ilvl as nat)
}

/// The markers of the first `n` list paragraphs, numbered in order from
/// state `m`, and the state after them; `None` where a marker cannot be
/// made. A paragraph whose numbering or level is not defined gets no
/// marker.
pub open spec fn number_marks(
    m: ListModel,
    h: Seq<char>,
    caps: Seq<Seq<Option<(usize, usize)>>>,
    levels: Seq<((usize, usize), LevelSpec)>,
    nums: Seq<(usize, usize)>,
    n: nat,
) -> Option<(ListModel, Seq<Seq<char>>)>
    decreases n,
{
    if n == 0 {
        Some((m, Seq::empty()))
    } else {
        match number_marks(m, h, caps, levels, nums, (n - 1) as nat) {
            None => None,
            Some((m1, ps)) => {
                let c = caps[n - 1];
                let ilvl = parse_or(group_text(h, c, 1), 0);
                let num = parse_or(group_text(h, c, 2), 0);
                match assoc_last(nums, num) {
                    None => Some((m1, ps.push(Seq::empty()))),
                    Some(abs) => match assoc_last(levels, (abs, ilvl)) {
                        None => Some((m1, ps.push(Seq::empty()))),
                        Some(level) => match next_number(m1, level, numbering_key(abs, ilvl)) {
                            None => None,
                            Some((m2, t)) => Some((m2, ps.push(t))),
                        },
                    },
                }
            },
        }
    }
}

/// Step 9: list paragraphs get their markers.
pub open spec fn numbered(h: Seq<char>, levels: Seq<((usize, usize), LevelSpec)>, nums: Seq<(usize, usize)>) -> Option<Seq<char>> {
    let caps = regex_captures(NUMPR_PATTERN@, h);
    match number_marks(initial_model(), h, caps, levels, nums, caps.len()) {
        None => None,
        Some((_, ps)) => Some(replace_matches(h, caps, ps)),
    }
}

/// Step 10: indentations become spaces.
pub open spec fn indents_applied(h: Seq<char>) -> Seq<char> {
    let caps = regex_captures(INDENT_PATTERN@, h);
    replace_matches(
        h,
        caps,
        caps.map_values(
            |c: Seq<Option<(usize, usize)>>|
                spaces(indent_of(parse_or(group_text(h, c, 1), 0), parse_or(group_text(h, c, 2), 0)) as nat),
        ),
    )
}

/// Step 12: paragraphs become their text lines.
pub open spec fn paragraphs_applied(h: Seq<char>) -> Seq<char> {
    let caps = regex_captures(PARAGRAPH_PATTERN@, h);
    replace_matches(h, caps, caps.map_values(|c: Seq<Option<(usize, usize)>>| paragraph_text(group_text(h, c, 1))))
}

/// Steps 10 to 15, after the list markers.
pub open spec fn finished(h: Seq<char>) -> Seq<char> {
    let t10 = indents_applied(h);
    let t11 = replace_all_with(t10, regex_captures(BREAK_PATTERN@, t10), NEWLINE@);
    let t12 = paragraphs_applied(t11);
    let t13 = strip(t12, ANY_TAG_PATTERN@);
    entities_decoded(substitute_specials(t13))
}

/// The plain text of a document, from the text of its relationships part,
/// its numbering part and its main part; `None` when a list marker cannot
/// be made.
pub open spec fn convert_text(rels_xml: Seq<char>, numbering_xml: Seq<char>, doc: Seq<char>) -> Option<Seq<char>> {
    let rels = rels_spec(rels_xml);
    let t3 = cleaned(doc);
    let t4 = superscripts_marked(t3);
    let t5 = specials_expanded(t4);
    let t6 = replace_all_with(t5, regex_captures(BORDER_PATTERN@, t5), rule_line());
    let t7 = caps_applied(t6);
    let t8 = hyperlinks_applied(t7, rels);
    match numbered(t8, numbering_levels(numbering_xml), numbering_nums(numbering_xml)) {
        None => None,
        Some(t9) => Some(finished(t9)),
    }
}

/// Removes every match of `p` from `h`.
fn strip_str(h: &str, p: &str) -> (res: Option<String>)
    ensures
        res is Some <==> pattern_compiles(p@),
        res matches Some(r) ==> r@ == strip(h@, p@),
{
    proof { reveal_strlit(""); }
    let r = replace_all_str(h, p, "");
    assert(""@ =~= Seq::<char>::empty());
    r
}

/// Steps 1 to 3.
fn clean(doc: &str) -> (res: Option<String>)
    ensures
        all_patterns_compile() ==> res is Some,
        res matches Some(r) ==> r@ == cleaned(doc@),
{
    proof { reveal_strlit(""); }
    let t1 = replace_first_str(doc, DECLARATION_PATTERN, "")?;
    assert(""@ =~= Seq::<char>::empty());
    let t = strip_str(t1.as_str(), WP14_PATTERN)?;
    let t = strip_str(t.as_str(), WP_PATTERN)?;
    let t = strip_str(t.as_str(), INSTR_TEXT_PATTERN)?;
    let t = strip_str(t.as_str(), FLD_DATA_PATTERN)?;
    let t = strip_str(t.as_str(), DEL_TEXT_PATTERN)?;
    Some(t)
}

/// Facts about the match `i` of a well-formed capture list.
proof fn lemma_match_spans(cs: Seq<Seq<Option<(usize, usize)>>>, bytes: Seq<u8>, c: Seq<Option<(usize, usize)>>, i: int)
    requires
        caps_wf(cs, bytes),
        0 <= i < cs.len(),
        c == cs[i],
    ensures
        forall|k: int| 0 <= k < c.len() && #[trigger] c[k] is Some ==> crate::captures::span_ok(bytes, c[k]->Some_0),
{
    assert forall|k: int| 0 <= k < c.len() && #[trigger] c[k] is Some implies crate::captures::span_ok(bytes, c[k]->Some_0) by {
        assert(cs[i][k] is Some);
    }
}

/// Step 4.
fn mark_superscripts(h: &str) -> (res: Option<String>)
    ensures
        res is Some <==> pattern_compiles(SUPERSCRIPT_PATTERN@),
        res matches Some(r) ==> r@ == superscripts_marked(h@),
{
    let caps = find_captures(SUPERSCRIPT_PATTERN, h)?;
    let ghost cs = spans_view(caps@);
    let mut pieces: Vec<String> = Vec::new();
    let mut i: usize = 0;
    while i < caps.len()
        invariant
            cs == spans_view(caps@),
            caps_wf(cs, h.spec_bytes()),
            i <= caps@.len(),
            texts_view(pieces@) =~= cs.take(i as int).map_values(
                |c: Seq<Option<(usize, usize)>>| seq!['['] + group_text(h@, c, 1) + seq![']'],
            ),
        decreases caps@.len() - i,
    {
        proof { lemma_match_spans(cs, h.spec_bytes(), caps@[i as int]@, i as int); }
        let g = group(h, &caps[i], 1);
        assert(g@ == group_text(h@, cs[i as int], 1));
        let mut piece = String::new();
        piece.push('[');
        push_str(&mut piece, g);
        piece.push(']');
        assert(piece@ =~= seq!['['] + group_text(h@, cs[i as int], 1) + seq![']']);
        let ghost before = pieces@;
        pieces.push(piece);
        assert(texts_view(pieces@) =~= texts_view(before).push(seq!['['] + group_text(h@, cs[i as int], 1) + seq![']']));
        assert(cs.take(i + 1) =~= cs.take(i as int).push(cs[i as int]));
        i = i + 1;
    }
    assert(cs.take(caps@.len() as int) =~= cs);
    Some(splice(h, &caps, &pieces))
}

/// Step 5.
fn expand_specials(h: &str) -> (res: String)
    ensures
        res@ == specials_expanded(h@),
{
    proof {
        reveal_strlit("<w:tab/>");
        reveal_strlit("<w:noBreakHyphen/>");
        reveal_strlit("<w:softHyphen/>");
    }
    let t = replace_literal(h, "<w:tab/>", "\t");
    let t = replace_literal(t.as_str(), "<w:noBreakHyphen/>", "-");
    replace_literal(t.as_str(), "<w:softHyphen/>", " - ")
}

/// A horizontal rule.
fn rule_string() -> (res: String)
    ensures
        res@ == rule_line(),
{
    let mut s = String::new();
    let mut i: usize = 0;
    while i < LINE_WIDTH
        invariant
            i <= LINE_WIDTH,
            s@ =~= Seq::new(i as nat, |k: int| '-'),
        decreases LINE_WIDTH - i,
    {
        s.push('-');
        i = i + 1;
    }
    push_str(&mut s, NEWLINE);
    s
}

/// Step 7.
fn apply_caps(h: &str) -> (res: Option<String>)
    ensures
        res is Some <==> pattern_compiles(CAPS_PATTERN@),
        res matches Some(r) ==> r@ == caps_applied(h@),
{
    let caps = find_captures(CAPS_PATTERN, h)?;
    let ghost cs = spans_view(caps@);
    let mut pieces: Vec<String> = Vec::new();
    let mut i: usize = 0;
    while i < caps.len()
        invariant
            cs == spans_view(caps@),
            caps_wf(cs, h.spec_bytes()),
            i <= caps@.len(),
            texts_view(pieces@) =~= cs.take(i as int).map_values(
                |c: Seq<Option<(usize, usize)>>| unicode_upper(group_text(h@, c, 1)),
            ),
        decreases caps@.len() - i,
    {
        proof { lemma_match_spans(cs, h.spec_bytes(), caps@[i as int]@, i as int); }
        let piece = to_uppercase(group(h, &caps[i], 1));
        let ghost before = pieces@;
        pieces.push(piece);
        assert(texts_view(pieces@) =~= texts_view(before).push(unicode_upper(group_text(h@, cs[i as int], 1))));
        assert(cs.take(i + 1) =~= cs.take(i as int).push(cs[i as int]));
        i = i + 1;
    }
    assert(cs.take(caps@.len() as int) =~= cs);
    Some(splice(h, &caps, &pieces))
}

/// Step 8.
fn apply_hyperlinks(h: &str, rels: &Vec<(String, String)>) -> (res: Option<String>)
    ensures
        pattern_compiles(HYPERLINK_PATTERN@) && pattern_compiles(TAG_PATTERN@) ==> res is Some,
        res is Some ==> pattern_compiles(HYPERLINK_PATTERN@),
        res matches Some(r) ==> r@ == hyperlinks_applied(h@, pairs_view(rels@)),
{
    let caps = find_captures(HYPERLINK_PATTERN, h)?;
    let ghost cs = spans_view(caps@);
    let ghost rv = pairs_view(rels@);
    let mut pieces: Vec<String> = Vec::new();
    let mut i: usize = 0;
    while i < caps.len()
        invariant
            cs == spans_view(caps@),
            rv == pairs_view(rels@),
            caps_wf(cs, h.spec_bytes()),
            pattern_compiles(HYPERLINK_PATTERN@),
            i <= caps@.len(),
            texts_view(pieces@) =~= cs.take(i as int).map_values(
                |c: Seq<Option<(usize, usize)>>| hyperlink_text(group_text(h@, c, 1), group_text(h@, c, 2), rv),
            ),
        decreases caps@.len() - i,
    {
        proof { lemma_match_spans(cs, h.spec_bytes(), caps@[i as int]@, i as int); }
        let piece = process_hyperlink(group(h, &caps[i], 1), group(h, &caps[i], 2), rels)?;
        let ghost before = pieces@;
        pieces.push(piece);
        assert(texts_view(pieces@) =~= texts_view(before).push(
            hyperlink_text(group_text(h@, cs[i as int], 1), group_text(h@, cs[i as int], 2), rv),
        ));
        assert(cs.take(i + 1) =~= cs.take(i as int).push(cs[i as int]));
        i = i + 1;
    }
    assert(cs.take(caps@.len() as int) =~= cs);
    Some(splice(h, &caps, &pieces))
}

/// Once the markers cannot be made, they cannot be made for more
/// paragraphs either.
proof fn lemma_number_marks_none(
    m: ListModel,
    h: Seq<char>,
    caps: Seq<Seq<Option<(usize, usize)>>>,
    levels: Seq<((usize, usize), LevelSpec)>,
    nums: Seq<(usize, usize)>,
    n: nat,
    k: nat,
)
    requires
        n <= k,
        number_marks(m, h, caps, levels, nums, n) is None,
    ensures
        number_marks(m, h, caps, levels, nums, k) is None,
    decreases k,
{
    if k > n {
        lemma_number_marks_none(m, h, caps, levels, nums, n, (k - 1) as nat);
    }
}

/// The abstract definition of numbering `num`.
fn lookup_num(nums: &Vec<(usize, usize)>, num: usize) -> (res: Option<usize>)
    ensures
        res == assoc_last(nums@, num),
{
    let mut i = nums.len();
    assert(nums@.take(i as int) =~= nums@);
    while i > 0
        invariant
            i <= nums@.len(),
            assoc_last(nums@, num) == assoc_last(nums@.take(i as int), num),
        decreases i,
    {
        assert(nums@.take(i as int).drop_last() =~= nums@.take(i - 1));
        if nums[i - 1].0 == num {
            return Some(nums[i - 1].1);
        }
        i = i - 1;
    }
    None
}

/// The level definition keyed `key`.
fn lookup_level(levels: &Vec<((usize, usize), LevelDef)>, key: (usize, usize)) -> (res: Option<&LevelDef>)
    ensures
        match res {
            Some(l) => assoc_last(levels_view(levels@), key) == Some(l@),
            None => assoc_last(levels_view(levels@), key) is None,
        },
{
    let mut i = levels.len();
    assert(levels_view(levels@).take(i as int) =~= levels_view(levels@));
    while i > 0
        invariant
            i <= levels@.len(),
            assoc_last(levels_view(levels@), key) == assoc_last(levels_view(levels@).take(i as int), key),
        decreases i,
    {
        assert(levels_view(levels@).take(i as int).drop_last() =~= levels_view(levels@).take(i - 1));
        let k = levels[i - 1].0;
        if k.0 == key.0 && k.1 == key.1 {
            return Some(&levels[i - 1].1);
        }
        i = i - 1;
    }
    None
}

/// The counting key of a level.
fn numbering_key_string(abs: usize, ilvl: usize) -> (res: String)
    ensures
        res@ == numbering_key(abs, ilvl),
{
    let mut key = decimal_string(abs);
    key.push(':');
    push_str(&mut key, decimal_string(ilvl).as_str());
    key
}

/// Step 9.
fn apply_numbering(h: &str, levels: &Vec<((usize, usize), LevelDef)>, nums: &Vec<(usize, usize)>) -> (res: Result<String, ConvertError>)
    ensures
        match res {
            Ok(r) => numbered(h@, levels_view(levels@), nums@) == Some(r@),
            Err(ConvertError::UnsupportedPattern) => !pattern_compiles(NUMPR_PATTERN@),
            Err(ConvertError::InvalidNumbering) => pattern_compiles(NUMPR_PATTERN@)
                && numbered(h@, levels_view(levels@), nums@) is None,
            Err(_) => false,
        },
{
    let caps = match find_captures(NUMPR_PATTERN, h) {
        Some(c) => c,
        None => return Err(ConvertError::UnsupportedPattern),
    };
    let ghost cs = spans_view(caps@);
    let ghost lv = levels_view(levels@);
    let mut state = ListState::new();
    let mut pieces: Vec<String> = Vec::new();
    let mut i: usize = 0;
    while i < caps.len()
        invariant
            cs == spans_view(caps@),
            cs == regex_captures(NUMPR_PATTERN@, h@),
            pattern_compiles(NUMPR_PATTERN@),
            lv == levels_view(levels@),
            caps_wf(cs, h.spec_bytes()),
            i <= caps@.len(),
            state.wf(),
            pieces@.len() == i,
            number_marks(initial_model(), h@, cs, lv, nums@, i as nat) == Some((state@, texts_view(pieces@))),
        decreases caps@.len() - i,
    {
        proof { lemma_match_spans(cs, h.spec_bytes(), caps@[i as int]@, i as int); }
        let ilvl = parse_or_default(group(h, &caps[i], 1), 0);
        let num = parse_or_default(group(h, &caps[i], 2), 0);
        let ghost before = texts_view(pieces@);
        let ghost m1 = state@;
        match lookup_num(nums, num) {
            None => {
                pieces.push(String::new());
                assert(texts_view(pieces@) =~= before.push(Seq::<char>::empty()));
            },
            Some(abs) => match lookup_level(levels, (abs, ilvl)) {
                None => {
                    pieces.push(String::new());
                    assert(texts_view(pieces@) =~= before.push(Seq::<char>::empty()));
                },
                Some(level) => {
                    let key = numbering_key_string(abs, ilvl);
                    match state.try_format_number(level, key.as_str()) {
                        None => {
                            proof {
                                lemma_number_marks_none(initial_model(), h@, cs, lv, nums@, (i + 1) as nat, cs.len());
                            }
                            return Err(ConvertError::InvalidNumbering);
                        },
                        Some(t) => {
                            pieces.push(t);
                            assert(texts_view(pieces@) =~= before.push(t@));
                        },
                    }
                },
            },
        }
        i = i + 1;
    }
    Ok(splice(h, &caps, &pieces))
}

/// Step 10.
fn apply_indents(h: &str) -> (res: Option<String>)
    ensures
        res is Some <==> pattern_compiles(INDENT_PATTERN@),
        res matches Some(r) ==> r@ == indents_applied(h@),
{
    let caps = find_captures(INDENT_PATTERN, h)?;
    let ghost cs = spans_view(caps@);
    let mut pieces: Vec<String> = Vec::new();
    let mut i: usize = 0;
    while i < caps.len()
        invariant
            cs == spans_view(caps@),
            caps_wf(cs, h.spec_bytes()),
            i <= caps@.len(),
            texts_view(pieces@) =~= cs.take(i as int).map_values(
                |c: Seq<Option<(usize, usize)>>|
                    spaces(indent_of(parse_or(group_text(h@, c, 1), 0), parse_or(group_text(h@, c, 2), 0)) as nat),
            ),
        decreases caps@.len() - i,
    {
        proof { lemma_match_spans(cs, h.spec_bytes(), caps@[i as int]@, i as int); }
        let val = parse_or_default(group(h, &caps[i], 1), 0);
        let hanging = parse_or_default(group(h, &caps[i], 2), 0);
        let n = if val >= hanging { (val - hanging) / 120 + if (val - hanging) % 120 >= 60 { 1 } else { 0 } } else { 0 };
        assert(n == indent_of(val, hanging));
        let piece = space_string(n);
        let ghost before = pieces@;
        pieces.push(piece);
        assert(texts_view(pieces@) =~= texts_view(before).push(spaces(indent_of(
            parse_or(group_text(h@, cs[i as int], 1), 0),
            parse_or(group_text(h@, cs[i as int], 2), 0),
        ) as nat)));
        assert(cs.take(i + 1) =~= cs.take(i as int).push(cs[i as int]));
        i = i + 1;
    }
    assert(cs.take(caps@.len() as int) =~= cs);
    Some(splice(h, &caps, &pieces))
}

/// Step 12.
fn apply_paragraphs(h: &str) -> (res: Option<String>)
    ensures
        pattern_compiles(PARAGRAPH_PATTERN@) && pattern_compiles(JC_PATTERN@) && pattern_compiles(ANY_TAG_PATTERN@)
            ==> res is Some,
        res matches Some(r) ==> r@ == paragraphs_applied(h@),
{
    let caps = find_captures(PARAGRAPH_PATTERN, h)?;
    let ghost cs = spans_view(caps@);
    let mut pieces: Vec<String> = Vec::new();
    let mut i: usize = 0;
    while i < caps.len()
        invariant
            cs == spans_view(caps@),
            caps_wf(cs, h.spec_bytes()),
            i <= caps@.len(),
            texts_view(pieces@) =~= cs.take(i as int).map_values(
                |c: Seq<Option<(usize, usize)>>| paragraph_text(group_text(h@, c, 1)),
            ),
        decreases caps@.len() - i,
    {
        proof { lemma_match_spans(cs, h.spec_bytes(), caps@[i as int]@, i as int); }
        let piece = process_paragraph(group(h, &caps[i], 1))?;
        let ghost before = pieces@;
        pieces.push(piece);
        assert(texts_view(pieces@) =~= texts_view(before).push(paragraph_text(group_text(h@, cs[i as int], 1))));
        assert(cs.take(i + 1) =~= cs.take(i as int).push(cs[i as int]));
        i = i + 1;
    }
    assert(cs.take(caps@.len() as int) =~= cs);
    Some(splice(h, &caps, &pieces))
}

/// Steps 10 to 15.
fn finish(h: &str) -> (res: Option<String>)
    ensures
        all_patterns_compile() ==> res is Some,
        res matches Some(r) ==> r@ == finished(h@),
        res matches Some(r) ==> has_no_specials(r@),
{
    let t10 = apply_indents(h)?;
    let t11 = replace_all_str(t10.as_str(), BREAK_PATTERN, NEWLINE)?;
    let t12 = apply_paragraphs(t11.as_str())?;
    let t13 = strip_str(t12.as_str(), ANY_TAG_PATTERN)?;
    let t14 = convert_special_chars(t13.as_str());
    proof { lemma_substituted_has_no_specials(t13@); }
    decode_entities(t14.as_str())
}

/// Converts a document given the text of its parts: the relationships part
/// (empty when absent), the numbering part (empty when absent) and the main
/// document part. The text holds no character of the special-character
/// table.
pub fn convert_parts(rels_xml: &str, numbering_xml: &str, document_xml: &str) -> (res: Result<String, ConvertError>)
    ensures
        match res {
            Ok(s) => convert_text(rels_xml@, numbering_xml@, document_xml@) == Some(s@),
            Err(ConvertError::UnsupportedPattern) => !all_patterns_compile(),
            Err(ConvertError::InvalidNumbering) => convert_text(rels_xml@, numbering_xml@, document_xml@) is None,
            Err(_) => false,
        },
        res matches Ok(s) ==> has_no_specials(s@),
        all_patterns_compile() ==> (res is Ok <==> convert_text(rels_xml@, numbering_xml@, document_xml@) is Some),
{
    let rels = match parse_rels(rels_xml) {
        Some(r) => r,
        None => return Err(ConvertError::UnsupportedPattern),
    };
    let (levels, nums) = match parse_numbering(numbering_xml) {
        Some(p) => p,
        None => return Err(ConvertError::UnsupportedPattern),
    };
    let t3 = match clean(document_xml) {
        Some(t) => t,
        None => return Err(ConvertError::UnsupportedPattern),
    };
    let t4 = match mark_superscripts(t3.as_str()) {
        Some(t) => t,
        None => return Err(ConvertError::UnsupportedPattern),
    };
    let t5 = expand_specials(t4.as_str());
    let hr = rule_string();
    let t6 = match replace_all_str(t5.as_str(), BORDER_PATTERN, hr.as_str()) {
        Some(t) => t,
        None => return Err(ConvertError::UnsupportedPattern),
    };
    let t7 = match apply_caps(t6.as_str()) {
        Some(t) => t,
        None => return Err(ConvertError::UnsupportedPattern),
    };
    let t8 = match apply_hyperlinks(t7.as_str(), &rels) {
        Some(t) => t,
        None => return Err(ConvertError::UnsupportedPattern),
    };
    let t9 = match apply_numbering(t8.as_str(), &levels, &nums) {
        Ok(t) => t,
        Err(e) => return Err(e),
    };
    match finish(t9.as_str()) {
        Some(t) => Ok(t),
        None => Err(ConvertError::UnsupportedPattern),
    }
}

/// The text of a package part; empty when the part is absent or is not
/// UTF-8 text.
pub open spec fn part_text(input: Seq<u8>, name: Seq<char>) -> Seq<char> {
    match entry_text(input, name) {
        Some(t) => t,
        None => Seq::empty(),
    }
}

/// The plain text of the package `input` whose main document part is
/// present; `None` when a list marker cannot be made.
pub open spec fn converted(input: Seq<u8>) -> Option<Seq<char>> {
    convert_text(
        part_text(input, RELS_PART@),
        part_text(input, NUMBERING_PART@),
        entry_text(input, DOCUMENT_PART@)->Some_0,
    )
}

/// Extracts the plain text of a .docx package. The text holds no character
/// of the special-character table: each has been replaced by its ASCII
/// rendering.
pub fn convert(input: &[u8]) -> (res: Result<String, ConvertError>)
    ensures
        match res {
            Ok(s) => archive_opens(input@) && entry_text(input@, DOCUMENT_PART@) is Some
                && converted(input@) == Some(s@),
            Err(ConvertError::InvalidArchive(_)) => !archive_opens(input@),
            Err(ConvertError::MissingDocument) => archive_opens(input@)
                && entry_text(input@, DOCUMENT_PART@) is None,
            Err(ConvertError::UnsupportedPattern) => archive_opens(input@)
                && entry_text(input@, DOCUMENT_PART@) is Some && !all_patterns_compile(),
            Err(ConvertError::InvalidNumbering) => archive_opens(input@)
                && entry_text(input@, DOCUMENT_PART@) is Some && converted(input@) is None,
        },
        archive_opens(input@) && entry_text(input@, DOCUMENT_PART@) is Some && all_patterns_compile()
            ==> (res is Ok <==> converted(input@) is Some),
        res matches Ok(s) ==> has_no_specials(s@),
{
    let mut archive = match open_package(input) {
        Ok(a) => a,
        Err(e) => return Err(ConvertError::InvalidArchive(zip_error_message(&e))),
    };
    let rels_xml = match extract_string(&mut archive, RELS_PART) {
        Some(s) => s,
        None => String::new(),
    };
    let numbering_xml = match extract_string(&mut archive, NUMBERING_PART) {
        Some(s) => s,
        None => String::new(),
    };
    let document_xml = match extract_string(&mut archive, DOCUMENT_PART) {
        Some(s) => s,
        None => return Err(ConvertError::MissingDocument),
    };
    convert_parts(rels_xml.as_str(), numbering_xml.as_str(), document_xml.as_str())
}

} // verus!
