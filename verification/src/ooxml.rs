//! The OOXML parts other than the main text: relationships, numbering
//! definitions, and the per-element helpers of the conversion.

use vstd::prelude::*;
use vstd::string::StringSliceAdditionalSpecFns;
use crate::captures::{
    all_chars, find_captures, group, group_text, lemma_replace_matches_chars, pattern_compiles,
    regex_captures, replace_all_str, replace_all_with, replace_matches, splice, spans_view, texts_view,
    CaptureSpans,
};
use crate::list::{counter_text, LevelDef, LevelSpec, NumFormat};
use crate::numerals::{letters, roman, upper_ascii};
use crate::strings::{decimal, parse_or, parse_usize_str};
use crate::tables::{special_chars_table, table_lookup};
use crate::text::{
    has_no_specials, is_ascii_text, justified, justify, lemma_ascii_has_no_specials, push_str, same_text,
};

verus! {

/// Whether hyperlink targets are appended to the link text.
pub const SHOW_HYPERLINK: bool = false;

/// The line terminator of the output.
pub const NEWLINE: &'static str = "\n";

/// A relationship of `word/_rels/document.xml.rels`: its id, the last path
/// segment of its type, and its target.
pub const REL_PATTERN: &'static str = r#"<Relationship Id="([^"]*)" Type="[^"]*?/([^/"]*)" Target="([^"]*)"[^/]*/>"#;

/// An abstract numbering definition: its id and its body.
pub const ABSTRACT_NUM_PATTERN: &'static str = r#"<w:abstractNum w:abstractNumId="(\d+)">(.*?)</w:abstractNum>"#;

/// One level of an abstract numbering definition.
pub const LEVEL_PATTERN: &'static str = r#"<w:lvl w:ilvl="(\d+)"[^>]*><w:start w:val="(\d+)"[^>]*><w:numFmt w:val="([^"]*)"[^>]*>.*?<w:lvlText w:val="([^"]*)"[^>]*>.*?<w:ind w:left="(\d+)" w:hanging="(\d+)"[^>]*>"#;

/// A concrete numbering and the abstract definition it uses.
pub const NUM_PATTERN: &'static str = r#"<w:num w:numId="(\d+)"><w:abstractNumId w:val="(\d+)""#;

/// Any tag, matched lazily up to the first `>`.
pub const TAG_PATTERN: &'static str = r"<[^>]*?>";

/// Any tag on one line.
pub const ANY_TAG_PATTERN: &'static str = r"<.*?>";

/// A paragraph's alignment.
pub const JC_PATTERN: &'static str = r#"<w:jc w:val="([^"]*)"/>"#;

/// The five predefined XML entities, in any letter case.
pub const ENTITY_PATTERN: &'static str = r"(?i)&(amp|apos|gt|lt|quot);";

/// `type:id` key of a relationship match, with its target.
pub open spec fn rel_entry(h: Seq<char>, c: Seq<Option<(usize, usize)>>) -> (Seq<char>, Seq<char>) {
    (group_text(h, c, 2) + seq![':'] + group_text(h, c, 1), group_text(h, c, 3))
}

/// The relationships of a `.rels` part, in document order.
pub open spec fn rels_spec(xml: Seq<char>) -> Seq<(Seq<char>, Seq<char>)> {
    regex_captures(REL_PATTERN@, xml).map_values(|c: Seq<Option<(usize, usize)>>| rel_entry(xml, c))
}

/// The value of the last pair of `s` with key `k`: later pairs override
/// earlier ones, as inserts into a map do.
pub open spec fn assoc_last<K, V>(s: Seq<(K, V)>, k: K) -> Option<V>
    decreases s.len(),
{
    if s.len() == 0 {
        None
    } else if s.last().0 == k {
        Some(s.last().1)
    } else {
        assoc_last(s.drop_last(), k)
    }
}

/// The view of a list of text pairs.
pub open spec fn pairs_view(v: Seq<(String, String)>) -> Seq<(Seq<char>, Seq<char>)> {
    v.map_values(|p: (String, String)| (p.0@, p.1@))
}

/// Collects the relationships of a `.rels` part as (`type:id`, target)
/// pairs; `None` when the pattern does not compile.
pub fn parse_rels(xml: &str) -> (res: Option<Vec<(String, String)>>)
    ensures
        res is Some <==> pattern_compiles(REL_PATTERN@),
        res matches Some(v) ==> pairs_view(v@) == rels_spec(xml@),
{
    let caps = find_captures(REL_PATTERN, xml)?;
    let ghost cs = spans_view(caps@);
    let mut out: Vec<(String, String)> = Vec::new();
    let mut i: usize = 0;
    while i < caps.len()
        invariant
            cs == spans_view(caps@),
            cs == regex_captures(REL_PATTERN@, xml@),
            crate::captures::caps_wf(cs, xml.spec_bytes()),
            i <= caps@.len(),
            pairs_view(out@) =~= cs.take(i as int).map_values(|c: Seq<Option<(usize, usize)>>| rel_entry(xml@, c)),
        decreases caps@.len() - i,
    {
        let c = &caps[i];
        assert(cs[i as int] == c@);
        assert(forall|k: int| 0 <= k < c@.len() && #[trigger] c@[k] is Some ==> cs[i as int][k] is Some);
        let id = group(xml, c, 1);
        let ty = group(xml, c, 2);
        let target = group(xml, c, 3);
        let mut key = ty.to_owned();
        key.push(':');
        push_str(&mut key, id);
        let ghost before = out@;
        let value = target.to_owned();
        assert((key@, value@) == rel_entry(xml@, cs[i as int]));
        out.push((key, value));
        assert(pairs_view(out@) =~= pairs_view(before).push(rel_entry(xml@, cs[i as int])));
        assert(cs.take(i + 1) =~= cs.take(i as int).push(cs[i as int]));
        i = i + 1;
    }
    assert(cs.take(caps@.len() as int) =~= cs);
    Some(out)
}

/// What a hyperlink element becomes: its text with the tags removed, and,
/// when `SHOW_HYPERLINK` is set and the link's target is known and differs
/// from the text, the target in brackets after it.
pub open spec fn hyperlink_text(rid: Seq<char>, inner: Seq<char>, rels: Seq<(Seq<char>, Seq<char>)>) -> Seq<char> {
    let text = replace_all_with(inner, regex_captures(TAG_PATTERN@, inner), Seq::empty());
    if SHOW_HYPERLINK {
        match assoc_last(rels, "hyperlink:"@ + rid) {
            Some(url) => if text != url { text + " [HYPERLINK: "@ + url + "]"@ } else { text },
            None => text,
        }
    } else {
        text
    }
}

/// The value of the last pair of `v` whose key is `key`.
pub fn lookup_pair<'a>(v: &'a Vec<(String, String)>, key: &str) -> (res: Option<&'a String>)
    ensures
        match res {
            Some(s) => assoc_last(pairs_view(v@), key@) == Some(s@),
            None => assoc_last(pairs_view(v@), key@) is None,
        },
{
    let mut i = v.len();
    assert(pairs_view(v@).take(i as int) =~= pairs_view(v@));
    while i > 0
        invariant
            i <= v@.len(),
            assoc_last(pairs_view(v@), key@) == assoc_last(pairs_view(v@).take(i as int), key@),
        decreases i,
    {
        assert(pairs_view(v@).take(i as int).drop_last() =~= pairs_view(v@).take(i - 1));
        if same_text(v[i - 1].0.as_str(), key) {
            return Some(&v[i - 1].1);
        }
        i = i - 1;
    }
    None
}

/// Renders a hyperlink element from its relationship id and its content;
/// `None` when the tag pattern does not compile.
pub fn process_hyperlink(rid: &str, inner_xml: &str, rels: &Vec<(String, String)>) -> (res: Option<String>)
    ensures
        res is Some <==> pattern_compiles(TAG_PATTERN@),
        res matches Some(s) ==> s@ == hyperlink_text(rid@, inner_xml@, pairs_view(rels@)),
{
    proof { reveal_strlit(""); }
    let text = replace_all_str(inner_xml, TAG_PATTERN, "")?;
    assert(""@ =~= Seq::<char>::empty());
    if SHOW_HYPERLINK {
        let mut key = "hyperlink:".to_owned();
        push_str(&mut key, rid);
        if let Some(url) = lookup_pair(rels, key.as_str()) {
            if !same_text(text.as_str(), url.as_str()) {
                let mut out = text;
                push_str(&mut out, " [HYPERLINK: ");
                push_str(&mut out, url.as_str());
                push_str(&mut out, "]");
                return Some(out);
            }
        }
    }
    Some(text)
}

/// What a paragraph's content becomes: its text with the tags removed and a
/// newline added, laid out for a `center` or `right` alignment.
pub open spec fn paragraph_text(inner: Seq<char>) -> Seq<char> {
    let jc = regex_captures(JC_PATTERN@, inner);
    let text = replace_all_with(inner, regex_captures(ANY_TAG_PATTERN@, inner), Seq::empty()) + NEWLINE@;
    if jc.len() > 0 {
        let a = group_text(inner, jc[0], 1);
        if a == "center"@ || a == "right"@ { justified(a, text) } else { text }
    } else {
        text
    }
}

/// Renders the content of a paragraph; `None` when one of its patterns does
/// not compile.
pub fn process_paragraph(inner: &str) -> (res: Option<String>)
    ensures
        res is Some <==> pattern_compiles(JC_PATTERN@) && pattern_compiles(ANY_TAG_PATTERN@),
        res matches Some(s) ==> s@ == paragraph_text(inner@),
{
    proof { reveal_strlit(""); }
    let jc = find_captures(JC_PATTERN, inner)?;
    let ghost jcs = spans_view(jc@);
    let mut text = replace_all_str(inner, ANY_TAG_PATTERN, "")?;
    assert(""@ =~= Seq::<char>::empty());
    push_str(&mut text, NEWLINE);
    if jc.len() > 0 {
        assert(jcs[0] == jc@[0]@);
        assert(forall|k: int| 0 <= k < jc@[0]@.len() && #[trigger] jc@[0]@[k] is Some ==> jcs[0][k] is Some);
        let a = group(inner, &jc[0], 1);
        if same_text(a, "center") || same_text(a, "right") {
            return Some(justify(a, text.as_str()));
        }
    }
    Some(text)
}

/// ASCII lower-casing of one character.
pub open spec fn lower_char(c: char) -> char {
    if 'A' <= c && c <= 'Z' { ((c as u32) + 32) as char } else { c }
}

/// ASCII lower-casing, as `str::to_ascii_lowercase` does.
pub open spec fn lower_ascii(s: Seq<char>) -> Seq<char> {
    s.map_values(|c: char| lower_char(c))
}

/// The character an entity name stands for (in any letter case); empty for
/// any other name.
pub open spec fn entity_value(name: Seq<char>) -> Seq<char> {
    let l = lower_ascii(name);
    if l == "amp"@ { "&"@ }
    else if l == "apos"@ { "'"@ }
    else if l == "gt"@ { ">"@ }
    else if l == "lt"@ { "<"@ }
    else if l == "quot"@ { "\""@ }
    else { Seq::empty() }
}

/// `input` with its predefined entities decoded.
pub open spec fn entities_decoded(input: Seq<char>) -> Seq<char> {
    let caps = regex_captures(ENTITY_PATTERN@, input);
    replace_matches(input, caps, caps.map_values(|c: Seq<Option<(usize, usize)>>| entity_value(group_text(input, c, 1))))
}

/// ASCII lower-casing of `s`.
pub fn to_ascii_lower(s: &str) -> (res: String)
    ensures
        res@ == lower_ascii(s@),
{
    let mut out = String::new();
    for c in it: s.chars()
        invariant
            it.seq() == s@,
            out@ =~= lower_ascii(s@.take(it.index() as int)),
    {
        let l = if 'A' <= c && c <= 'Z' {
            let b: u8 = (c as u32 + 32) as u8;
            b as char
        } else {
            c
        };
        out.push(l);
        assert(s@.take(it.index() + 1) =~= s@.take(it.index() as int).push(c));
    }
    assert(s@.take(s@.len() as int) =~= s@);
    out
}

fn entity_string(name: &str) -> (res: String)
    ensures
        res@ == entity_value(name@),
{
    proof { reveal_strlit(""); }
    let l = to_ascii_lower(name);
    let v = if same_text(l.as_str(), "amp") { "&" }
        else if same_text(l.as_str(), "apos") { "'" }
        else if same_text(l.as_str(), "gt") { ">" }
        else if same_text(l.as_str(), "lt") { "<" }
        else if same_text(l.as_str(), "quot") { "\"" }
        else { "" };
    assert(""@ =~= Seq::<char>::empty());
    v.to_owned()
}

/// An entity decodes to ASCII text, which has no character of the
/// substitution table.
proof fn lemma_entity_value_plain(name: Seq<char>)
    ensures
        has_no_specials(entity_value(name)),
{
    reveal_strlit("&");
    reveal_strlit("'");
    reveal_strlit(">");
    reveal_strlit("<");
    reveal_strlit("\"");
    let v = entity_value(name);
    assert(is_ascii_text(v)) by {
        assert forall|i: int| 0 <= i < v.len() implies (#[trigger] v[i] as u32) < 128 by {
            assert(v.len() <= 1);
        }
    }
    lemma_ascii_has_no_specials(v);
}

/// Decodes the five predefined XML entities; `None` when the pattern does
/// not compile. Decoding brings in no character of the substitution table.
pub fn decode_entities(input: &str) -> (res: Option<String>)
    ensures
        res is Some <==> pattern_compiles(ENTITY_PATTERN@),
        res matches Some(s) ==> s@ == entities_decoded(input@),
        res matches Some(s) ==> (has_no_specials(input@) ==> has_no_specials(s@)),
{
    let caps = find_captures(ENTITY_PATTERN, input)?;
    let ghost cs = spans_view(caps@);
    let mut pieces: Vec<String> = Vec::new();
    let mut i: usize = 0;
    while i < caps.len()
        invariant
            cs == spans_view(caps@),
            crate::captures::caps_wf(cs, input.spec_bytes()),
            i <= caps@.len(),
            texts_view(pieces@) =~= cs.take(i as int).map_values(
                |c: Seq<Option<(usize, usize)>>| entity_value(group_text(input@, c, 1)),
            ),
        decreases caps@.len() - i,
    {
        assert(cs[i as int] == caps@[i as int]@);
        assert(forall|k: int| 0 <= k < caps@[i as int]@.len() && #[trigger] caps@[i as int]@[k] is Some ==> cs[i as int][k] is Some);
        let name = group(input, &caps[i], 1);
        let ghost before = pieces@;
        pieces.push(entity_string(name));
        assert(texts_view(pieces@) =~= texts_view(before).push(entity_value(group_text(input@, cs[i as int], 1))));
        assert(cs.take(i + 1) =~= cs.take(i as int).push(cs[i as int]));
        i = i + 1;
    }
    assert(cs.take(caps@.len() as int) =~= cs);
    let out = splice(input, &caps, &pieces);
    proof {
        if has_no_specials(input@) {
            let p = |c: char| table_lookup(special_chars_table(), c) is None;
            let ps = texts_view(pieces@);
            assert(all_chars(input@, p)) by {
                assert forall|i: int| 0 <= i < input@.len() implies p(#[trigger] input@[i]) by {
                    assert(table_lookup(special_chars_table(), input@[i]) is None);
                }
            }
            assert forall|k: int| 0 <= k < ps.len() implies all_chars(#[trigger] ps[k], p) by {
                lemma_entity_value_plain(group_text(input@, cs[k], 1));
                assert(ps[k] == entity_value(group_text(input@, cs[k], 1)));
                assert forall|i: int| 0 <= i < ps[k].len() implies p(#[trigger] ps[k][i]) by {
                    assert(table_lookup(special_chars_table(), ps[k][i]) is None);
                }
            }
            lemma_replace_matches_chars(input@, cs, ps, p);
            let r = out@;
            assert forall|i: int| 0 <= i < r.len() implies table_lookup(special_chars_table(), #[trigger] r[i]) is None by {
                assert(p(r[i]));
            }
        }
    }
    Some(out)
}

/// With `SHOW_HYPERLINK` off, a hyperlink becomes just its text, whatever
/// the relationships say.
pub proof fn lemma_hyperlink_is_text(rid: Seq<char>, inner: Seq<char>, rels: Seq<(Seq<char>, Seq<char>)>)
    ensures
        hyperlink_text(rid, inner, rels) == replace_all_with(inner, regex_captures(TAG_PATTERN@, inner), Seq::empty()),
{
}

/// Entity names are decoded in any letter case.
pub proof fn lemma_entity_case_insensitive(name: Seq<char>)
    ensures
        entity_value(name) == entity_value(lower_ascii(name)),
{
    assert(lower_ascii(lower_ascii(name)) =~= lower_ascii(name));
}

/// The counter format named by a `w:numFmt` value, if it is one this
/// converter renders.
pub open spec fn level_format(name: Seq<char>) -> Option<NumFormat> {
    if name == "bullet"@ { Some(NumFormat::Bullet) }
    else if name == "decimal"@ { Some(NumFormat::Decimal) }
    else if name == "lowerLetter"@ { Some(NumFormat::LowerLetter) }
    else if name == "upperLetter"@ { Some(NumFormat::UpperLetter) }
    else if name == "lowerRoman"@ { Some(NumFormat::LowerRoman) }
    else if name == "upperRoman"@ { Some(NumFormat::UpperRoman) }
    else { None }
}

/// Each `w:numFmt` name gives the counter format of the same name: a level
/// read as `lowerRoman` counts `i, ii, iii`, as `upperRoman` `I, II, III`,
/// as `lowerLetter` `a, b, c`, as `upperLetter` `A, B, C`, as `decimal`
/// `1, 2, 3`; `bullet` has no counter; any other name is no format.
pub proof fn lemma_format_names()
    ensures
        level_format("bullet"@) == Some(NumFormat::Bullet),
        level_format("decimal"@) == Some(NumFormat::Decimal),
        level_format("lowerLetter"@) == Some(NumFormat::LowerLetter),
        level_format("upperLetter"@) == Some(NumFormat::UpperLetter),
        level_format("lowerRoman"@) == Some(NumFormat::LowerRoman),
        level_format("upperRoman"@) == Some(NumFormat::UpperRoman),
        forall|n: usize| counter_text(level_format("lowerRoman"@)->Some_0, n) == Some(roman(n as nat)),
        forall|n: usize| counter_text(level_format("upperRoman"@)->Some_0, n) == Some(upper_ascii(roman(n as nat))),
        forall|n: usize| counter_text(level_format("decimal"@)->Some_0, n) == Some(decimal(n as nat)),
        forall|n: usize| n >= 1 ==> counter_text(level_format("lowerLetter"@)->Some_0, n) == Some(letters(n as nat)),
        forall|n: usize| n >= 1 ==> counter_text(level_format("upperLetter"@)->Some_0, n)
            == Some(upper_ascii(letters(n as nat))),
        forall|n: usize| counter_text(level_format("bullet"@)->Some_0, n) is None,
        forall|name: Seq<char>| #[trigger] level_format(name) is Some ==> name == "bullet"@ || name == "decimal"@
            || name == "lowerLetter"@ || name == "upperLetter"@ || name == "lowerRoman"@ || name == "upperRoman"@,
{
    reveal_strlit("bullet");
    reveal_strlit("decimal");
    reveal_strlit("lowerLetter");
    reveal_strlit("upperLetter");
    reveal_strlit("lowerRoman");
    reveal_strlit("upperRoman");
    assert("bullet"@.len() == 6 && "decimal"@.len() == 7);
    assert("lowerLetter"@.len() == 11 && "upperLetter"@.len() == 11);
    assert("lowerRoman"@.len() == 10 && "upperRoman"@.len() == 10);
    assert("lowerLetter"@[0] == 'l' && "upperLetter"@[0] == 'u');
    assert("lowerRoman"@[0] == 'l' && "upperRoman"@[0] == 'u');
}

/// Spaces of indentation for a level indented `left` twips with a hanging
/// indent of `hanging` twips: `(left - hanging) / 120 + 0.5`, truncated
/// toward zero and never below zero.
pub open spec fn indent_of(left: usize, hanging: usize) -> usize {
    if left >= hanging { ((left - hanging + 60) / 120) as usize } else { 0 }
}

/// The level definition of one level match inside abstract definition
/// `abs`, keyed (abstract id, level); `None` for a format that is not
/// rendered.
pub open spec fn level_entry(inner: Seq<char>, c: Seq<Option<(usize, usize)>>, abs: usize) -> Option<((usize, usize), LevelSpec)> {
    match level_format(group_text(inner, c, 3)) {
        None => None,
        Some(f) => {
            let left = parse_or(group_text(inner, c, 5), 0);
            Some((
                (abs, parse_or(group_text(inner, c, 1), 0)),
                LevelSpec {
                    format: f,
                    text: group_text(inner, c, 4),
                    start: parse_or(group_text(inner, c, 2), 1),
                    indent: indent_of(left, parse_or(group_text(inner, c, 6), 0)),
                    left: left,
                },
            ))
        },
    }
}

/// The level definitions of the first `n` level matches.
pub open spec fn level_entries_upto(
    inner: Seq<char>,
    caps: Seq<Seq<Option<(usize, usize)>>>,
    abs: usize,
    n: nat,
) -> Seq<((usize, usize), LevelSpec)>
    decreases n,
{
    if n == 0 {
        Seq::empty()
    } else {
        let prev = level_entries_upto(inner, caps, abs, (n - 1) as nat);
        match level_entry(inner, caps[n - 1], abs) {
            Some(e) => prev.push(e),
            None => prev,
        }
    }
}

/// The level definitions in the body of abstract definition `abs`.
pub open spec fn level_entries(inner: Seq<char>, abs: usize) -> Seq<((usize, usize), LevelSpec)> {
    let caps = regex_captures(LEVEL_PATTERN@, inner);
    level_entries_upto(inner, caps, abs, caps.len())
}

/// The level definitions of the first `n` abstract definitions.
pub open spec fn abstract_entries_upto(
    xml: Seq<char>,
    caps: Seq<Seq<Option<(usize, usize)>>>,
    n: nat,
) -> Seq<((usize, usize), LevelSpec)>
    decreases n,
{
    if n == 0 {
        Seq::empty()
    } else {
        abstract_entries_upto(xml, caps, (n - 1) as nat) + level_entries(
            group_text(xml, caps[n - 1], 2),
            parse_or(group_text(xml, caps[n - 1], 1), 0),
        )
    }
}

/// All level definitions of a numbering part, in document order; a later
/// definition of the same key overrides an earlier one.
pub open spec fn numbering_levels(xml: Seq<char>) -> Seq<((usize, usize), LevelSpec)> {
    let caps = regex_captures(ABSTRACT_NUM_PATTERN@, xml);
    abstract_entries_upto(xml, caps, caps.len())
}

/// (numId, abstractNumId) of a numbering match.
pub open spec fn num_entry(xml: Seq<char>, c: Seq<Option<(usize, usize)>>) -> (usize, usize) {
    (parse_or(group_text(xml, c, 1), 0), parse_or(group_text(xml, c, 2), 0))
}

/// The numberings of a numbering part, in document order.
pub open spec fn numbering_nums(xml: Seq<char>) -> Seq<(usize, usize)> {
    regex_captures(NUM_PATTERN@, xml).map_values(|c: Seq<Option<(usize, usize)>>| num_entry(xml, c))
}

/// The view of a list of keyed level definitions.
pub open spec fn levels_view(v: Seq<((usize, usize), LevelDef)>) -> Seq<((usize, usize), LevelSpec)> {
    v.map_values(|e: ((usize, usize), LevelDef)| (e.0, e.1@))
}

/// `s` parsed as a `usize`, or `default`.
pub fn parse_or_default(s: &str, default: usize) -> (res: usize)
    ensures
        res == parse_or(s@, default),
{
    match parse_usize_str(s) {
        Some(v) => v,
        None => default,
    }
}

fn format_of(name: &str) -> (res: Option<NumFormat>)
    ensures
        res == level_format(name@),
{
    if same_text(name, "bullet") { Some(NumFormat::Bullet) }
    else if same_text(name, "decimal") { Some(NumFormat::Decimal) }
    else if same_text(name, "lowerLetter") { Some(NumFormat::LowerLetter) }
    else if same_text(name, "upperLetter") { Some(NumFormat::UpperLetter) }
    else if same_text(name, "lowerRoman") { Some(NumFormat::LowerRoman) }
    else if same_text(name, "upperRoman") { Some(NumFormat::UpperRoman) }
    else { None }
}

/// Appends the level definitions of one abstract definition body to `out`;
/// `None` when the level pattern does not compile.
fn parse_levels(inner: &str, abs: usize, out: &mut Vec<((usize, usize), LevelDef)>) -> (ok: bool)
    ensures
        ok <==> pattern_compiles(LEVEL_PATTERN@),
        ok ==> levels_view(final(out)@) == levels_view(old(out)@) + level_entries(inner@, abs),
{
    let caps = match find_captures(LEVEL_PATTERN, inner) {
        Some(c) => c,
        None => return false,
    };
    let ghost cs = spans_view(caps@);
    let ghost start = levels_view(out@);
    let mut i: usize = 0;
    while i < caps.len()
        invariant
            cs == spans_view(caps@),
            cs == regex_captures(LEVEL_PATTERN@, inner@),
            crate::captures::caps_wf(cs, inner.spec_bytes()),
            i <= caps@.len(),
            levels_view(out@) =~= start + level_entries_upto(inner@, cs, abs, i as nat),
        decreases caps@.len() - i,
    {
        let c = &caps[i];
        assert(cs[i as int] == c@);
        assert(forall|k: int| 0 <= k < c@.len() && #[trigger] c@[k] is Some ==> cs[i as int][k] is Some);
        let fmt = format_of(group(inner, c, 3));
        let ghost before = levels_view(out@);
        match fmt {
            Some(format) => {
                let ilvl = parse_or_default(group(inner, c, 1), 0);
                let start_at = parse_or_default(group(inner, c, 2), 1);
                let left = parse_or_default(group(inner, c, 5), 0);
                let hanging = parse_or_default(group(inner, c, 6), 0);
                let indent = if left >= hanging { (left - hanging) / 120 + if (left - hanging) % 120 >= 60 { 1 } else { 0 } } else { 0 };
                assert(indent == indent_of(left, hanging));
                let def = LevelDef {
                    format: format,
                    lvl_text: group(inner, c, 4).to_owned(),
                    start: start_at,
                    indent_spaces: indent,
                    left_twips: left,
                };
                out.push(((abs, ilvl), def));
                assert(levels_view(out@) =~= before.push(level_entry(inner@, cs[i as int], abs)->Some_0));
            },
            None => {
                assert(levels_view(out@) =~= before);
            },
        }
        i = i + 1;
    }
    true
}

/// Collects the level definitions of all abstract definitions; `false` when
/// the level pattern does not compile.
fn parse_abstracts(xml: &str, caps: &Vec<CaptureSpans>, levels: &mut Vec<((usize, usize), LevelDef)>) -> (ok: bool)
    requires
        spans_view(caps@) == regex_captures(ABSTRACT_NUM_PATTERN@, xml@),
        crate::captures::caps_wf(spans_view(caps@), xml.spec_bytes()),
        old(levels)@.len() == 0,
    ensures
        pattern_compiles(LEVEL_PATTERN@) ==> ok,
        ok ==> levels_view(final(levels)@) == numbering_levels(xml@),
{
    let ghost cs = spans_view(caps@);
    let mut i: usize = 0;
    assert(levels_view(levels@) =~= Seq::<((usize, usize), LevelSpec)>::empty());
    while i < caps.len()
        invariant
            cs == spans_view(caps@),
            cs == regex_captures(ABSTRACT_NUM_PATTERN@, xml@),
            crate::captures::caps_wf(cs, xml.spec_bytes()),
            i <= caps@.len(),
            levels_view(levels@) =~= abstract_entries_upto(xml@, cs, i as nat),
        decreases caps@.len() - i,
    {
        let c = &caps[i];
        assert(cs[i as int] == c@);
        assert(forall|k: int| 0 <= k < c@.len() && #[trigger] c@[k] is Some ==> cs[i as int][k] is Some);
        let abs = parse_or_default(group(xml, c, 1), 0);
        let inner = group(xml, c, 2);
        if !parse_levels(inner, abs, levels) {
            return false;
        }
        i = i + 1;
    }
    true
}

/// Collects the (numId, abstractNumId) pairs.
fn parse_nums(xml: &str, ncaps: &Vec<CaptureSpans>) -> (nums: Vec<(usize, usize)>)
    requires
        spans_view(ncaps@) == regex_captures(NUM_PATTERN@, xml@),
        crate::captures::caps_wf(spans_view(ncaps@), xml.spec_bytes()),
    ensures
        nums@ == numbering_nums(xml@),
{
    let ghost ns = spans_view(ncaps@);
    let mut nums: Vec<(usize, usize)> = Vec::new();
    let mut j: usize = 0;
    while j < ncaps.len()
        invariant
            ns == spans_view(ncaps@),
            ns == regex_captures(NUM_PATTERN@, xml@),
            crate::captures::caps_wf(ns, xml.spec_bytes()),
            j <= ncaps@.len(),
            nums@ =~= ns.take(j as int).map_values(|c: Seq<Option<(usize, usize)>>| num_entry(xml@, c)),
        decreases ncaps@.len() - j,
    {
        let c = &ncaps[j];
        assert(ns[j as int] == c@);
        assert(forall|k: int| 0 <= k < c@.len() && #[trigger] c@[k] is Some ==> ns[j as int][k] is Some);
        let num_id = parse_or_default(group(xml, c, 1), 0);
        let abs = parse_or_default(group(xml, c, 2), 0);
        nums.push((num_id, abs));
        assert(ns.take(j + 1) =~= ns.take(j as int).push(ns[j as int]));
        j = j + 1;
    }
    assert(ns.take(ncaps@.len() as int) =~= ns);
    nums
}

/// Collects the level definitions and the numberings of a numbering part;
/// `None` when one of the patterns does not compile.
pub fn parse_numbering(xml: &str) -> (res: Option<(Vec<((usize, usize), LevelDef)>, Vec<(usize, usize)>)>)
    ensures
        pattern_compiles(ABSTRACT_NUM_PATTERN@) && pattern_compiles(LEVEL_PATTERN@) && pattern_compiles(NUM_PATTERN@)
            ==> res is Some,
        res is Some ==> pattern_compiles(ABSTRACT_NUM_PATTERN@) && pattern_compiles(NUM_PATTERN@),
        res matches Some((levels, nums)) ==> levels_view(levels@) == numbering_levels(xml@) && nums@ == numbering_nums(xml@),
{
    let caps = find_captures(ABSTRACT_NUM_PATTERN, xml)?;
    let mut levels: Vec<((usize, usize), LevelDef)> = Vec::new();
    if !parse_abstracts(xml, &caps, &mut levels) {
        return None;
    }
    let ncaps = find_captures(NUM_PATTERN, xml)?;
    let nums = parse_nums(xml, &ncaps);
    Some((levels, nums))
}

} // verus!
