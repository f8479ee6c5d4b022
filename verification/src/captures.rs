//! Regular-expression search, and the verified splicing of its matches.
//!
//! The regex crate finds the matches; everything done with them (cutting the
//! text at the reported byte offsets, building the replacement text) is
//! verified here.

use vstd::prelude::*;
use vstd::string::StringSliceAdditionalSpecFns;
use vstd::utf8::{
    decode_utf8, decode_utf8_split, encode_utf8, encode_utf8_decode_utf8, encode_utf8_valid_utf8, is_char_boundary,
    is_char_boundary_iff_not_is_continuation_byte, is_char_boundary_start_end_of_seq, valid_utf8,
    valid_utf8_split,
};

verus! {

/// The capture groups of one match: `(start, end)` byte offsets of each
/// group, group 0 being the whole match; `None` for a group that did not
/// take part in the match.
pub type CaptureSpans = Vec<Option<(usize, usize)>>;

/// The spans of a list of matches.
pub open spec fn spans_view(v: Seq<CaptureSpans>) -> Seq<Seq<Option<(usize, usize)>>> {
    v.map_values(|c: CaptureSpans| c@)
}

/// The texts of a list of strings.
pub open spec fn texts_view(v: Seq<String>) -> Seq<Seq<char>> {
    v.map_values(|s: String| s@)
}

/// Whether the regex crate accepts `pattern` (what `Regex::new` decides).
pub uninterp spec fn pattern_compiles(pattern: Seq<char>) -> bool;

/// The capture spans of the successive non-overlapping matches of `pattern`
/// in `hay`, in the order `Regex::captures_iter` yields them.
pub uninterp spec fn regex_captures(pattern: Seq<char>, hay: Seq<char>) -> Seq<Seq<Option<(usize, usize)>>>;

/// A byte range of `bytes` that starts and ends on character boundaries.
pub open spec fn span_ok(bytes: Seq<u8>, sp: (usize, usize)) -> bool {
    &&& sp.0 <= sp.1
    &&& sp.1 <= bytes.len()
    &&& is_char_boundary(bytes, sp.0 as int)
    &&& is_char_boundary(bytes, sp.1 as int)
}

/// Start offset of a match.
pub open spec fn match_start(c: Seq<Option<(usize, usize)>>) -> int {
    c[0]->Some_0.0 as int
}

/// End offset of a match.
pub open spec fn match_end(c: Seq<Option<(usize, usize)>>) -> int {
    c[0]->Some_0.1 as int
}

/// What the regex crate documents of `captures_iter` over a haystack whose
/// UTF-8 encoding is `bytes`: every match has its group 0; every reported
/// span lies in the haystack with both ends on character boundaries; the
/// matches come in order and do not overlap.
pub open spec fn caps_wf(caps: Seq<Seq<Option<(usize, usize)>>>, bytes: Seq<u8>) -> bool {
    &&& forall|i: int| 0 <= i < caps.len() ==> #[trigger] caps[i].len() >= 1 && caps[i][0] is Some
    &&& forall|i: int, g: int|
        0 <= i < caps.len() && 0 <= g < caps[i].len() && #[trigger] caps[i][g] is Some
            ==> span_ok(bytes, caps[i][g]->Some_0)
    &&& forall|i: int| 0 <= i < caps.len() - 1 ==> match_end(#[trigger] caps[i]) <= match_start(caps[i + 1])
}

/// The text between byte offsets `a` and `b` of the UTF-8 encoding of `h`.
pub open spec fn seg(h: Seq<char>, a: int, b: int) -> Seq<char> {
    decode_utf8(encode_utf8(h).subrange(a, b))
}

/// The text of group `g` of a match, empty when the group did not take part.
pub open spec fn group_text(h: Seq<char>, c: Seq<Option<(usize, usize)>>, g: int) -> Seq<char> {
    if 0 <= g < c.len() && c[g] is Some {
        seg(h, c[g]->Some_0.0 as int, c[g]->Some_0.1 as int)
    } else {
        Seq::empty()
    }
}

/// Where the text after the `n`-th match starts.
pub open spec fn prev_end(caps: Seq<Seq<Option<(usize, usize)>>>, n: int) -> int {
    if n <= 0 { 0 } else { match_end(caps[n - 1]) }
}

/// The output up to the end of the `n`-th replaced match: the text between
/// matches kept, each match replaced by its piece.
pub open spec fn spliced(h: Seq<char>, caps: Seq<Seq<Option<(usize, usize)>>>, pieces: Seq<Seq<char>>, n: nat) -> Seq<char>
    decreases n,
{
    if n == 0 {
        Seq::empty()
    } else {
        spliced(h, caps, pieces, (n - 1) as nat) + seg(h, prev_end(caps, n - 1), match_start(caps[n - 1]))
            + pieces[n - 1]
    }
}

/// `h` with every match of `caps` replaced by the corresponding piece.
pub open spec fn replace_matches(h: Seq<char>, caps: Seq<Seq<Option<(usize, usize)>>>, pieces: Seq<Seq<char>>) -> Seq<char> {
    spliced(h, caps, pieces, caps.len()) + seg(h, prev_end(caps, caps.len() as int), encode_utf8(h).len() as int)
}

#[verifier::external_type_specification]
#[verifier::external_body]
pub struct ExRegex(regex::Regex);

#[verifier::external_type_specification]
#[verifier::external_body]
pub struct ExRegexError(regex::Error);

/// The pattern that `Regex::new` was given to make this regex. Every regex
/// of this library comes from `Regex::new` (see `compile_pattern`), whose
/// matching is fixed by that pattern alone; a regex built otherwise, with a
/// `RegexBuilder`, may match differently under the same pattern, and no
/// claim of this library covers it.
pub uninterp spec fn regex_pattern(re: regex::Regex) -> Seq<char>;

/// Compiles `pattern`.
///
/// Calls `regex::Regex::new`. Trusted: it succeeds exactly when
/// `pattern_compiles` says, and the regex keeps its pattern. Nothing is
/// stated of which patterns compile.
#[verifier::external_body]
pub(crate) fn compile_pattern(pattern: &str) -> (res: Result<regex::Regex, regex::Error>)
    ensures
        res is Ok <==> pattern_compiles(pattern@),
        res matches Ok(re) ==> regex_pattern(re) == pattern@,
{
    regex::Regex::new(pattern)
}

/// The matches of `re` in `hay`, with the spans of their capture groups.
///
/// Calls `Regex::captures_iter` and takes `start` and `end` of each group.
/// Trusted: the result is `regex_captures` of the regex's pattern and the
/// haystack, and what the regex crate documents of the spans (see
/// `caps_wf`). Nothing is stated of which matches a pattern has.
#[verifier::external_body]
pub(crate) fn captures_in(re: &regex::Regex, hay: &str) -> (res: Vec<CaptureSpans>)
    ensures
        spans_view(res@) == regex_captures(regex_pattern(*re), hay@),
        caps_wf(spans_view(res@), hay.spec_bytes()),
{
    re.captures_iter(hay)
        .map(|c| c.iter().map(|g| g.map(|m| (m.start(), m.end()))).collect())
        .collect()
}

/// Finds the matches of `pattern` in `hay`, with the spans of their capture
/// groups; `None` when the pattern does not compile.
pub fn find_captures(pattern: &str, hay: &str) -> (res: Option<Vec<CaptureSpans>>)
    ensures
        res is Some <==> pattern_compiles(pattern@),
        res matches Some(v) ==> spans_view(v@) == regex_captures(pattern@, hay@),
        res matches Some(v) ==> caps_wf(spans_view(v@), hay.spec_bytes()),
{
    match compile_pattern(pattern) {
        Ok(re) => Some(captures_in(&re, hay)),
        Err(_) => None,
    }
}

proof fn lemma_boundary_in_prefix(bytes: Seq<u8>, a: int, b: int)
    requires
        valid_utf8(bytes),
        0 <= a <= b <= bytes.len(),
        is_char_boundary(bytes, a),
        is_char_boundary(bytes, b),
    ensures
        valid_utf8(bytes.subrange(0, b)),
        is_char_boundary(bytes.subrange(0, b), a),
{
    valid_utf8_split(bytes, b);
    let p = bytes.subrange(0, b);
    if a == b {
        is_char_boundary_start_end_of_seq(p);
    } else {
        is_char_boundary_iff_not_is_continuation_byte(bytes, a);
        is_char_boundary_iff_not_is_continuation_byte(p, a);
    }
}

/// The part of `s` between the byte offsets `a` and `b`.
pub fn slice(s: &str, a: usize, b: usize) -> (r: &str)
    requires
        span_ok(s.spec_bytes(), (a, b)),
    ensures
        r@ == seg(s@, a as int, b as int),
{
    proof {
        encode_utf8_valid_utf8(s@);
        lemma_boundary_in_prefix(s.spec_bytes(), a as int, b as int);
    }
    let (p, _) = s.split_at(b);
    let (_, r) = p.split_at(a);
    proof {
        assert(r.spec_bytes() =~= s.spec_bytes().subrange(a as int, b as int));
        encode_utf8_decode_utf8(r@);
    }
    r
}

/// The text of group `g` of the match `c`, empty when it did not take part.
pub fn group<'a>(hay: &'a str, c: &CaptureSpans, g: usize) -> (r: &'a str)
    requires
        forall|k: int| 0 <= k < c@.len() && #[trigger] c@[k] is Some ==> span_ok(hay.spec_bytes(), c@[k]->Some_0),
    ensures
        r@ == group_text(hay@, c@, g as int),
{
    let empty = "";
    proof {
        reveal_strlit("");
        assert(empty@ =~= Seq::<char>::empty());
    }
    if g < c.len() {
        match c[g] {
            Some((a, b)) => {
                assert(c@[g as int] is Some);
                slice(hay, a, b)
            },
            None => empty,
        }
    } else {
        empty
    }
}

/// `h` with every match of `caps` replaced by `r`.
pub open spec fn replace_all_with(h: Seq<char>, caps: Seq<Seq<Option<(usize, usize)>>>, r: Seq<char>) -> Seq<char> {
    replace_matches(h, caps, Seq::new(caps.len(), |i: int| r))
}

/// The first element of `s` alone, if there is one.
pub open spec fn first_only<T>(s: Seq<T>) -> Seq<T> {
    if s.len() > 1 { s.take(1) } else { s }
}

/// `Regex::replace_all` of `pattern` in `hay` by the fixed text `rep` (which
/// holds no `$`); `None` when the pattern does not compile.
pub fn replace_all_str(hay: &str, pattern: &str, rep: &str) -> (res: Option<String>)
    ensures
        res is Some <==> pattern_compiles(pattern@),
        res matches Some(r) ==> r@ == replace_all_with(hay@, regex_captures(pattern@, hay@), rep@),
{
    let caps = find_captures(pattern, hay)?;
    let pieces = repeat_text(rep, caps.len());
    assert(texts_view(pieces@) =~= Seq::new(caps@.len() as nat, |i: int| rep@));
    Some(splice(hay, &caps, &pieces))
}

/// `Regex::replace` (the first match only) of `pattern` in `hay` by the
/// fixed text `rep`; `None` when the pattern does not compile.
pub fn replace_first_str(hay: &str, pattern: &str, rep: &str) -> (res: Option<String>)
    ensures
        res is Some <==> pattern_compiles(pattern@),
        res matches Some(r) ==> r@ == replace_all_with(hay@, first_only(regex_captures(pattern@, hay@)), rep@),
{
    let mut caps = find_captures(pattern, hay)?;
    let ghost all = caps@;
    caps.truncate(1);
    assert(spans_view(caps@) =~= first_only(spans_view(all)));
    let pieces = repeat_text(rep, caps.len());
    assert(texts_view(pieces@) =~= Seq::new(caps@.len() as nat, |i: int| rep@));
    Some(splice(hay, &caps, &pieces))
}

/// `n` copies of `s`.
fn repeat_text(s: &str, n: usize) -> (res: Vec<String>)
    ensures
        res@.len() == n,
        forall|i: int| 0 <= i < n ==> (#[trigger] res@[i])@ == s@,
{
    let mut v: Vec<String> = Vec::new();
    let mut i: usize = 0;
    while i < n
        invariant
            i <= n,
            v@.len() == i,
            forall|k: int| 0 <= k < i ==> (#[trigger] v@[k])@ == s@,
        decreases n - i,
    {
        v.push(s.to_owned());
        i = i + 1;
    }
    v
}

/// Replaces every match of `caps` in `hay` by the corresponding piece,
/// keeping the text between matches.
pub fn splice(hay: &str, caps: &Vec<CaptureSpans>, pieces: &Vec<String>) -> (res: String)
    requires
        caps_wf(spans_view(caps@), hay.spec_bytes()),
        pieces@.len() == caps@.len(),
    ensures
        res@ == replace_matches(hay@, spans_view(caps@), texts_view(pieces@)),
{
    let ghost cs = spans_view(caps@);
    let ghost ps = texts_view(pieces@);
    let ghost bytes = hay.spec_bytes();
    let n = caps.len();
    let mut out = String::new();
    let mut last: usize = 0;
    let mut i: usize = 0;
    proof {
        encode_utf8_valid_utf8(hay@);
        is_char_boundary_start_end_of_seq(bytes);
    }
    while i < n
        invariant
            n == caps@.len(),
            n == pieces@.len(),
            cs == spans_view(caps@),
            ps == texts_view(pieces@),
            bytes == hay.spec_bytes(),
            caps_wf(cs, bytes),
            i <= n,
            last as int == prev_end(cs, i as int),
            last <= bytes.len(),
            is_char_boundary(bytes, last as int),
            out@ == spliced(hay@, cs, ps, i as nat),
        decreases n - i,
    {
        let c = &caps[i];
        assert(cs[i as int] == c@);
        assert(cs[i as int].len() >= 1 && cs[i as int][0] is Some);
        let (s, e) = match c[0] {
            Some(sp) => sp,
            None => (0, 0),
        };
        assert(cs[i as int][0] is Some);
        assert(span_ok(bytes, (s, e)));
        if i > 0 {
            assert(match_end(cs[i - 1]) <= match_start(cs[(i - 1) + 1]));
        }
        let before = slice(hay, last, s);
        crate::text::push_str(&mut out, before);
        crate::text::push_str(&mut out, pieces[i].as_str());
        last = e;
        i = i + 1;
    }
    let rest = slice(hay, last, hay.as_bytes().len());
    crate::text::push_str(&mut out, rest);
    out
}


/// Two adjacent pieces of text, cut at character boundaries, join into the
/// piece that spans both.
pub proof fn lemma_seg_concat(h: Seq<char>, a: int, b: int, c: int)
    requires
        0 <= a <= b <= c <= encode_utf8(h).len(),
        is_char_boundary(encode_utf8(h), a),
        is_char_boundary(encode_utf8(h), b),
        is_char_boundary(encode_utf8(h), c),
    ensures
        seg(h, a, b) + seg(h, b, c) == seg(h, a, c),
{
    let bytes = encode_utf8(h);
    encode_utf8_valid_utf8(h);
    lemma_boundary_in_prefix(bytes, a, c);
    let p = bytes.subrange(0, c);
    valid_utf8_split(p, a);
    let x = bytes.subrange(a, c);
    assert(p.subrange(a, p.len() as int) =~= x);
    if b < c {
        is_char_boundary_iff_not_is_continuation_byte(bytes, b);
        is_char_boundary_iff_not_is_continuation_byte(x, b - a);
    } else {
        is_char_boundary_start_end_of_seq(x);
    }
    decode_utf8_split(x, b - a);
    assert(x.subrange(0, b - a) =~= bytes.subrange(a, b));
    assert(x.subrange(b - a, x.len() as int) =~= bytes.subrange(b, c));
}

/// The text of the whole of `h`.
pub proof fn lemma_seg_whole(h: Seq<char>)
    ensures
        seg(h, 0, encode_utf8(h).len() as int) == h,
{
    assert(encode_utf8(h).subrange(0, encode_utf8(h).len() as int) =~= encode_utf8(h));
    encode_utf8_decode_utf8(h);
}

/// Each match replaced by its own text.
pub open spec fn own_texts(h: Seq<char>, caps: Seq<Seq<Option<(usize, usize)>>>) -> Seq<Seq<char>> {
    caps.map_values(|c: Seq<Option<(usize, usize)>>| seg(h, match_start(c), match_end(c)))
}

proof fn lemma_spliced_own(h: Seq<char>, caps: Seq<Seq<Option<(usize, usize)>>>, n: nat)
    requires
        caps_wf(caps, encode_utf8(h)),
        n <= caps.len(),
    ensures
        spliced(h, caps, own_texts(h, caps), n) == seg(h, 0, prev_end(caps, n as int)),
        is_char_boundary(encode_utf8(h), prev_end(caps, n as int)),
        0 <= prev_end(caps, n as int) <= encode_utf8(h).len(),
    decreases n,
{
    let bytes = encode_utf8(h);
    encode_utf8_valid_utf8(h);
    is_char_boundary_start_end_of_seq(bytes);
    if n == 0 {
        assert(bytes.subrange(0, 0) =~= Seq::<u8>::empty());
        assert(decode_utf8(Seq::<u8>::empty()) =~= Seq::<char>::empty());
    } else {
        lemma_spliced_own(h, caps, (n - 1) as nat);
        let c = caps[n - 1];
        assert(c.len() >= 1 && c[0] is Some);
        assert(span_ok(bytes, c[0]->Some_0));
        if n >= 2 {
            assert(match_end(caps[n - 2]) <= match_start(caps[(n - 2) + 1]));
        }
        let pe = prev_end(caps, n - 1);
        let st = match_start(c);
        let en = match_end(c);
        lemma_seg_concat(h, 0, pe, st);
        lemma_seg_concat(h, 0, st, en);
        assert(own_texts(h, caps)[n - 1] == seg(h, st, en));
    }
}

/// Splicing is faithful: replacing every match by its own text gives back
/// the text searched.
pub proof fn lemma_replace_with_own_text(h: Seq<char>, caps: Seq<Seq<Option<(usize, usize)>>>)
    requires
        caps_wf(caps, encode_utf8(h)),
    ensures
        replace_matches(h, caps, own_texts(h, caps)) == h,
{
    let bytes = encode_utf8(h);
    lemma_spliced_own(h, caps, caps.len());
    encode_utf8_valid_utf8(h);
    is_char_boundary_start_end_of_seq(bytes);
    lemma_seg_concat(h, 0, prev_end(caps, caps.len() as int), bytes.len() as int);
    lemma_seg_whole(h);
}

/// Where a pattern has no match, replacing its matches leaves the text as
/// it is.
pub proof fn lemma_no_match_unchanged(h: Seq<char>, r: Seq<char>)
    ensures
        replace_all_with(h, Seq::empty(), r) == h,
{
    lemma_seg_whole(h);
}


/// Every character of `s` has the property `p`.
pub open spec fn all_chars(s: Seq<char>, p: spec_fn(char) -> bool) -> bool {
    forall|i: int| 0 <= i < s.len() ==> p(#[trigger] s[i])
}

/// A piece cut at character boundaries is a stretch of the text, so it
/// keeps any property that every character of the text has.
proof fn lemma_seg_chars(h: Seq<char>, a: int, b: int, p: spec_fn(char) -> bool)
    requires
        0 <= a <= b <= encode_utf8(h).len(),
        is_char_boundary(encode_utf8(h), a),
        is_char_boundary(encode_utf8(h), b),
        all_chars(h, p),
    ensures
        all_chars(seg(h, a, b), p),
{
    let bytes = encode_utf8(h);
    let n = bytes.len() as int;
    encode_utf8_valid_utf8(h);
    is_char_boundary_start_end_of_seq(bytes);
    lemma_seg_concat(h, 0, a, b);
    lemma_seg_concat(h, 0, b, n);
    lemma_seg_whole(h);
    let x = seg(h, 0, a);
    let y = seg(h, a, b);
    assert(h == x + y + seg(h, b, n));
    assert forall|i: int| 0 <= i < y.len() implies p(#[trigger] y[i]) by {
        assert(y[i] == h[x.len() + i]);
    }
}

proof fn lemma_spliced_chars(
    h: Seq<char>,
    caps: Seq<Seq<Option<(usize, usize)>>>,
    pieces: Seq<Seq<char>>,
    n: nat,
    p: spec_fn(char) -> bool,
)
    requires
        caps_wf(caps, encode_utf8(h)),
        n <= caps.len(),
        n <= pieces.len(),
        all_chars(h, p),
        forall|k: int| 0 <= k < n ==> all_chars(#[trigger] pieces[k], p),
    ensures
        all_chars(spliced(h, caps, pieces, n), p),
    decreases n,
{
    if n > 0 {
        lemma_spliced_chars(h, caps, pieces, (n - 1) as nat, p);
        lemma_spliced_own(h, caps, (n - 1) as nat);
        let bytes = encode_utf8(h);
        let c = caps[n - 1];
        assert(c.len() >= 1 && c[0] is Some);
        assert(span_ok(bytes, c[0]->Some_0));
        if n >= 2 {
            assert(match_end(caps[n - 2]) <= match_start(caps[(n - 2) + 1]));
        }
        let pe = prev_end(caps, n - 1);
        let st = match_start(c);
        lemma_seg_chars(h, pe, st, p);
        assert(all_chars(pieces[n - 1], p));
        let a = spliced(h, caps, pieces, (n - 1) as nat);
        let b = seg(h, pe, st);
        let d = pieces[n - 1];
        let out = a + b + d;
        assert forall|i: int| 0 <= i < out.len() implies p(#[trigger] out[i]) by {
            if i < a.len() {
                assert(out[i] == a[i]);
            } else if i < a.len() + b.len() {
                assert(out[i] == b[i - a.len()]);
            } else {
                assert(out[i] == d[i - a.len() - b.len()]);
            }
        }
    }
}

/// Replacing matches keeps any property of characters that the text and
/// every replacement piece have.
pub proof fn lemma_replace_matches_chars(
    h: Seq<char>,
    caps: Seq<Seq<Option<(usize, usize)>>>,
    pieces: Seq<Seq<char>>,
    p: spec_fn(char) -> bool,
)
    requires
        caps_wf(caps, encode_utf8(h)),
        pieces.len() == caps.len(),
        all_chars(h, p),
        forall|k: int| 0 <= k < pieces.len() ==> all_chars(#[trigger] pieces[k], p),
    ensures
        all_chars(replace_matches(h, caps, pieces), p),
{
    let bytes = encode_utf8(h);
    lemma_spliced_chars(h, caps, pieces, caps.len(), p);
    lemma_spliced_own(h, caps, caps.len());
    encode_utf8_valid_utf8(h);
    is_char_boundary_start_end_of_seq(bytes);
    let pe = prev_end(caps, caps.len() as int);
    lemma_seg_chars(h, pe, bytes.len() as int, p);
    let a = spliced(h, caps, pieces, caps.len());
    let b = seg(h, pe, bytes.len() as int);
    let out = a + b;
    assert forall|i: int| 0 <= i < out.len() implies p(#[trigger] out[i]) by {
        if i < a.len() {
            assert(out[i] == a[i]);
        } else {
            assert(out[i] == b[i - a.len()]);
        }
    }
}

} // verus!
