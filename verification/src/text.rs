//! Character-level text transformations.

use vstd::prelude::*;
use crate::tables::{keys_distinct, special_chars_map, special_chars_table, table_lookup, lookup};

verus! {

/// Width of the text page that centred and right-aligned paragraphs are laid
/// out on.
pub const LINE_WIDTH: usize = 80;

/// The number of bytes of the UTF-8 encoding of `s`, which is what `str::len`
/// counts.
pub open spec fn byte_len(s: Seq<char>) -> nat {
    vstd::utf8::encode_utf8(s).len()
}

/// `n` spaces.
pub open spec fn spaces(n: nat) -> Seq<char> {
    Seq::new(n, |i: int| ' ')
}

/// What `c` becomes in the ASCII rendering: its table replacement, or itself.
pub open spec fn special_sub(c: char) -> Seq<char> {
    match table_lookup(special_chars_table(), c) {
        Some(r) => r@,
        None => seq![c],
    }
}

/// Every character of `s` replaced by `special_sub` of it.
pub open spec fn substitute_specials(s: Seq<char>) -> Seq<char>
    decreases s.len(),
{
    if s.len() == 0 {
        Seq::empty()
    } else {
        substitute_specials(s.drop_last()) + special_sub(s.last())
    }
}

/// Left-to-right replacement of the non-overlapping occurrences of the
/// non-empty pattern `p` in `h` by `r`, as `str::replace` does.
pub open spec fn replace_lit(h: Seq<char>, p: Seq<char>, r: Seq<char>) -> Seq<char>
    decreases h.len(),
{
    if h.len() == 0 || p.len() == 0 {
        h
    } else if p.len() <= h.len() && h.subrange(0, p.len() as int) == p {
        r + replace_lit(h.skip(p.len() as int), p, r)
    } else {
        seq![h[0]] + replace_lit(h.skip(1), p, r)
    }
}

/// `text` laid out for the alignment `align`: centred or right-aligned on a
/// page `LINE_WIDTH` bytes wide when it fits, otherwise as it is.
pub open spec fn justified(align: Seq<char>, text: Seq<char>) -> Seq<char> {
    let len = byte_len(text);
    if align == "center"@ && len < LINE_WIDTH - 1 {
        spaces(((LINE_WIDTH - len) / 2) as nat) + text
    } else if align == "right"@ && len < LINE_WIDTH {
        spaces((LINE_WIDTH - len) as nat) + text
    } else {
        text
    }
}

/// The characters of `s`.
pub fn chars_of(s: &str) -> (res: Vec<char>)
    ensures
        res@ == s@,
{
    let mut v: Vec<char> = Vec::new();
    for c in it: s.chars()
        invariant
            it.seq() == s@,
            v@ =~= s@.take(it.index() as int),
    {
        v.push(c);
        assert(s@.take(it.index() + 1) =~= s@.take(it.index() as int).push(c));
    }
    assert(s@.take(s@.len() as int) =~= s@);
    v
}

/// Appends the characters of `v` to `out`.
pub fn push_chars(out: &mut String, v: &Vec<char>)
    ensures
        final(out)@ == old(out)@ + v@,
{
    let mut i: usize = 0;
    while i < v.len()
        invariant
            i <= v@.len(),
            out@ =~= old(out)@ + v@.take(i as int),
        decreases v@.len() - i,
    {
        out.push(v[i]);
        i = i + 1;
        assert(v@.take(i as int) =~= v@.take(i - 1).push(v@[i - 1]));
    }
    assert(v@.take(v@.len() as int) =~= v@);
}

/// Appends `s` to `out`.
pub fn push_str(out: &mut String, s: &str)
    ensures
        final(out)@ == old(out)@ + s@,
{
    let v = chars_of(s);
    push_chars(out, &v);
}

/// Whether `a` and `b` hold the same text.
pub fn same_text(a: &str, b: &str) -> (res: bool)
    ensures
        res == (a@ == b@),
{
    let x = chars_of(a);
    let y = chars_of(b);
    if x.len() != y.len() {
        return false;
    }
    let mut i: usize = 0;
    while i < x.len()
        invariant
            x@ == a@,
            y@ == b@,
            x@.len() == y@.len(),
            i <= x@.len(),
            forall|j: int| 0 <= j < i ==> x@[j] == y@[j],
        decreases x@.len() - i,
    {
        if x[i] != y[i] {
            assert(x@[i as int] != y@[i as int]);
            return false;
        }
        i = i + 1;
    }
    assert(x@ =~= y@);
    true
}

/// `n` spaces.
pub fn space_string(n: usize) -> (res: String)
    ensures
        res@ == spaces(n as nat),
{
    let mut s = String::new();
    let mut i: usize = 0;
    while i < n
        invariant
            i <= n,
            s@ =~= spaces(i as nat),
        decreases n - i,
    {
        s.push(' ');
        i = i + 1;
    }
    s
}

/// Replaces the characters that have an ASCII rendering in the substitution
/// table by that rendering.
pub fn convert_special_chars(input: &str) -> (res: String)
    ensures
        res@ == substitute_specials(input@),
{
    let map = special_chars_map();
    let mut out = String::new();
    for ch in it: input.chars()
        invariant
            it.seq() == input@,
            map@ == special_chars_table(),
            out@ == substitute_specials(input@.take(it.index() as int)),
    {
        let ghost before = out@;
        match lookup(&map, ch) {
            Some(r) => push_str(&mut out, r),
            None => out.push(ch),
        }
        assert(input@.take(it.index() + 1).drop_last() =~= input@.take(it.index() as int));
        assert(out@ =~= before + special_sub(ch));
    }
    assert(input@.take(input@.len() as int) =~= input@);
    out
}

/// Lays a paragraph's text out for its alignment: centred and right-aligned
/// text is indented with spaces on a page `LINE_WIDTH` bytes wide when it fits.
pub fn justify(align: &str, text: &str) -> (res: String)
    ensures
        res@ == justified(align@, text@),
{
    let len = text.as_bytes().len();
    let mut out;
    if same_text(align, "center") && len < LINE_WIDTH - 1 {
        out = space_string((LINE_WIDTH - len) / 2);
    } else if same_text(align, "right") && len < LINE_WIDTH {
        out = space_string(LINE_WIDTH - len);
    } else {
        out = String::new();
    }
    push_str(&mut out, text);
    out
}

/// `str::replace` with a non-empty pattern, over characters.
pub fn replace_literal(s: &str, pat: &str, rep: &str) -> (res: String)
    requires
        pat@.len() > 0,
    ensures
        res@ == replace_lit(s@, pat@, rep@),
{
    let h = chars_of(s);
    let p = chars_of(pat);
    let r = chars_of(rep);
    let mut out = String::new();
    let mut i: usize = 0;
    assert(h@.skip(0) =~= h@);
    while i < h.len()
        invariant
            i <= h@.len(),
            h@ == s@,
            p@ == pat@,
            r@ == rep@,
            p@.len() > 0,
            out@ + replace_lit(h@.skip(i as int), p@, r@) == replace_lit(h@, p@, r@),
        decreases h@.len() - i,
    {
        let ghost rest = h@.skip(i as int);
        if p.len() <= h.len() - i && matches_at(&h, i, &p) {
            assert(rest.subrange(0, p@.len() as int) =~= h@.subrange(i as int, i + p@.len()));
            assert(rest.skip(p@.len() as int) =~= h@.skip(i + p@.len()));
            push_chars(&mut out, &r);
            i = i + p.len();
        } else {
            proof {
                if p@.len() <= rest.len() {
                    assert(rest.subrange(0, p@.len() as int) =~= h@.subrange(i as int, i + p@.len()));
                }
            }
            assert(rest.skip(1) =~= h@.skip(i + 1));
            out.push(h[i]);
            i = i + 1;
        }
    }
    assert(out@ + replace_lit(h@.skip(i as int), p@, r@) == out@ + h@.skip(i as int));
    assert(h@.skip(i as int) =~= Seq::<char>::empty());
    assert(out@ + Seq::<char>::empty() =~= out@);
    out
}

/// Whether `p` occurs in `h` at index `i`.
fn matches_at(h: &Vec<char>, i: usize, p: &Vec<char>) -> (res: bool)
    requires
        i + p@.len() <= h@.len(),
    ensures
        res == (h@.subrange(i as int, i + p@.len()) == p@),
{
    let mut j: usize = 0;
    let n = h.len();
    while j < p.len()
        invariant
            n == h@.len(),
            i + p@.len() <= h@.len(),
            j <= p@.len(),
            forall|k: int| 0 <= k < j ==> h@[i + k] == p@[k],
        decreases p@.len() - j,
    {
        if h[i + j] != p[j] {
            assert(h@.subrange(i as int, i + p@.len())[j as int] != p@[j as int]);
            return false;
        }
        j = j + 1;
    }
    assert(h@.subrange(i as int, i + p@.len()) =~= p@);
    true
}

/// Upper-cases `s` by Unicode rules, as `str::to_uppercase` does.
pub uninterp spec fn unicode_upper(s: Seq<char>) -> Seq<char>;

/// Upper-cases `s`.
///
/// Calls `str::to_uppercase`. Trusted: the result is `unicode_upper` of the
/// text; nothing more is stated of the Unicode case mapping.
#[verifier::external_body]
pub(crate) fn to_uppercase(s: &str) -> (res: String)
    ensures
        res@ == unicode_upper(s@),
{
    s.to_uppercase()
}

/// Every character of `s` is ASCII.
pub open spec fn is_ascii_text(s: Seq<char>) -> bool {
    forall|i: int| 0 <= i < s.len() ==> (#[trigger] s[i] as u32) < 128
}

/// No character of `s` has an entry in the substitution table.
pub open spec fn has_no_specials(s: Seq<char>) -> bool {
    forall|i: int| 0 <= i < s.len() ==> table_lookup(special_chars_table(), #[trigger] s[i]) is None
}

proof fn lemma_lookup_none(t: Seq<(char, &'static str)>, c: char)
    requires
        forall|i: int| 0 <= i < t.len() ==> (#[trigger] t[i]).0 != c,
    ensures
        table_lookup(t, c) is None,
    decreases t.len(),
{
    if t.len() > 0 {
        assert forall|i: int| 0 <= i < t.drop_first().len() implies (#[trigger] t.drop_first()[i]).0 != c by {
            assert(t.drop_first()[i] == t[i + 1]);
        }
        lemma_lookup_none(t.drop_first(), c);
    }
}

proof fn lemma_lookup_some(t: Seq<(char, &'static str)>, c: char)
    ensures
        table_lookup(t, c) matches Some(r) ==> exists|i: int| 0 <= i < t.len() && (#[trigger] t[i]).1 == r,
    decreases t.len(),
{
    if t.len() > 0 && t[0].0 != c {
        lemma_lookup_some(t.drop_first(), c);
        if let Some(r) = table_lookup(t, c) {
            let i = choose|i: int| 0 <= i < t.drop_first().len() && (#[trigger] t.drop_first()[i]).1 == r;
            assert(t[i + 1] == t.drop_first()[i]);
        }
    }
}

proof fn lemma_ascii_not_special(c: char)
    requires
        (c as u32) < 128,
    ensures
        table_lookup(special_chars_table(), c) is None,
{
    let t = special_chars_table();
    assert(forall|i: int| 0 <= i < t.len() ==> (#[trigger] t[i]).0 as u32 >= 128);
    lemma_lookup_none(t, c);
}

proof fn lemma_replacements_ascii(c: char)
    ensures
        table_lookup(special_chars_table(), c) matches Some(r) ==> is_ascii_text(r@),
{
    let t = special_chars_table();
    lemma_lookup_some(t, c);
    reveal_strlit(" ");
    reveal_strlit("cent");
    reveal_strlit("Pound");
    reveal_strlit("Yen");
    reveal_strlit("|");
    reveal_strlit("(C)");
    reveal_strlit("<<");
    reveal_strlit("-");
    reveal_strlit("(R)");
    reveal_strlit("+-");
    reveal_strlit("'");
    reveal_strlit("u");
    reveal_strlit(">>");
    reveal_strlit("(1/4)");
    reveal_strlit("(1/2)");
    reveal_strlit("(3/4)");
    reveal_strlit("x");
    reveal_strlit("/");
    reveal_strlit("PI");
    reveal_strlit("  ");
    reveal_strlit(" - ");
    reveal_strlit(" -- ");
    reveal_strlit("--");
    reveal_strlit("`");
    reveal_strlit("\"");
    reveal_strlit("::");
    reveal_strlit("...");
    reveal_strlit("%.");
    reveal_strlit("Euro");
    reveal_strlit("c/o");
    reveal_strlit("(P)");
    reveal_strlit("(SM)");
    reveal_strlit("(TM)");
    reveal_strlit("Ohm");
    reveal_strlit("(1/3)");
    reveal_strlit("(2/3)");
    reveal_strlit("(1/5)");
    reveal_strlit("(2/5)");
    reveal_strlit("(3/5)");
    reveal_strlit("(4/5)");
    reveal_strlit("(1/6)");
    reveal_strlit("(1/8)");
    reveal_strlit("(3/8)");
    reveal_strlit("(5/8)");
    reveal_strlit("(7/8)");
    reveal_strlit("1/");
    reveal_strlit("<--");
    reveal_strlit("-->");
    reveal_strlit("<-->");
    reveal_strlit("d");
    reveal_strlit("infinity");
    reveal_strlit("!=");
    reveal_strlit("<=");
    reveal_strlit(">=");
    reveal_strlit("*");
    assert(forall|i: int| 0 <= i < t.len() ==> is_ascii_text((#[trigger] t[i]).1@));
}

proof fn lemma_unchanged_without_specials(s: Seq<char>)
    requires
        has_no_specials(s),
    ensures
        substitute_specials(s) == s,
    decreases s.len(),
{
    if s.len() > 0 {
        assert(has_no_specials(s.drop_last()));
        lemma_unchanged_without_specials(s.drop_last());
        assert(table_lookup(special_chars_table(), s[s.len() - 1]) is None);
        assert(s.drop_last().push(s.last()) =~= s);
    }
}

/// After the substitution no character with an entry in the table is
/// left: the replacements are ASCII, and ASCII has no entry.
pub proof fn lemma_substituted_has_no_specials(s: Seq<char>)
    ensures
        has_no_specials(substitute_specials(s)),
    decreases s.len(),
{
    if s.len() > 0 {
        lemma_substituted_has_no_specials(s.drop_last());
        let c = s.last();
        let prev = substitute_specials(s.drop_last());
        let tail = special_sub(c);
        lemma_replacements_ascii(c);
        assert forall|i: int| 0 <= i < tail.len() implies table_lookup(special_chars_table(), #[trigger] tail[i]) is None by {
            match table_lookup(special_chars_table(), c) {
                Some(r) => lemma_ascii_not_special(r@[i]),
                None => {},
            }
        }
        assert forall|i: int| 0 <= i < (prev + tail).len() implies table_lookup(special_chars_table(), #[trigger] (prev + tail)[i]) is None by {
            if i < prev.len() {
                assert((prev + tail)[i] == prev[i]);
            } else {
                assert((prev + tail)[i] == tail[i - prev.len()]);
            }
        }
    }
}

/// No ASCII character has an entry in the substitution table.
pub proof fn lemma_ascii_has_no_specials(s: Seq<char>)
    requires
        is_ascii_text(s),
    ensures
        has_no_specials(s),
{
    assert forall|i: int| 0 <= i < s.len() implies table_lookup(special_chars_table(), #[trigger] s[i]) is None by {
        lemma_ascii_not_special(s[i]);
    }
}

/// ASCII text passes through the special-character substitution unchanged.
pub proof fn lemma_ascii_unchanged(s: Seq<char>)
    requires
        is_ascii_text(s),
    ensures
        substitute_specials(s) == s,
{
    assert forall|i: int| 0 <= i < s.len() implies table_lookup(special_chars_table(), #[trigger] s[i]) is None by {
        lemma_ascii_not_special(s[i]);
    }
    lemma_unchanged_without_specials(s);
}

/// The substitution is idempotent: its replacements are ASCII, so a second
/// pass changes nothing.
pub proof fn lemma_substitution_idempotent(s: Seq<char>)
    ensures
        substitute_specials(substitute_specials(s)) == substitute_specials(s),
{
    lemma_substituted_has_no_specials(s);
    lemma_unchanged_without_specials(substitute_specials(s));
}

/// The UTF-8 encoding of a concatenation is the concatenation of the
/// encodings.
pub proof fn lemma_encode_concat(a: Seq<char>, b: Seq<char>)
    ensures
        vstd::utf8::encode_utf8(a + b) == vstd::utf8::encode_utf8(a) + vstd::utf8::encode_utf8(b),
    decreases a.len(),
{
    if a.len() == 0 {
        assert(a + b =~= b);
        assert(vstd::utf8::encode_utf8(a) =~= Seq::<u8>::empty());
        assert(Seq::<u8>::empty() + vstd::utf8::encode_utf8(b) =~= vstd::utf8::encode_utf8(b));
    } else {
        assert((a + b).drop_first() =~= a.drop_first() + b);
        assert((a + b)[0] == a[0]);
        lemma_encode_concat(a.drop_first(), b);
        let e0 = vstd::utf8::encode_scalar(a[0] as u32);
        assert(e0 + (vstd::utf8::encode_utf8(a.drop_first()) + vstd::utf8::encode_utf8(b))
            =~= (e0 + vstd::utf8::encode_utf8(a.drop_first())) + vstd::utf8::encode_utf8(b));
    }
}

proof fn lemma_spaces_bytes(n: nat)
    ensures
        byte_len(spaces(n)) == n,
{
    assert(vstd::utf8::is_ascii_chars(spaces(n)));
    vstd::utf8::is_ascii_chars_encode_utf8(spaces(n));
}

/// A centred or right-aligned line that fits stays within the page: a
/// centred one gets half the free width in front and is at most
/// `LINE_WIDTH` bytes wide, a right-aligned one is exactly `LINE_WIDTH`
/// bytes wide; either way it ends with the text.
pub proof fn lemma_justified_fits(align: Seq<char>, text: Seq<char>)
    ensures
        align == "center"@ && byte_len(text) < LINE_WIDTH - 1 ==> byte_len(justified(align, text)) <= LINE_WIDTH,
        align == "right"@ && byte_len(text) < LINE_WIDTH ==> byte_len(justified(align, text)) == LINE_WIDTH,
        justified(align, text).len() >= text.len(),
        justified(align, text).skip(justified(align, text).len() - text.len()) == text,
{
    reveal_strlit("center");
    reveal_strlit("right");
    assert("center"@ != "right"@) by {
        assert("center"@.len() != "right"@.len());
    }
    let len = byte_len(text);
    let r = justified(align, text);
    if align == "center"@ && len < LINE_WIDTH - 1 {
        let n = ((LINE_WIDTH - len) / 2) as nat;
        lemma_encode_concat(spaces(n), text);
        lemma_spaces_bytes(n);
        assert(r.skip(r.len() - text.len()) =~= text);
    } else if align == "right"@ && len < LINE_WIDTH {
        let n = (LINE_WIDTH - len) as nat;
        lemma_encode_concat(spaces(n), text);
        lemma_spaces_bytes(n);
        assert(r.skip(r.len() - text.len()) =~= text);
    } else {
        assert(r.skip(0) =~= text);
    }
}


/// Substitution works character by character: the text of a concatenation
/// is the concatenation of the texts.
pub proof fn lemma_substitute_concat(a: Seq<char>, b: Seq<char>)
    ensures
        substitute_specials(a + b) == substitute_specials(a) + substitute_specials(b),
    decreases b.len(),
{
    if b.len() == 0 {
        assert(a + b =~= a);
        assert(substitute_specials(a) + Seq::<char>::empty() =~= substitute_specials(a));
    } else {
        lemma_substitute_concat(a, b.drop_last());
        assert((a + b).drop_last() =~= a + b.drop_last());
        assert((a + b).last() == b.last());
        assert(substitute_specials(a) + substitute_specials(b.drop_last()) + special_sub(b.last())
            =~= substitute_specials(a) + (substitute_specials(b.drop_last()) + special_sub(b.last())));
    }
}

proof fn lemma_substitute_single(c: char)
    ensures
        substitute_specials(seq![c]) == special_sub(c),
{
    let s = seq![c];
    assert(s.len() == 1 && s.last() == c);
    assert(s.drop_last() =~= Seq::<char>::empty());
    assert(substitute_specials(Seq::<char>::empty()) == Seq::<char>::empty());
    assert(substitute_specials(s) == substitute_specials(s.drop_last()) + special_sub(c));
    assert(Seq::<char>::empty() + special_sub(c) =~= special_sub(c));
}


/// The replacement of the `k`-th character of a table with distinct keys is
/// the `k`-th replacement.
proof fn lemma_lookup_at(t: Seq<(char, &'static str)>, k: int)
    requires
        keys_distinct(t),
        0 <= k < t.len(),
    ensures
        table_lookup(t, t[k].0) == Some(t[k].1),
    decreases k,
{
    if k > 0 {
        let d = t.drop_first();
        assert(t[0].0 != t[k].0);
        assert(d[k - 1] == t[k]);
        assert forall|i: int, j: int| 0 <= i < j < d.len() implies #[trigger] d[i].0 != #[trigger] d[j].0 by {
            assert(d[i] == t[i + 1] && d[j] == t[j + 1]);
        }
        lemma_lookup_at(d, k - 1);
    }
}

#[verifier::rlimit(40)]
proof fn lemma_renderings_0()
    ensures
        substitute_specials(seq!['\u{00A0}']) == " "@,
        substitute_specials(seq!['\u{00A2}']) == "cent"@,
        substitute_specials(seq!['\u{00A3}']) == "Pound"@,
        substitute_specials(seq!['\u{00A5}']) == "Yen"@,
        substitute_specials(seq!['\u{00A6}']) == "|"@,
        substitute_specials(seq!['\u{00A9}']) == "(C)"@,
        substitute_specials(seq!['\u{00AB}']) == "<<"@,
        substitute_specials(seq!['\u{00AC}']) == "-"@,
        substitute_specials(seq!['\u{00AE}']) == "(R)"@,
        substitute_specials(seq!['\u{00B1}']) == "+-"@,
        substitute_specials(seq!['\u{00B4}']) == "'"@,
        substitute_specials(seq!['\u{00B5}']) == "u"@,
        substitute_specials(seq!['\u{00BB}']) == ">>"@,
        substitute_specials(seq!['\u{00BC}']) == "(1/4)"@,
        substitute_specials(seq!['\u{00BD}']) == "(1/2)"@,
        special_chars_table()[0] == ('\u{00A0}', " "),
        special_chars_table()[1] == ('\u{00A2}', "cent"),
        special_chars_table()[2] == ('\u{00A3}', "Pound"),
        special_chars_table()[3] == ('\u{00A5}', "Yen"),
        special_chars_table()[4] == ('\u{00A6}', "|"),
        special_chars_table()[5] == ('\u{00A9}', "(C)"),
        special_chars_table()[6] == ('\u{00AB}', "<<"),
        special_chars_table()[7] == ('\u{00AC}', "-"),
        special_chars_table()[8] == ('\u{00AE}', "(R)"),
        special_chars_table()[9] == ('\u{00B1}', "+-"),
        special_chars_table()[10] == ('\u{00B4}', "'"),
        special_chars_table()[11] == ('\u{00B5}', "u"),
        special_chars_table()[12] == ('\u{00BB}', ">>"),
        special_chars_table()[13] == ('\u{00BC}', "(1/4)"),
        special_chars_table()[14] == ('\u{00BD}', "(1/2)"),
{
    let t = special_chars_table();
    crate::tables::lemma_tables_keys_distinct();
    assert(t[0] == ('\u{00A0}', " "));
    lemma_lookup_at(t, 0);
    lemma_substitute_single('\u{00A0}');
    assert(t[1] == ('\u{00A2}', "cent"));
    lemma_lookup_at(t, 1);
    lemma_substitute_single('\u{00A2}');
    assert(t[2] == ('\u{00A3}', "Pound"));
    lemma_lookup_at(t, 2);
    lemma_substitute_single('\u{00A3}');
    assert(t[3] == ('\u{00A5}', "Yen"));
    lemma_lookup_at(t, 3);
    lemma_substitute_single('\u{00A5}');
    assert(t[4] == ('\u{00A6}', "|"));
    lemma_lookup_at(t, 4);
    lemma_substitute_single('\u{00A6}');
    assert(t[5] == ('\u{00A9}', "(C)"));
    lemma_lookup_at(t, 5);
    lemma_substitute_single('\u{00A9}');
    assert(t[6] == ('\u{00AB}', "<<"));
    lemma_lookup_at(t, 6);
    lemma_substitute_single('\u{00AB}');
    assert(t[7] == ('\u{00AC}', "-"));
    lemma_lookup_at(t, 7);
    lemma_substitute_single('\u{00AC}');
    assert(t[8] == ('\u{00AE}', "(R)"));
    lemma_lookup_at(t, 8);
    lemma_substitute_single('\u{00AE}');
    assert(t[9] == ('\u{00B1}', "+-"));
    lemma_lookup_at(t, 9);
    lemma_substitute_single('\u{00B1}');
    assert(t[10] == ('\u{00B4}', "'"));
    lemma_lookup_at(t, 10);
    lemma_substitute_single('\u{00B4}');
    assert(t[11] == ('\u{00B5}', "u"));
    lemma_lookup_at(t, 11);
    lemma_substitute_single('\u{00B5}');
    assert(t[12] == ('\u{00BB}', ">>"));
    lemma_lookup_at(t, 12);
    lemma_substitute_single('\u{00BB}');
    assert(t[13] == ('\u{00BC}', "(1/4)"));
    lemma_lookup_at(t, 13);
    lemma_substitute_single('\u{00BC}');
    assert(t[14] == ('\u{00BD}', "(1/2)"));
    lemma_lookup_at(t, 14);
    lemma_substitute_single('\u{00BD}');
}

#[verifier::rlimit(40)]
proof fn lemma_renderings_1()
    ensures
        substitute_specials(seq!['\u{00BE}']) == "(3/4)"@,
        substitute_specials(seq!['\u{00D7}']) == "x"@,
        substitute_specials(seq!['\u{00F7}']) == "/"@,
        substitute_specials(seq!['\u{03C0}']) == "PI"@,
        substitute_specials(seq!['\u{2002}']) == "  "@,
        substitute_specials(seq!['\u{2003}']) == "  "@,
        substitute_specials(seq!['\u{2005}']) == " "@,
        substitute_specials(seq!['\u{2013}']) == " - "@,
        substitute_specials(seq!['\u{2014}']) == " -- "@,
        substitute_specials(seq!['\u{2015}']) == "--"@,
        substitute_specials(seq!['\u{2018}']) == "`"@,
        substitute_specials(seq!['\u{2019}']) == "'"@,
        substitute_specials(seq!['\u{201C}']) == "\""@,
        substitute_specials(seq!['\u{201D}']) == "\""@,
        substitute_specials(seq!['\u{2022}']) == "::"@,
        special_chars_table()[15] == ('\u{00BE}', "(3/4)"),
        special_chars_table()[16] == ('\u{00D7}', "x"),
        special_chars_table()[17] == ('\u{00F7}', "/"),
        special_chars_table()[18] == ('\u{03C0}', "PI"),
        special_chars_table()[19] == ('\u{2002}', "  "),
        special_chars_table()[20] == ('\u{2003}', "  "),
        special_chars_table()[21] == ('\u{2005}', " "),
        special_chars_table()[22] == ('\u{2013}', " - "),
        special_chars_table()[23] == ('\u{2014}', " -- "),
        special_chars_table()[24] == ('\u{2015}', "--"),
        special_chars_table()[25] == ('\u{2018}', "`"),
        special_chars_table()[26] == ('\u{2019}', "'"),
        special_chars_table()[27] == ('\u{201C}', "\""),
        special_chars_table()[28] == ('\u{201D}', "\""),
        special_chars_table()[29] == ('\u{2022}', "::"),
{
    let t = special_chars_table();
    crate::tables::lemma_tables_keys_distinct();
    assert(t[15] == ('\u{00BE}', "(3/4)"));
    lemma_lookup_at(t, 15);
    lemma_substitute_single('\u{00BE}');
    assert(t[16] == ('\u{00D7}', "x"));
    lemma_lookup_at(t, 16);
    lemma_substitute_single('\u{00D7}');
    assert(t[17] == ('\u{00F7}', "/"));
    lemma_lookup_at(t, 17);
    lemma_substitute_single('\u{00F7}');
    assert(t[18] == ('\u{03C0}', "PI"));
    lemma_lookup_at(t, 18);
    lemma_substitute_single('\u{03C0}');
    assert(t[19] == ('\u{2002}', "  "));
    lemma_lookup_at(t, 19);
    lemma_substitute_single('\u{2002}');
    assert(t[20] == ('\u{2003}', "  "));
    lemma_lookup_at(t, 20);
    lemma_substitute_single('\u{2003}');
    assert(t[21] == ('\u{2005}', " "));
    lemma_lookup_at(t, 21);
    lemma_substitute_single('\u{2005}');
    assert(t[22] == ('\u{2013}', " - "));
    lemma_lookup_at(t, 22);
    lemma_substitute_single('\u{2013}');
    assert(t[23] == ('\u{2014}', " -- "));
    lemma_lookup_at(t, 23);
    lemma_substitute_single('\u{2014}');
    assert(t[24] == ('\u{2015}', "--"));
    lemma_lookup_at(t, 24);
    lemma_substitute_single('\u{2015}');
    assert(t[25] == ('\u{2018}', "`"));
    lemma_lookup_at(t, 25);
    lemma_substitute_single('\u{2018}');
    assert(t[26] == ('\u{2019}', "'"));
    lemma_lookup_at(t, 26);
    lemma_substitute_single('\u{2019}');
    assert(t[27] == ('\u{201C}', "\""));
    lemma_lookup_at(t, 27);
    lemma_substitute_single('\u{201C}');
    assert(t[28] == ('\u{201D}', "\""));
    lemma_lookup_at(t, 28);
    lemma_substitute_single('\u{201D}');
    assert(t[29] == ('\u{2022}', "::"));
    lemma_lookup_at(t, 29);
    lemma_substitute_single('\u{2022}');
}

#[verifier::rlimit(40)]
proof fn lemma_renderings_2()
    ensures
        substitute_specials(seq!['\u{2026}']) == "..."@,
        substitute_specials(seq!['\u{2030}']) == "%."@,
        substitute_specials(seq!['\u{20AC}']) == "Euro"@,
        substitute_specials(seq!['\u{2105}']) == "c/o"@,
        substitute_specials(seq!['\u{2117}']) == "(P)"@,
        substitute_specials(seq!['\u{2120}']) == "(SM)"@,
        substitute_specials(seq!['\u{2122}']) == "(TM)"@,
        substitute_specials(seq!['\u{2126}']) == "Ohm"@,
        substitute_specials(seq!['\u{2153}']) == "(1/3)"@,
        substitute_specials(seq!['\u{2154}']) == "(2/3)"@,
        substitute_specials(seq!['\u{2155}']) == "(1/5)"@,
        substitute_specials(seq!['\u{2156}']) == "(2/5)"@,
        substitute_specials(seq!['\u{2157}']) == "(3/5)"@,
        substitute_specials(seq!['\u{2158}']) == "(4/5)"@,
        substitute_specials(seq!['\u{2159}']) == "(1/6)"@,
        special_chars_table()[30] == ('\u{2026}', "..."),
        special_chars_table()[31] == ('\u{2030}', "%."),
        special_chars_table()[32] == ('\u{20AC}', "Euro"),
        special_chars_table()[33] == ('\u{2105}', "c/o"),
        special_chars_table()[34] == ('\u{2117}', "(P)"),
        special_chars_table()[35] == ('\u{2120}', "(SM)"),
        special_chars_table()[36] == ('\u{2122}', "(TM)"),
        special_chars_table()[37] == ('\u{2126}', "Ohm"),
        special_chars_table()[38] == ('\u{2153}', "(1/3)"),
        special_chars_table()[39] == ('\u{2154}', "(2/3)"),
        special_chars_table()[40] == ('\u{2155}', "(1/5)"),
        special_chars_table()[41] == ('\u{2156}', "(2/5)"),
        special_chars_table()[42] == ('\u{2157}', "(3/5)"),
        special_chars_table()[43] == ('\u{2158}', "(4/5)"),
        special_chars_table()[44] == ('\u{2159}', "(1/6)"),
{
    let t = special_chars_table();
    crate::tables::lemma_tables_keys_distinct();
    assert(t[30] == ('\u{2026}', "..."));
    lemma_lookup_at(t, 30);
    lemma_substitute_single('\u{2026}');
    assert(t[31] == ('\u{2030}', "%."));
    lemma_lookup_at(t, 31);
    lemma_substitute_single('\u{2030}');
    assert(t[32] == ('\u{20AC}', "Euro"));
    lemma_lookup_at(t, 32);
    lemma_substitute_single('\u{20AC}');
    assert(t[33] == ('\u{2105}', "c/o"));
    lemma_lookup_at(t, 33);
    lemma_substitute_single('\u{2105}');
    assert(t[34] == ('\u{2117}', "(P)"));
    lemma_lookup_at(t, 34);
    lemma_substitute_single('\u{2117}');
    assert(t[35] == ('\u{2120}', "(SM)"));
    lemma_lookup_at(t, 35);
    lemma_substitute_single('\u{2120}');
    assert(t[36] == ('\u{2122}', "(TM)"));
    lemma_lookup_at(t, 36);
    lemma_substitute_single('\u{2122}');
    assert(t[37] == ('\u{2126}', "Ohm"));
    lemma_lookup_at(t, 37);
    lemma_substitute_single('\u{2126}');
    assert(t[38] == ('\u{2153}', "(1/3)"));
    lemma_lookup_at(t, 38);
    lemma_substitute_single('\u{2153}');
    assert(t[39] == ('\u{2154}', "(2/3)"));
    lemma_lookup_at(t, 39);
    lemma_substitute_single('\u{2154}');
    assert(t[40] == ('\u{2155}', "(1/5)"));
    lemma_lookup_at(t, 40);
    lemma_substitute_single('\u{2155}');
    assert(t[41] == ('\u{2156}', "(2/5)"));
    lemma_lookup_at(t, 41);
    lemma_substitute_single('\u{2156}');
    assert(t[42] == ('\u{2157}', "(3/5)"));
    lemma_lookup_at(t, 42);
    lemma_substitute_single('\u{2157}');
    assert(t[43] == ('\u{2158}', "(4/5)"));
    lemma_lookup_at(t, 43);
    lemma_substitute_single('\u{2158}');
    assert(t[44] == ('\u{2159}', "(1/6)"));
    lemma_lookup_at(t, 44);
    lemma_substitute_single('\u{2159}');
}

#[verifier::rlimit(40)]
proof fn lemma_renderings_3()
    ensures
        substitute_specials(seq!['\u{215B}']) == "(1/8)"@,
        substitute_specials(seq!['\u{215C}']) == "(3/8)"@,
        substitute_specials(seq!['\u{215D}']) == "(5/8)"@,
        substitute_specials(seq!['\u{215E}']) == "(7/8)"@,
        substitute_specials(seq!['\u{215F}']) == "1/"@,
        substitute_specials(seq!['\u{2190}']) == "<--"@,
        substitute_specials(seq!['\u{2192}']) == "-->"@,
        substitute_specials(seq!['\u{2194}']) == "<-->"@,
        substitute_specials(seq!['\u{2202}']) == "d"@,
        substitute_specials(seq!['\u{221E}']) == "infinity"@,
        substitute_specials(seq!['\u{2260}']) == "!="@,
        substitute_specials(seq!['\u{2264}']) == "<="@,
        substitute_specials(seq!['\u{2265}']) == ">="@,
        substitute_specials(seq!['\u{F0B7}']) == "*"@,
        special_chars_table()[45] == ('\u{215B}', "(1/8)"),
        special_chars_table()[46] == ('\u{215C}', "(3/8)"),
        special_chars_table()[47] == ('\u{215D}', "(5/8)"),
        special_chars_table()[48] == ('\u{215E}', "(7/8)"),
        special_chars_table()[49] == ('\u{215F}', "1/"),
        special_chars_table()[50] == ('\u{2190}', "<--"),
        special_chars_table()[51] == ('\u{2192}', "-->"),
        special_chars_table()[52] == ('\u{2194}', "<-->"),
        special_chars_table()[53] == ('\u{2202}', "d"),
        special_chars_table()[54] == ('\u{221E}', "infinity"),
        special_chars_table()[55] == ('\u{2260}', "!="),
        special_chars_table()[56] == ('\u{2264}', "<="),
        special_chars_table()[57] == ('\u{2265}', ">="),
        special_chars_table()[58] == ('\u{F0B7}', "*"),
{
    let t = special_chars_table();
    crate::tables::lemma_tables_keys_distinct();
    assert(t[45] == ('\u{215B}', "(1/8)"));
    lemma_lookup_at(t, 45);
    lemma_substitute_single('\u{215B}');
    assert(t[46] == ('\u{215C}', "(3/8)"));
    lemma_lookup_at(t, 46);
    lemma_substitute_single('\u{215C}');
    assert(t[47] == ('\u{215D}', "(5/8)"));
    lemma_lookup_at(t, 47);
    lemma_substitute_single('\u{215D}');
    assert(t[48] == ('\u{215E}', "(7/8)"));
    lemma_lookup_at(t, 48);
    lemma_substitute_single('\u{215E}');
    assert(t[49] == ('\u{215F}', "1/"));
    lemma_lookup_at(t, 49);
    lemma_substitute_single('\u{215F}');
    assert(t[50] == ('\u{2190}', "<--"));
    lemma_lookup_at(t, 50);
    lemma_substitute_single('\u{2190}');
    assert(t[51] == ('\u{2192}', "-->"));
    lemma_lookup_at(t, 51);
    lemma_substitute_single('\u{2192}');
    assert(t[52] == ('\u{2194}', "<-->"));
    lemma_lookup_at(t, 52);
    lemma_substitute_single('\u{2194}');
    assert(t[53] == ('\u{2202}', "d"));
    lemma_lookup_at(t, 53);
    lemma_substitute_single('\u{2202}');
    assert(t[54] == ('\u{221E}', "infinity"));
    lemma_lookup_at(t, 54);
    lemma_substitute_single('\u{221E}');
    assert(t[55] == ('\u{2260}', "!="));
    lemma_lookup_at(t, 55);
    lemma_substitute_single('\u{2260}');
    assert(t[56] == ('\u{2264}', "<="));
    lemma_lookup_at(t, 56);
    lemma_substitute_single('\u{2264}');
    assert(t[57] == ('\u{2265}', ">="));
    lemma_lookup_at(t, 57);
    lemma_substitute_single('\u{2265}');
    assert(t[58] == ('\u{F0B7}', "*"));
    lemma_lookup_at(t, 58);
    lemma_substitute_single('\u{F0B7}');
}

/// Each typographic character becomes its ASCII rendering, one stated per
/// character: a smart apostrophe U+2019 becomes `'`, U+2018 a backtick, the curly double quotes `"`, the dashes
/// ` - ` and ` -- `, and so on for every character listed. With
/// `lemma_substitute_concat`, this fixes the substitution of any text made
/// of these characters.
pub proof fn lemma_special_renderings()
    ensures
        substitute_specials(seq!['\u{00A0}']) == " "@,
        substitute_specials(seq!['\u{00A2}']) == "cent"@,
        substitute_specials(seq!['\u{00A3}']) == "Pound"@,
        substitute_specials(seq!['\u{00A5}']) == "Yen"@,
        substitute_specials(seq!['\u{00A6}']) == "|"@,
        substitute_specials(seq!['\u{00A9}']) == "(C)"@,
        substitute_specials(seq!['\u{00AB}']) == "<<"@,
        substitute_specials(seq!['\u{00AC}']) == "-"@,
        substitute_specials(seq!['\u{00AE}']) == "(R)"@,
        substitute_specials(seq!['\u{00B1}']) == "+-"@,
        substitute_specials(seq!['\u{00B4}']) == "'"@,
        substitute_specials(seq!['\u{00B5}']) == "u"@,
        substitute_specials(seq!['\u{00BB}']) == ">>"@,
        substitute_specials(seq!['\u{00BC}']) == "(1/4)"@,
        substitute_specials(seq!['\u{00BD}']) == "(1/2)"@,
        substitute_specials(seq!['\u{00BE}']) == "(3/4)"@,
        substitute_specials(seq!['\u{00D7}']) == "x"@,
        substitute_specials(seq!['\u{00F7}']) == "/"@,
        substitute_specials(seq!['\u{03C0}']) == "PI"@,
        substitute_specials(seq!['\u{2002}']) == "  "@,
        substitute_specials(seq!['\u{2003}']) == "  "@,
        substitute_specials(seq!['\u{2005}']) == " "@,
        substitute_specials(seq!['\u{2013}']) == " - "@,
        substitute_specials(seq!['\u{2014}']) == " -- "@,
        substitute_specials(seq!['\u{2015}']) == "--"@,
        substitute_specials(seq!['\u{2018}']) == "`"@,
        substitute_specials(seq!['\u{2019}']) == "'"@,
        substitute_specials(seq!['\u{201C}']) == "\""@,
        substitute_specials(seq!['\u{201D}']) == "\""@,
        substitute_specials(seq!['\u{2022}']) == "::"@,
        substitute_specials(seq!['\u{2026}']) == "..."@,
        substitute_specials(seq!['\u{2030}']) == "%."@,
        substitute_specials(seq!['\u{20AC}']) == "Euro"@,
        substitute_specials(seq!['\u{2105}']) == "c/o"@,
        substitute_specials(seq!['\u{2117}']) == "(P)"@,
        substitute_specials(seq!['\u{2120}']) == "(SM)"@,
        substitute_specials(seq!['\u{2122}']) == "(TM)"@,
        substitute_specials(seq!['\u{2126}']) == "Ohm"@,
        substitute_specials(seq!['\u{2153}']) == "(1/3)"@,
        substitute_specials(seq!['\u{2154}']) == "(2/3)"@,
        substitute_specials(seq!['\u{2155}']) == "(1/5)"@,
        substitute_specials(seq!['\u{2156}']) == "(2/5)"@,
        substitute_specials(seq!['\u{2157}']) == "(3/5)"@,
        substitute_specials(seq!['\u{2158}']) == "(4/5)"@,
        substitute_specials(seq!['\u{2159}']) == "(1/6)"@,
        substitute_specials(seq!['\u{215B}']) == "(1/8)"@,
        substitute_specials(seq!['\u{215C}']) == "(3/8)"@,
        substitute_specials(seq!['\u{215D}']) == "(5/8)"@,
        substitute_specials(seq!['\u{215E}']) == "(7/8)"@,
        substitute_specials(seq!['\u{215F}']) == "1/"@,
        substitute_specials(seq!['\u{2190}']) == "<--"@,
        substitute_specials(seq!['\u{2192}']) == "-->"@,
        substitute_specials(seq!['\u{2194}']) == "<-->"@,
        substitute_specials(seq!['\u{2202}']) == "d"@,
        substitute_specials(seq!['\u{221E}']) == "infinity"@,
        substitute_specials(seq!['\u{2260}']) == "!="@,
        substitute_specials(seq!['\u{2264}']) == "<="@,
        substitute_specials(seq!['\u{2265}']) == ">="@,
        substitute_specials(seq!['\u{F0B7}']) == "*"@,
{
    lemma_renderings_0();
    lemma_renderings_1();
    lemma_renderings_2();
    lemma_renderings_3();
}


/// A character that is none of the listed typographic characters passes
/// through the substitution unchanged.
pub proof fn lemma_unlisted_unchanged(c: char)
    requires
        c != '\u{00A0}',
        c != '\u{00A2}',
        c != '\u{00A3}',
        c != '\u{00A5}',
        c != '\u{00A6}',
        c != '\u{00A9}',
        c != '\u{00AB}',
        c != '\u{00AC}',
        c != '\u{00AE}',
        c != '\u{00B1}',
        c != '\u{00B4}',
        c != '\u{00B5}',
        c != '\u{00BB}',
        c != '\u{00BC}',
        c != '\u{00BD}',
        c != '\u{00BE}',
        c != '\u{00D7}',
        c != '\u{00F7}',
        c != '\u{03C0}',
        c != '\u{2002}',
        c != '\u{2003}',
        c != '\u{2005}',
        c != '\u{2013}',
        c != '\u{2014}',
        c != '\u{2015}',
        c != '\u{2018}',
        c != '\u{2019}',
        c != '\u{201C}',
        c != '\u{201D}',
        c != '\u{2022}',
        c != '\u{2026}',
        c != '\u{2030}',
        c != '\u{20AC}',
        c != '\u{2105}',
        c != '\u{2117}',
        c != '\u{2120}',
        c != '\u{2122}',
        c != '\u{2126}',
        c != '\u{2153}',
        c != '\u{2154}',
        c != '\u{2155}',
        c != '\u{2156}',
        c != '\u{2157}',
        c != '\u{2158}',
        c != '\u{2159}',
        c != '\u{215B}',
        c != '\u{215C}',
        c != '\u{215D}',
        c != '\u{215E}',
        c != '\u{215F}',
        c != '\u{2190}',
        c != '\u{2192}',
        c != '\u{2194}',
        c != '\u{2202}',
        c != '\u{221E}',
        c != '\u{2260}',
        c != '\u{2264}',
        c != '\u{2265}',
        c != '\u{F0B7}',
    ensures
        substitute_specials(seq![c]) == seq![c],
{
    lemma_renderings_0();
    lemma_renderings_1();
    lemma_renderings_2();
    lemma_renderings_3();
    let t = special_chars_table();
    assert(t.len() == 59);
    assert forall|i: int| 0 <= i < t.len() implies (#[trigger] t[i]).0 != c by {
        assert(0 <= i < 59);
    }
    lemma_lookup_none(t, c);
    lemma_substitute_single(c);
}

} // verus!
