//! Scrubbing personal data (authors, ids, timestamps) out of the XML parts
//! of a package.

use vstd::prelude::*;
use crate::text::{chars_of, push_chars};

verus! {

/// The first index at or after `from` where `p` occurs in `h`.
pub open spec fn first_occurrence(h: Seq<char>, p: Seq<char>, from: int) -> Option<int>
    decreases h.len() + 1 - from,
{
    if from < 0 || from + p.len() > h.len() {
        None
    } else if h.subrange(from, from + p.len()) == p {
        Some(from)
    } else {
        first_occurrence(h, p, from + 1)
    }
}

/// A found occurrence lies inside the text, at or after `from`.
pub proof fn lemma_first_occurrence_bounds(h: Seq<char>, p: Seq<char>, from: int)
    ensures
        first_occurrence(h, p, from) matches Some(k) ==> from <= k && k + p.len() <= h.len()
            && h.subrange(k, k + p.len()) == p,
    decreases h.len() + 1 - from,
{
    if !(from < 0 || from + p.len() > h.len()) && h.subrange(from, from + p.len()) != p {
        lemma_first_occurrence_bounds(h, p, from + 1);
    }
}

/// `h` with each `open ... close` element removed, repeatedly taking the
/// first `open` and the first `close` at or after it, until one of them is
/// missing.
pub open spec fn remove_elements(h: Seq<char>, open: Seq<char>, close: Seq<char>) -> Seq<char>
    decreases h.len(),
{
    if close.len() == 0 {
        h
    } else {
        match first_occurrence(h, open, 0) {
            None => h,
            Some(s) => match first_occurrence(h, close, s) {
                None => h,
                Some(e) => {
                    proof {
                        lemma_first_occurrence_bounds(h, open, 0);
                        lemma_first_occurrence_bounds(h, close, s);
                    }
                    remove_elements(h.take(s) + h.skip(e + close.len()), open, close)
                },
            },
        }
    }
}

/// `h` with the value of every `needle...` attribute (up to the next `"`)
/// replaced by `rep`, scanning from the front.
pub open spec fn replace_attrs(h: Seq<char>, needle: Seq<char>, rep: Seq<char>) -> Seq<char>
    decreases h.len(),
{
    match first_occurrence(h, needle, 0) {
        None => h,
        Some(r) => {
            let vs = r + needle.len();
            match first_occurrence(h, seq!['"'], vs) {
                None => h,
                Some(ve) => {
                    proof {
                        lemma_first_occurrence_bounds(h, needle, 0);
                        lemma_first_occurrence_bounds(h, seq!['"'], vs);
                    }
                    h.take(vs) + rep + seq!['"'] + replace_attrs(h.skip(ve + 1), needle, rep)
                },
            }
        },
    }
}

/// The shape `DDDD-DD-DDTDD:DD:DDZ` of a timestamp, position by position.
pub open spec fn stamp_char_ok(j: int, c: char) -> bool {
    if j == 4 || j == 7 { c == '-' }
    else if j == 10 { c == 'T' }
    else if j == 13 || j == 16 { c == ':' }
    else if j == 19 { c == 'Z' }
    else { '0' <= c && c <= '9' }
}

/// A timestamp starts at index `k` of `h`.
pub open spec fn stamp_at(h: Seq<char>, k: int) -> bool {
    &&& 0 <= k
    &&& k + 20 <= h.len()
    &&& forall|j: int| 0 <= j < 20 ==> stamp_char_ok(j, #[trigger] h[k + j])
}

/// The timestamp every timestamp is replaced by.
pub open spec fn epoch() -> Seq<char> {
    "1970-01-01T00:00:00Z"@
}

/// `h` with its timestamps replaced by `epoch()`, scanning from the front.
pub open spec fn stamps_replaced(h: Seq<char>) -> Seq<char>
    decreases h.len(),
{
    if h.len() < 20 {
        h
    } else if stamp_at(h, 0) {
        epoch() + stamps_replaced(h.skip(20))
    } else {
        seq![h[0]] + stamps_replaced(h.skip(1))
    }
}

/// The first occurrence of `p` in `h` at or after `from`.
pub fn find_from(h: &Vec<char>, p: &Vec<char>, from: usize) -> (res: Option<usize>)
    ensures
        match res {
            Some(k) => first_occurrence(h@, p@, from as int) == Some(k as int),
            None => first_occurrence(h@, p@, from as int) is None,
        },
{
    let n = h.len();
    let m = p.len();
    if m > n {
        return None;
    }
    let mut k = from;
    while k <= n - m
        invariant
            n == h@.len(),
            m == p@.len(),
            m <= n,
            from <= k,
            first_occurrence(h@, p@, from as int) == first_occurrence(h@, p@, k as int),
        decreases n - k,
    {
        let mut j: usize = 0;
        let mut same = true;
        while j < m
            invariant
                n == h@.len(),
                m == p@.len(),
                k + m <= n,
                j <= m,
                same == (forall|t: int| 0 <= t < j ==> h@[k + t] == p@[t]),
            decreases m - j,
        {
            if h[k + j] != p[j] {
                same = false;
            }
            j = j + 1;
        }
        if same {
            assert(h@.subrange(k as int, k + m) =~= p@);
            return Some(k);
        }
        assert(h@.subrange(k as int, k + m) != p@) by {
            let t = choose|t: int| 0 <= t < m && h@[k + t] != p@[t];
            assert(h@.subrange(k as int, k + m)[t] != p@[t]);
        }
        k = k + 1;
    }
    None
}

/// The characters `h[..s]` followed by `h[e..]`.
fn cut(h: &Vec<char>, s: usize, e: usize) -> (res: Vec<char>)
    requires
        s <= e <= h@.len(),
    ensures
        res@ == h@.take(s as int) + h@.skip(e as int),
{
    let mut out: Vec<char> = Vec::new();
    let mut i: usize = 0;
    while i < s
        invariant
            s <= e <= h@.len(),
            i <= s,
            out@ =~= h@.take(i as int),
        decreases s - i,
    {
        out.push(h[i]);
        i = i + 1;
    }
    let mut j = e;
    while j < h.len()
        invariant
            s <= e <= j <= h@.len(),
            out@ =~= h@.take(s as int) + h@.subrange(e as int, j as int),
        decreases h@.len() - j,
    {
        out.push(h[j]);
        j = j + 1;
    }
    assert(h@.subrange(e as int, h@.len() as int) =~= h@.skip(e as int));
    out
}

/// The text of `v`.
fn string_of(v: &Vec<char>) -> (res: String)
    ensures
        res@ == v@,
{
    let mut s = String::new();
    push_chars(&mut s, v);
    assert(s@ =~= v@);
    s
}

/// Removes every `open ... close` element from `xml`.
pub fn remove_element(xml: &mut String, open: &str, close: &str)
    requires
        close@.len() > 0,
    ensures
        final(xml)@ == remove_elements(old(xml)@, open@, close@),
{
    let o = chars_of(open);
    let c = chars_of(close);
    let mut h = chars_of(xml.as_str());
    loop
        invariant
            o@ == open@,
            c@ == close@,
            c@.len() > 0,
            remove_elements(h@, o@, c@) == remove_elements(old(xml)@, open@, close@),
        ensures
            remove_elements(h@, o@, c@) == remove_elements(old(xml)@, open@, close@),
            remove_elements(h@, o@, c@) == h@,
        decreases h@.len(),
    {
        let s = match find_from(&h, &o, 0) {
            Some(s) => s,
            None => break,
        };
        let e = match find_from(&h, &c, s) {
            Some(e) => e,
            None => break,
        };
        proof {
            lemma_first_occurrence_bounds(h@, o@, 0);
            lemma_first_occurrence_bounds(h@, c@, s as int);
        }
        let hl = h.len();
        assert(e + c@.len() <= hl);
        h = cut(&h, s, e + c.len());
    }
    *xml = string_of(&h);
}

/// Replaces the value of every `attr="..."` attribute of `xml` by
/// `replacement`.
pub fn replace_attr_value(xml: &mut String, attr: &str, replacement: &str)
    ensures
        final(xml)@ == replace_attrs(old(xml)@, attr@ + seq!['=', '"'], replacement@),
{
    let mut needle_s = attr.to_owned();
    needle_s.push('=');
    needle_s.push('"');
    let needle = chars_of(needle_s.as_str());
    let quote: Vec<char> = vec!['"'];
    let rep = chars_of(replacement);
    let mut rest = chars_of(xml.as_str());
    let mut out: Vec<char> = Vec::new();
    loop
        invariant
            needle@ == attr@ + seq!['=', '"'],
            quote@ == seq!['"'],
            rep@ == replacement@,
            out@ + replace_attrs(rest@, needle@, rep@) == replace_attrs(old(xml)@, needle@, rep@),
        ensures
            out@ + rest@ == replace_attrs(old(xml)@, attr@ + seq!['=', '"'], replacement@),
        decreases rest@.len(),
    {
        let r = match find_from(&rest, &needle, 0) {
            Some(r) => r,
            None => break,
        };
        proof { lemma_first_occurrence_bounds(rest@, needle@, 0); }
        let rl = rest.len();
        assert(r + needle@.len() <= rl);
        let vs = r + needle.len();
        let ve = match find_from(&rest, &quote, vs) {
            Some(ve) => ve,
            None => break,
        };
        proof { lemma_first_occurrence_bounds(rest@, quote@, vs as int); }
        let ghost old_rest = rest@;
        let ghost old_out = out@;
        let mut i: usize = 0;
        while i < vs
            invariant
                vs <= rest@.len(),
                i <= vs,
                out@ =~= old_out + rest@.take(i as int),
            decreases vs - i,
        {
            out.push(rest[i]);
            i = i + 1;
        }
        let mut j: usize = 0;
        while j < rep.len()
            invariant
                j <= rep@.len(),
                out@ =~= old_out + old_rest.take(vs as int) + rep@.take(j as int),
            decreases rep@.len() - j,
        {
            out.push(rep[j]);
            j = j + 1;
        }
        out.push('"');
        rest = cut(&rest, 0, ve + 1);
        assert(rest@ =~= old_rest.skip(ve + 1));
        assert(out@ =~= old_out + (old_rest.take(vs as int) + rep@ + seq!['"']));
    }
    let mut res = string_of(&out);
    push_chars(&mut res, &rest);
    *xml = res;
}

/// Whether a timestamp starts at index `k` of `h`.
fn stamp_at_exec(h: &Vec<char>, k: usize) -> (res: bool)
    ensures
        res == stamp_at(h@, k as int),
{
    let n = h.len();
    if k > n || n - k < 20 {
        return false;
    }
    let mut j: usize = 0;
    while j < 20
        invariant
            n == h@.len(),
            k + 20 <= n,
            j <= 20,
            forall|t: int| 0 <= t < j ==> stamp_char_ok(t, #[trigger] h@[k + t]),
        decreases 20 - j,
    {
        let c = h[k + j];
        let ok = if j == 4 || j == 7 { c == '-' }
            else if j == 10 { c == 'T' }
            else if j == 13 || j == 16 { c == ':' }
            else if j == 19 { c == 'Z' }
            else { '0' <= c && c <= '9' };
        if !ok {
            assert(!stamp_char_ok(j as int, h@[k + j]));
            return false;
        }
        j = j + 1;
    }
    true
}

/// Replaces every timestamp `DDDD-DD-DDTDD:DD:DDZ` of `xml` by
/// `1970-01-01T00:00:00Z`.
pub fn replace_timestamps(xml: &mut String)
    ensures
        final(xml)@ == stamps_replaced(old(xml)@),
{
    let h = chars_of(xml.as_str());
    let ep = chars_of("1970-01-01T00:00:00Z");
    let n = h.len();
    let mut out: Vec<char> = Vec::new();
    let mut k: usize = 0;
    assert(h@.skip(0) =~= h@);
    while k < n
        invariant
            n == h@.len(),
            ep@ == epoch(),
            k <= n,
            out@ + stamps_replaced(h@.skip(k as int)) == stamps_replaced(old(xml)@),
            h@ == old(xml)@,
        decreases n - k,
    {
        let ghost rest = h@.skip(k as int);
        let ghost before = out@;
        if n - k >= 20 && stamp_at_exec(&h, k) {
            assert(stamp_at(rest, 0)) by {
                assert forall|j: int| 0 <= j < 20 implies stamp_char_ok(j, #[trigger] rest[0 + j]) by {
                    assert(rest[0 + j] == h@[k + j]);
                }
            }
            let mut j: usize = 0;
            while j < 20
                invariant
                    ep@ == epoch(),
                    j <= 20,
                    out@ =~= before + ep@.take(j as int),
                decreases 20 - j,
            {
                proof { reveal_strlit("1970-01-01T00:00:00Z"); }
                out.push(ep[j]);
                j = j + 1;
            }
            proof { reveal_strlit("1970-01-01T00:00:00Z"); }
            assert(ep@.take(20) =~= ep@);
            assert(rest.skip(20) =~= h@.skip(k + 20));
            k = k + 20;
        } else {
            proof {
                if rest.len() >= 20 {
                    if stamp_at(rest, 0) {
                        assert forall|j: int| 0 <= j < 20 implies stamp_char_ok(j, #[trigger] h@[k + j]) by {
                            assert(rest[0 + j] == h@[k + j]);
                        }
                    }
                    assert(!stamp_at(rest, 0));
                } else {
                    assert(rest.skip(1).len() < 20);
                    assert(rest =~= seq![rest[0]] + rest.skip(1));
                }
            }
            assert(rest.skip(1) =~= h@.skip(k + 1));
            out.push(h[k]);
            assert(out@ + stamps_replaced(h@.skip(k + 1)) =~= before + (seq![rest[0]] + stamps_replaced(rest.skip(1))));
            k = k + 1;
        }
    }
    assert(h@.skip(n as int) =~= Seq::<char>::empty());
    assert(out@ + Seq::<char>::empty() =~= out@);
    *xml = string_of(&out);
}

/// The XML after the removals and attribute replacements of `scrub_xml`,
/// before its timestamps are replaced.
pub open spec fn scrub_before_stamps(xml: Seq<char>) -> Seq<char> {
    let t1 = remove_elements(xml, "<cp:lastModifiedBy>"@, "</cp:lastModifiedBy>"@);
    let t2 = remove_elements(t1, "<dc:creator>"@, "</dc:creator>"@);
    let t3 = replace_attrs(t2, "w:author"@ + seq!['=', '"'], ""@);
    let t4 = replace_attrs(t3, "w15:val"@ + seq!['=', '"'], "{00000000-0000-0000-0000-000000000000}"@);
    replace_attrs(t4, "siteId"@ + seq!['=', '"'], "{00000000-0000-0000-0000-000000000000}"@)
}

/// What `scrub_xml` makes of `xml`.
pub open spec fn scrubbed(xml: Seq<char>) -> Seq<char> {
    stamps_replaced(scrub_before_stamps(xml))
}

/// The attribute and element scrubbing of `scrub_xml`, before the
/// timestamps.
pub fn scrub_names(xml: &str) -> (res: String)
    ensures
        res@ == scrub_before_stamps(xml@),
{
    proof {
        reveal_strlit("</cp:lastModifiedBy>");
        reveal_strlit("</dc:creator>");
    }
    let mut x = xml.to_owned();
    remove_element(&mut x, "<cp:lastModifiedBy>", "</cp:lastModifiedBy>");
    remove_element(&mut x, "<dc:creator>", "</dc:creator>");
    replace_attr_value(&mut x, "w:author", "");
    replace_attr_value(&mut x, "w15:val", "{00000000-0000-0000-0000-000000000000}");
    replace_attr_value(&mut x, "siteId", "{00000000-0000-0000-0000-000000000000}");
    x
}

/// Scrubs the personal data out of one XML part: the last-modified-by and
/// creator elements, the author, `w15:val` and `siteId` attribute values,
/// and every timestamp.
pub fn scrub_xml(xml: &str) -> (res: String)
    ensures
        res@ == scrubbed(xml@),
{
    let mut x = scrub_names(xml);
    replace_timestamps(&mut x);
    x
}

/// Replacing timestamps keeps the length of the text: a timestamp and the
/// epoch are both 20 characters.
pub proof fn lemma_stamps_keep_length(h: Seq<char>)
    ensures
        stamps_replaced(h).len() == h.len(),
    decreases h.len(),
{
    reveal_strlit("1970-01-01T00:00:00Z");
    if h.len() >= 20 {
        if stamp_at(h, 0) {
            lemma_stamps_keep_length(h.skip(20));
        } else {
            lemma_stamps_keep_length(h.skip(1));
        }
    }
}

/// After `remove_element`, no complete element is left: either there is no
/// `open`, or no `close` after the first `open`.
pub proof fn lemma_no_element_left(h: Seq<char>, open: Seq<char>, close: Seq<char>)
    requires
        close.len() > 0,
    ensures
        first_occurrence(remove_elements(h, open, close), open, 0) matches Some(s)
            ==> first_occurrence(remove_elements(h, open, close), close, s) is None,
    decreases h.len(),
{
    if let Some(s) = first_occurrence(h, open, 0) {
        if let Some(e) = first_occurrence(h, close, s) {
            lemma_first_occurrence_bounds(h, open, 0);
            lemma_first_occurrence_bounds(h, close, s);
            lemma_no_element_left(h.take(s) + h.skip(e + close.len()), open, close);
        }
    }
}

/// Removing elements never lengthens the text.
pub proof fn lemma_removal_shortens(h: Seq<char>, open: Seq<char>, close: Seq<char>)
    ensures
        remove_elements(h, open, close).len() <= h.len(),
    decreases h.len(),
{
    if close.len() > 0 {
        if let Some(s) = first_occurrence(h, open, 0) {
            if let Some(e) = first_occurrence(h, close, s) {
                lemma_first_occurrence_bounds(h, open, 0);
                lemma_first_occurrence_bounds(h, close, s);
                lemma_removal_shortens(h.take(s) + h.skip(e + close.len()), open, close);
            }
        }
    }
}


/// Before the first occurrence found from `from`, `p` does not occur.
proof fn lemma_first_occurrence_first(h: Seq<char>, p: Seq<char>, from: int)
    ensures
        first_occurrence(h, p, from) matches Some(k) ==> forall|j: int|
            from <= j < k ==> #[trigger] h.subrange(j, j + p.len()) != p,
    decreases h.len() + 1 - from,
{
    if !(from < 0 || from + p.len() > h.len()) && h.subrange(from, from + p.len()) != p {
        lemma_first_occurrence_first(h, p, from + 1);
    }
}

/// An occurrence at `k` with none between `from` and `k` is the first one
/// found from `from`.
proof fn lemma_first_occurrence_at(h: Seq<char>, p: Seq<char>, from: int, k: int)
    requires
        0 <= from <= k,
        k + p.len() <= h.len(),
        h.subrange(k, k + p.len()) == p,
        forall|j: int| from <= j < k ==> #[trigger] h.subrange(j, j + p.len()) != p,
    ensures
        first_occurrence(h, p, from) == Some(k),
    decreases k - from,
{
    if from < k {
        lemma_first_occurrence_at(h, p, from + 1, k);
    }
}

/// Replacing attribute values a second time changes nothing, when the
/// replacement holds no `"`: each needle is found again where it was, and
/// its new value ends at the `"` written after the replacement.
pub proof fn lemma_replace_attrs_idempotent(h: Seq<char>, needle: Seq<char>, rep: Seq<char>)
    requires
        forall|i: int| 0 <= i < rep.len() ==> rep[i] != '"',
    ensures
        replace_attrs(replace_attrs(h, needle, rep), needle, rep) == replace_attrs(h, needle, rep),
    decreases h.len(),
{
    let q = seq!['"'];
    if let Some(r) = first_occurrence(h, needle, 0) {
        let vs = r + needle.len();
        if let Some(ve) = first_occurrence(h, q, vs) {
            lemma_first_occurrence_bounds(h, needle, 0);
            lemma_first_occurrence_bounds(h, q, vs);
            lemma_first_occurrence_first(h, needle, 0);
            let tail = replace_attrs(h.skip(ve + 1), needle, rep);
            let o = h.take(vs) + rep + q + tail;
            assert(replace_attrs(h, needle, rep) == o);
            assert forall|j: int| 0 <= j < r implies #[trigger] o.subrange(j, j + needle.len()) != needle by {
                assert(o.subrange(j, j + needle.len()) =~= h.subrange(j, j + needle.len()));
            }
            assert(o.subrange(r, vs) =~= h.subrange(r, vs));
            lemma_first_occurrence_at(o, needle, 0, r);
            let qe = vs + rep.len();
            assert forall|j: int| vs <= j < qe implies #[trigger] o.subrange(j, j + q.len()) != q by {
                assert(o.subrange(j, j + 1)[0] == rep[j - vs]);
            }
            assert(o.subrange(qe, qe + 1) =~= q);
            lemma_first_occurrence_at(o, q, vs, qe);
            assert(o.take(vs) =~= h.take(vs));
            assert(o.skip(qe + 1) =~= tail);
            lemma_replace_attrs_idempotent(h.skip(ve + 1), needle, rep);
        }
    }
}

/// The class of a character as the timestamp shape sees it: a digit, one
/// of the separators `-`, `T`, `:`, `Z`, or anything else.
spec fn shape_class(c: char) -> int {
    if '0' <= c && c <= '9' { 0 }
    else if c == '-' { 1 }
    else if c == 'T' { 2 }
    else if c == ':' { 3 }
    else if c == 'Z' { 4 }
    else { 5 }
}

/// The class a timestamp has at position `j`.
spec fn stamp_class(j: int) -> int {
    if j == 4 || j == 7 { 1 }
    else if j == 10 { 2 }
    else if j == 13 || j == 16 { 3 }
    else if j == 19 { 4 }
    else { 0 }
}

/// Two texts of one length whose characters have the same classes.
spec fn same_shape(a: Seq<char>, b: Seq<char>) -> bool {
    a.len() == b.len() && forall|i: int| 0 <= i < a.len() ==> shape_class(#[trigger] a[i]) == shape_class(b[i])
}

proof fn lemma_stamp_char_class(j: int, c: char)
    ensures
        stamp_char_ok(j, c) <==> shape_class(c) == stamp_class(j),
{
}

proof fn lemma_same_shape_stamp(a: Seq<char>, b: Seq<char>, k: int)
    requires
        same_shape(a, b),
    ensures
        stamp_at(a, k) == stamp_at(b, k),
{
    if 0 <= k && k + 20 <= a.len() {
        assert forall|j: int| 0 <= j < 20 implies stamp_char_ok(j, #[trigger] a[k + j]) == stamp_char_ok(j, b[k + j]) by {
            lemma_stamp_char_class(j, a[k + j]);
            lemma_stamp_char_class(j, b[k + j]);
        }
        if stamp_at(a, k) {
            assert forall|j: int| 0 <= j < 20 implies stamp_char_ok(j, #[trigger] b[k + j]) by {
                assert(stamp_char_ok(j, a[k + j]));
            }
        }
        if stamp_at(b, k) {
            assert forall|j: int| 0 <= j < 20 implies stamp_char_ok(j, #[trigger] a[k + j]) by {
                assert(stamp_char_ok(j, b[k + j]));
            }
        }
    }
}

proof fn lemma_epoch_is_stamp()
    ensures
        epoch().len() == 20,
        stamp_at(epoch(), 0),
{
    reveal_strlit("1970-01-01T00:00:00Z");
    let e = epoch();
    assert forall|j: int| 0 <= j < 20 implies stamp_char_ok(j, #[trigger] e[0 + j]) by {
        assert(e =~= seq!['1', '9', '7', '0', '-', '0', '1', '-', '0', '1', 'T', '0', '0', ':', '0', '0', ':', '0', '0', 'Z']);
    }
}

/// Replacing timestamps keeps the class of every character.
proof fn lemma_stamps_same_shape(h: Seq<char>)
    ensures
        same_shape(stamps_replaced(h), h),
    decreases h.len(),
{
    lemma_stamps_keep_length(h);
    let s = stamps_replaced(h);
    if h.len() >= 20 {
        if stamp_at(h, 0) {
            lemma_stamps_same_shape(h.skip(20));
            lemma_epoch_is_stamp();
            assert forall|i: int| 0 <= i < s.len() implies shape_class(#[trigger] s[i]) == shape_class(h[i]) by {
                if i < 20 {
                    assert(s[i] == epoch()[0 + i]);
                    assert(h[i] == h[0 + i]);
                    lemma_stamp_char_class(i, epoch()[0 + i]);
                    lemma_stamp_char_class(i, h[0 + i]);
                } else {
                    assert(s[i] == stamps_replaced(h.skip(20))[i - 20]);
                    assert(h[i] == h.skip(20)[i - 20]);
                }
            }
        } else {
            lemma_stamps_same_shape(h.skip(1));
            assert forall|i: int| 0 <= i < s.len() implies shape_class(#[trigger] s[i]) == shape_class(h[i]) by {
                if i > 0 {
                    assert(s[i] == stamps_replaced(h.skip(1))[i - 1]);
                    assert(h[i] == h.skip(1)[i - 1]);
                }
            }
        }
    }
}

/// Replacing timestamps a second time changes nothing: the epoch is itself
/// a timestamp, and is replaced by itself, and no new timestamp appears.
pub proof fn lemma_stamps_idempotent(h: Seq<char>)
    ensures
        stamps_replaced(stamps_replaced(h)) == stamps_replaced(h),
    decreases h.len(),
{
    let s = stamps_replaced(h);
    lemma_stamps_keep_length(h);
    if h.len() >= 20 {
        if stamp_at(h, 0) {
            lemma_epoch_is_stamp();
            let t = stamps_replaced(h.skip(20));
            assert(stamp_at(s, 0)) by {
                assert forall|j: int| 0 <= j < 20 implies stamp_char_ok(j, #[trigger] s[0 + j]) by {
                    assert(s[0 + j] == epoch()[0 + j]);
                }
            }
            assert(s.skip(20) =~= t);
            lemma_stamps_idempotent(h.skip(20));
        } else {
            lemma_stamps_same_shape(h);
            lemma_same_shape_stamp(s, h, 0);
            assert(s.skip(1) =~= stamps_replaced(h.skip(1)));
            assert(s[0] == h[0]);
            lemma_stamps_idempotent(h.skip(1));
        }
    }
}


/// Index `i` lies in a window `[k, k + 20)` where `h` has a timestamp and
/// `s` has the epoch.
pub open spec fn in_replaced_window(h: Seq<char>, s: Seq<char>, i: int) -> bool {
    exists|k: int| k <= i < k + 20 && #[trigger] stamp_at(h, k) && s.subrange(k, k + 20) == epoch()
}

/// Replacing timestamps changes the text only inside windows where a
/// timestamp stood, and each such window now holds the epoch.
pub proof fn lemma_stamps_confined(h: Seq<char>)
    ensures
        forall|i: int| 0 <= i < h.len() && #[trigger] stamps_replaced(h)[i] != h[i]
            ==> in_replaced_window(h, stamps_replaced(h), i),
    decreases h.len(),
{
    let s = stamps_replaced(h);
    lemma_stamps_keep_length(h);
    if h.len() >= 20 {
        let step: int = if stamp_at(h, 0) { 20 } else { 1 };
        let h2 = h.skip(step);
        let s2 = stamps_replaced(h2);
        lemma_stamps_confined(h2);
        lemma_stamps_keep_length(h2);
        lemma_epoch_is_stamp();
        assert forall|i: int| 0 <= i < h.len() && #[trigger] s[i] != h[i] implies in_replaced_window(h, s, i) by {
            if stamp_at(h, 0) && i < 20 {
                assert(s.subrange(0, 20) =~= epoch());
                assert(stamp_at(h, 0));
            } else {
                assert(i >= step);
                assert(s[i] == s2[i - step]);
                assert(h[i] == h2[i - step]);
                assert(in_replaced_window(h2, s2, i - step));
                let k2 = choose|k: int| k <= i - step < k + 20 && #[trigger] stamp_at(h2, k)
                    && s2.subrange(k, k + 20) == epoch();
                let k = k2 + step;
                assert(stamp_at(h, k)) by {
                    assert forall|j: int| 0 <= j < 20 implies stamp_char_ok(j, #[trigger] h[k + j]) by {
                        assert(h[k + j] == h2[k2 + j]);
                    }
                }
                assert(s.subrange(k, k + 20) =~= s2.subrange(k2, k2 + 20));
            }
        }
    }
}


/// `p` occurs in `h` at index `i`.
pub open spec fn occurs_at(h: Seq<char>, p: Seq<char>, i: int) -> bool {
    0 <= i && i + p.len() <= h.len() && h.subrange(i, i + p.len()) == p
}

/// `h` holds a complete `open ... close` element: `open` occurs somewhere
/// and `close` occurs at or after it.
pub open spec fn holds_element(h: Seq<char>, open: Seq<char>, close: Seq<char>) -> bool {
    exists|i: int, j: int| i <= j && #[trigger] occurs_at(h, open, i) && #[trigger] occurs_at(h, close, j)
}

proof fn lemma_occurrence_found(h: Seq<char>, p: Seq<char>, from: int, i: int)
    requires
        occurs_at(h, p, i),
        0 <= from <= i,
    ensures
        first_occurrence(h, p, from) matches Some(s) && s <= i,
    decreases i - from,
{
    if h.subrange(from, from + p.len()) != p {
        lemma_occurrence_found(h, p, from + 1, i);
    }
}

/// Where the first `open` has no `close` after it, there is no element.
proof fn lemma_no_element_by_first(h: Seq<char>, open: Seq<char>, close: Seq<char>)
    requires
        first_occurrence(h, open, 0) matches Some(s) ==> first_occurrence(h, close, s) is None,
    ensures
        !holds_element(h, open, close),
{
    if holds_element(h, open, close) {
        let (i, j) = choose|i: int, j: int| i <= j && #[trigger] occurs_at(h, open, i) && #[trigger] occurs_at(h, close, j);
        lemma_occurrence_found(h, open, 0, i);
        lemma_first_occurrence_bounds(h, open, 0);
        let s = first_occurrence(h, open, 0)->Some_0;
        lemma_occurrence_found(h, close, s, j);
    }
}

proof fn lemma_occurs_in_prefix(h: Seq<char>, n: int, p: Seq<char>, i: int)
    requires
        0 <= n <= h.len(),
        occurs_at(h.take(n), p, i),
    ensures
        occurs_at(h, p, i),
{
    assert(h.subrange(i, i + p.len()) =~= h.take(n).subrange(i, i + p.len()));
}

proof fn lemma_occurs_in_suffix(h: Seq<char>, d: int, p: Seq<char>, i: int)
    requires
        0 <= d <= h.len(),
        occurs_at(h.skip(d), p, i),
    ensures
        occurs_at(h, p, i + d),
{
    assert(h.subrange(i + d, i + d + p.len()) =~= h.skip(d).subrange(i, i + p.len()));
}

proof fn lemma_no_element_in_suffix(h: Seq<char>, d: int, open: Seq<char>, close: Seq<char>)
    requires
        0 <= d <= h.len(),
        !holds_element(h, open, close),
    ensures
        !holds_element(h.skip(d), open, close),
{
    if holds_element(h.skip(d), open, close) {
        let (i, j) = choose|i: int, j: int| i <= j && #[trigger] occurs_at(h.skip(d), open, i)
            && #[trigger] occurs_at(h.skip(d), close, j);
        lemma_occurs_in_suffix(h, d, open, i);
        lemma_occurs_in_suffix(h, d, close, j);
    }
}

/// An occurrence of `p` in `a + r + b` lies wholly in `a` or wholly in `b`
/// when no character of `p` is one of `r`.
proof fn lemma_occurs_around(a: Seq<char>, r: Seq<char>, b: Seq<char>, p: Seq<char>, i: int, ok: spec_fn(char) -> bool)
    requires
        occurs_at(a + r + b, p, i),
        p.len() > 0,
        r.len() > 0,
        forall|k: int| 0 <= k < p.len() ==> ok(#[trigger] p[k]),
        forall|k: int| 0 <= k < r.len() ==> !ok(#[trigger] r[k]),
    ensures
        (i + p.len() <= a.len() && occurs_at(a, p, i))
            || (i >= a.len() + r.len() && occurs_at(b, p, i - a.len() - r.len())),
{
    let x = a + r + b;
    if i + p.len() <= a.len() {
        assert(x.subrange(i, i + p.len()) =~= a.subrange(i, i + p.len()));
    } else if i >= a.len() + r.len() {
        let k = i - a.len() - r.len();
        assert(x.subrange(i, i + p.len()) =~= b.subrange(k, k + p.len()));
    } else {
        let t: int = if i < a.len() { a.len() as int } else { i };
        assert(x[t] == r[t - a.len()]);
        assert(x.subrange(i, i + p.len())[t - i] == x[t]);
        assert(ok(p[t - i]));
    }
}

/// An occurrence, after replacing attribute values, of a pattern that
/// shares no character with the replacement or with `"` was already in the
/// text.
proof fn lemma_attrs_keep_occurrence(
    h: Seq<char>,
    needle: Seq<char>,
    rep: Seq<char>,
    p: Seq<char>,
    ok: spec_fn(char) -> bool,
    i: int,
) -> (k: int)
    requires
        p.len() > 0,
        forall|k: int| 0 <= k < p.len() ==> ok(#[trigger] p[k]),
        forall|k: int| 0 <= k < (rep + seq!['"']).len() ==> !ok(#[trigger] (rep + seq!['"'])[k]),
        occurs_at(replace_attrs(h, needle, rep), p, i),
    ensures
        occurs_at(h, p, k),
    decreases h.len(),
{
    let q = seq!['"'];
    match first_occurrence(h, needle, 0) {
        None => i,
        Some(r) => {
            let vs = r + needle.len();
            match first_occurrence(h, q, vs) {
                None => i,
                Some(ve) => {
                    lemma_first_occurrence_bounds(h, needle, 0);
                    lemma_first_occurrence_bounds(h, q, vs);
                    let rest = h.skip(ve + 1);
                    let a = h.take(vs);
                    let rr = rep + q;
                    let b = replace_attrs(rest, needle, rep);
                    assert(replace_attrs(h, needle, rep) =~= a + rr + b);
                    lemma_occurs_around(a, rr, b, p, i, ok);
                    if i + p.len() <= a.len() {
                        lemma_occurs_in_prefix(h, vs, p, i);
                        i
                    } else {
                        let k2 = lemma_attrs_keep_occurrence(rest, needle, rep, p, ok, i - a.len() - rr.len());
                        lemma_occurs_in_suffix(h, ve + 1, p, k2);
                        k2 + ve + 1
                    }
                },
            }
        },
    }
}

/// Replacing attribute values makes no new element whose tags share no
/// character with the replacement or with `"`.
proof fn lemma_attrs_make_no_element(
    h: Seq<char>,
    needle: Seq<char>,
    rep: Seq<char>,
    open: Seq<char>,
    close: Seq<char>,
    ok: spec_fn(char) -> bool,
)
    requires
        open.len() > 0,
        close.len() > 0,
        forall|k: int| 0 <= k < open.len() ==> ok(#[trigger] open[k]),
        forall|k: int| 0 <= k < close.len() ==> ok(#[trigger] close[k]),
        forall|k: int| 0 <= k < (rep + seq!['"']).len() ==> !ok(#[trigger] (rep + seq!['"'])[k]),
        !holds_element(h, open, close),
    ensures
        !holds_element(replace_attrs(h, needle, rep), open, close),
    decreases h.len(),
{
    let q = seq!['"'];
    if let Some(r) = first_occurrence(h, needle, 0) {
        let vs = r + needle.len();
        if let Some(ve) = first_occurrence(h, q, vs) {
            lemma_first_occurrence_bounds(h, needle, 0);
            lemma_first_occurrence_bounds(h, q, vs);
            let rest = h.skip(ve + 1);
            lemma_no_element_in_suffix(h, ve + 1, open, close);
            lemma_attrs_make_no_element(rest, needle, rep, open, close, ok);
            let a = h.take(vs);
            let rr = rep + q;
            let b = replace_attrs(rest, needle, rep);
            let out = a + rr + b;
            assert(replace_attrs(h, needle, rep) =~= out);
            if holds_element(out, open, close) {
                let (i, j) = choose|i: int, j: int| i <= j && #[trigger] occurs_at(out, open, i)
                    && #[trigger] occurs_at(out, close, j);
                lemma_occurs_around(a, rr, b, open, i, ok);
                lemma_occurs_around(a, rr, b, close, j, ok);
                let off = a.len() + rr.len();
                if i + open.len() <= a.len() {
                    lemma_occurs_in_prefix(h, vs, open, i);
                    if j + close.len() <= a.len() {
                        lemma_occurs_in_prefix(h, vs, close, j);
                    } else {
                        let j2 = lemma_attrs_keep_occurrence(rest, needle, rep, close, ok, j - off);
                        lemma_occurs_in_suffix(h, ve + 1, close, j2);
                        assert(occurs_at(h, close, j2 + ve + 1));
                    }
                } else {
                    assert(occurs_at(b, open, i - off));
                    assert(occurs_at(b, close, j - off));
                }
            }
        }
    }
}

/// Where a timestamp replacement changed a character, the new one is a
/// digit: separators are kept.
proof fn lemma_stamp_change_is_digit(h: Seq<char>, t: int)
    requires
        0 <= t < h.len(),
        stamps_replaced(h)[t] != h[t],
    ensures
        '0' <= stamps_replaced(h)[t] <= '9',
{
    let s = stamps_replaced(h);
    lemma_stamps_keep_length(h);
    lemma_stamps_confined(h);
    lemma_epoch_is_stamp();
    assert(in_replaced_window(h, s, t));
    let k = choose|k: int| k <= t < k + 20 && #[trigger] stamp_at(h, k) && s.subrange(k, k + 20) == epoch();
    let j = t - k;
    assert(s[t] == s.subrange(k, k + 20)[j]);
    assert(s[t] == epoch()[0 + j]);
    assert(stamp_char_ok(j, epoch()[0 + j]));
    assert(stamp_char_ok(j, h[k + j]));
}

/// Replacing timestamps makes no new element whose tags hold no digit.
proof fn lemma_stamps_make_no_element(h: Seq<char>, open: Seq<char>, close: Seq<char>)
    requires
        forall|k: int| 0 <= k < open.len() ==> !('0' <= #[trigger] open[k] <= '9'),
        forall|k: int| 0 <= k < close.len() ==> !('0' <= #[trigger] close[k] <= '9'),
        !holds_element(h, open, close),
    ensures
        !holds_element(stamps_replaced(h), open, close),
{
    let s = stamps_replaced(h);
    lemma_stamps_keep_length(h);
    assert forall|p: Seq<char>, i: int|
        (forall|k: int| 0 <= k < p.len() ==> !('0' <= #[trigger] p[k] <= '9')) && #[trigger] occurs_at(s, p, i)
        implies occurs_at(h, p, i) by {
        assert forall|k: int| 0 <= k < p.len() implies h.subrange(i, i + p.len())[k] == p[k] by {
            assert(s.subrange(i, i + p.len())[k] == p[k]);
            if s[i + k] != h[i + k] {
                lemma_stamp_change_is_digit(h, i + k);
            }
        }
        assert(h.subrange(i, i + p.len()) =~= p);
    }
    if holds_element(s, open, close) {
        let (i, j) = choose|i: int, j: int| i <= j && #[trigger] occurs_at(s, open, i) && #[trigger] occurs_at(s, close, j);
        assert(occurs_at(h, open, i));
        assert(occurs_at(h, close, j));
    }
}

/// The characters of the scrubbed element tags.
spec fn tag_char(c: char) -> bool {
    ('a' <= c && c <= 'z') || ('A' <= c && c <= 'Z') || c == '<' || c == '>' || c == ':' || c == '/'
}

/// Scrubbing leaves no complete `<dc:creator>...</dc:creator>` element: the
/// creator's name is gone from every scrubbed part, whatever it held.
pub proof fn lemma_scrubbed_has_no_creator(xml: Seq<char>)
    ensures
        !holds_element(scrubbed(xml), "<dc:creator>"@, "</dc:creator>"@),
{
    let o = "<dc:creator>"@;
    let c = "</dc:creator>"@;
    reveal_strlit("<dc:creator>");
    reveal_strlit("</dc:creator>");
    reveal_strlit("");
    reveal_strlit("{00000000-0000-0000-0000-000000000000}");
    let guid = "{00000000-0000-0000-0000-000000000000}"@;
    let ok = |ch: char| tag_char(ch);
    let t1 = remove_elements(xml, "<cp:lastModifiedBy>"@, "</cp:lastModifiedBy>"@);
    let t2 = remove_elements(t1, o, c);
    let t3 = replace_attrs(t2, "w:author"@ + seq!['=', '"'], ""@);
    let t4 = replace_attrs(t3, "w15:val"@ + seq!['=', '"'], guid);
    let t5 = replace_attrs(t4, "siteId"@ + seq!['=', '"'], guid);
    assert(forall|k: int| 0 <= k < o.len() ==> ok(#[trigger] o[k]));
    assert(forall|k: int| 0 <= k < c.len() ==> ok(#[trigger] c[k]));
    assert(""@ + seq!['"'] =~= seq!['"']);
    assert(forall|k: int| 0 <= k < (""@ + seq!['"']).len() ==> !ok(#[trigger] (""@ + seq!['"'])[k]));
    assert forall|k: int| 0 <= k < (guid + seq!['"']).len() implies !ok(#[trigger] (guid + seq!['"'])[k]) by {
        let g = guid + seq!['"'];
        assert(g[k] == '{' || g[k] == '}' || g[k] == '0' || g[k] == '-' || g[k] == '"');
    }
    lemma_no_element_left(t1, o, c);
    lemma_no_element_by_first(t2, o, c);
    lemma_attrs_make_no_element(t2, "w:author"@ + seq!['=', '"'], ""@, o, c, ok);
    lemma_attrs_make_no_element(t3, "w15:val"@ + seq!['=', '"'], guid, o, c, ok);
    lemma_attrs_make_no_element(t4, "siteId"@ + seq!['=', '"'], guid, o, c, ok);
    lemma_stamps_make_no_element(t5, o, c);
}

/// Removing elements a second time changes nothing.
pub proof fn lemma_remove_elements_idempotent(h: Seq<char>, open: Seq<char>, close: Seq<char>)
    requires
        close.len() > 0,
    ensures
        remove_elements(remove_elements(h, open, close), open, close) == remove_elements(h, open, close),
{
    lemma_no_element_left(h, open, close);
}

/// Scrubbing removes every `<cp:lastModifiedBy>...</cp:lastModifiedBy>`
/// element itself: removing them beforehand changes nothing of the result.
pub proof fn lemma_scrub_removes_last_modified_by(xml: Seq<char>)
    ensures
        scrubbed(remove_elements(xml, "<cp:lastModifiedBy>"@, "</cp:lastModifiedBy>"@)) == scrubbed(xml),
{
    reveal_strlit("</cp:lastModifiedBy>");
    lemma_remove_elements_idempotent(xml, "<cp:lastModifiedBy>"@, "</cp:lastModifiedBy>"@);
}


/// Two timestamps never overlap: a `T` stands only at offset 10 and a `Z`
/// only at offset 19 of one.
proof fn lemma_stamps_apart(h: Seq<char>, a: int, b: int)
    requires
        stamp_at(h, a),
        stamp_at(h, b),
        a < b,
    ensures
        b >= a + 20,
{
    if b < a + 20 {
        let d = b - a;
        if d <= 9 {
            assert(stamp_char_ok(10 + d, h[a + (10 + d)]));
            assert(stamp_char_ok(10, h[b + 10]));
        } else {
            assert(stamp_char_ok(19, h[a + 19]));
            assert(stamp_char_ok(19 - d, h[b + (19 - d)]));
        }
    }
}

/// Every timestamp in the text after replacement is the epoch.
pub proof fn lemma_only_epoch_left(h: Seq<char>, k: int)
    requires
        stamp_at(stamps_replaced(h), k),
    ensures
        stamps_replaced(h).subrange(k, k + 20) == epoch(),
    decreases h.len(),
{
    let s = stamps_replaced(h);
    lemma_stamps_same_shape(h);
    lemma_same_shape_stamp(s, h, k);
    lemma_epoch_is_stamp();
    if h.len() >= 20 {
        if stamp_at(h, 0) {
            let t = stamps_replaced(h.skip(20));
            if k == 0 {
                assert(s.subrange(0, 20) =~= epoch());
            } else {
                lemma_stamps_apart(h, 0, k);
                lemma_stamps_keep_length(h.skip(20));
                assert(stamp_at(t, k - 20)) by {
                    assert forall|j: int| 0 <= j < 20 implies stamp_char_ok(j, #[trigger] t[(k - 20) + j]) by {
                        assert(s[k + j] == t[(k - 20) + j]);
                    }
                }
                lemma_only_epoch_left(h.skip(20), k - 20);
                assert(s.subrange(k, k + 20) =~= t.subrange(k - 20, k));
            }
        } else {
            let t = stamps_replaced(h.skip(1));
            assert(k != 0);
            lemma_stamps_keep_length(h.skip(1));
            assert(stamp_at(t, k - 1)) by {
                assert forall|j: int| 0 <= j < 20 implies stamp_char_ok(j, #[trigger] t[(k - 1) + j]) by {
                    assert(s[k + j] == t[(k - 1) + j]);
                }
            }
            lemma_only_epoch_left(h.skip(1), k - 1);
            assert(s.subrange(k, k + 20) =~= t.subrange(k - 1, k + 19));
        }
    }
}

/// A scrubbed part holds no timestamp but `1970-01-01T00:00:00Z`.
pub proof fn lemma_scrubbed_timestamps_are_epoch(xml: Seq<char>, k: int)
    requires
        stamp_at(scrubbed(xml), k),
    ensures
        scrubbed(xml).subrange(k, k + 20) == "1970-01-01T00:00:00Z"@,
{
    lemma_only_epoch_left(scrub_before_stamps(xml), k);
}


/// A pattern holding a character that the text lacks does not occur in it.
proof fn lemma_absent_char(h: Seq<char>, p: Seq<char>, k: int)
    requires
        0 <= k < p.len(),
        forall|i: int| 0 <= i < h.len() ==> h[i] != p[k],
    ensures
        first_occurrence(h, p, 0) is None,
{
    lemma_first_occurrence_bounds(h, p, 0);
    if let Some(s) = first_occurrence(h, p, 0) {
        assert(h.subrange(s, s + p.len())[k] == h[s + k]);
    }
}

/// In the attribute `nd` followed by a value `x` and its closing quote, the
/// only `=` is that of `nd`, so another attribute needle `m` occurs only as
/// a suffix of `nd`.
proof fn lemma_other_needle_absent(nd: Seq<char>, x: Seq<char>, m: Seq<char>)
    requires
        nd.len() >= 2,
        m.len() >= 2,
        nd[nd.len() - 2] == '=',
        m[m.len() - 2] == '=',
        forall|i: int| 0 <= i < nd.len() - 2 ==> nd[i] != '=',
        nd[nd.len() - 1] != '=',
        forall|i: int| 0 <= i < x.len() ==> x[i] != '=',
        !(m.len() <= nd.len() && nd.subrange(nd.len() - m.len(), nd.len() as int) == m),
    ensures
        first_occurrence(nd + x + seq!['"'], m, 0) is None,
{
    let h = nd + x + seq!['"'];
    lemma_first_occurrence_bounds(h, m, 0);
    if let Some(s) = first_occurrence(h, m, 0) {
        let t = s + m.len() - 2;
        assert(h[t] == h.subrange(s, s + m.len())[m.len() - 2]);
        if t < nd.len() - 2 {
            assert(h[t] == nd[t]);
        } else if t == nd.len() - 1 {
            assert(h[t] == nd[t]);
        } else if t >= nd.len() && t < nd.len() + x.len() {
            assert(h[t] == x[t - nd.len()]);
        }
        assert(t == nd.len() - 2);
        assert(h.subrange(s, s + m.len()) =~= nd.subrange(nd.len() - m.len(), nd.len() as int));
    }
}

/// Text without `Z` holds no timestamp and is left as it is.
proof fn lemma_no_z_unchanged(h: Seq<char>)
    requires
        forall|i: int| 0 <= i < h.len() ==> h[i] != 'Z',
    ensures
        stamps_replaced(h) == h,
    decreases h.len(),
{
    if h.len() >= 20 {
        assert(!stamp_char_ok(19, h[0int + 19]));
        lemma_no_z_unchanged(h.skip(1));
        assert(seq![h[0]] + h.skip(1) =~= h);
    }
}

/// Element removal leaves text without `<` as it is.
proof fn lemma_no_tag_unchanged(h: Seq<char>, open: Seq<char>, close: Seq<char>)
    requires
        open.len() > 0,
        open[0] == '<',
        close.len() > 0,
        forall|i: int| 0 <= i < h.len() ==> h[i] != '<',
    ensures
        remove_elements(h, open, close) == h,
{
    lemma_absent_char(h, open, 0);
}

/// The attribute `nd`, its value `x` and the closing quote, with its value
/// replaced by `rep`.
proof fn lemma_attr_replaced(nd: Seq<char>, x: Seq<char>, rep: Seq<char>)
    requires
        nd.len() > 0,
        forall|i: int| 0 <= i < x.len() ==> x[i] != '"',
    ensures
        replace_attrs(nd + x + seq!['"'], nd, rep) == nd + rep + seq!['"'],
{
    let q = seq!['"'];
    let h = nd + x + q;
    assert(h.subrange(0, nd.len() as int) =~= nd);
    lemma_first_occurrence_at(h, nd, 0, 0);
    let e: int = nd.len() as int + x.len() as int;
    assert forall|j: int| nd.len() <= j < e implies #[trigger] h.subrange(j, j + q.len()) != q by {
        assert(h.subrange(j, j + 1)[0] == x[j - nd.len()]);
    }
    assert(h.subrange(e, e + 1) =~= q);
    lemma_first_occurrence_at(h, q, nd.len() as int, e);
    assert(h.take(nd.len() as int) =~= nd);
    assert(h.skip(e + 1) =~= Seq::<char>::empty());
    assert(replace_attrs(Seq::<char>::empty(), nd, rep) == Seq::<char>::empty());
}

/// The text scrubbed in `scrub_xml`, with its steps named.
proof fn lemma_scrub_steps_plain(h: Seq<char>)
    requires
        forall|i: int| 0 <= i < h.len() ==> h[i] != '<',
    ensures
        scrub_before_stamps(h) == replace_attrs(
            replace_attrs(
                replace_attrs(h, "w:author"@ + seq!['=', '"'], ""@),
                "w15:val"@ + seq!['=', '"'],
                "{00000000-0000-0000-0000-000000000000}"@,
            ),
            "siteId"@ + seq!['=', '"'],
            "{00000000-0000-0000-0000-000000000000}"@,
        ),
{
    reveal_strlit("<cp:lastModifiedBy>");
    reveal_strlit("</cp:lastModifiedBy>");
    reveal_strlit("<dc:creator>");
    reveal_strlit("</dc:creator>");
    lemma_no_tag_unchanged(h, "<cp:lastModifiedBy>"@, "</cp:lastModifiedBy>"@);
    lemma_no_tag_unchanged(h, "<dc:creator>"@, "</dc:creator>"@);
}

/// A value that holds no quote, tag or `=`.
pub open spec fn plain_value(x: Seq<char>) -> bool {
    forall|i: int| 0 <= i < x.len() ==> x[i] != '"' && x[i] != '<' && x[i] != '='
}

/// Scrubbing blanks an author: `w:author="x"` becomes `w:author=""`.
pub proof fn lemma_author_blanked(x: Seq<char>)
    requires
        plain_value(x),
    ensures
        scrubbed("w:author=\""@ + x + "\""@) == "w:author=\"\""@,
{
    reveal_strlit("w:author=\"");
    reveal_strlit("\"");
    reveal_strlit("w:author=\"\"");
    reveal_strlit("w:author");
    reveal_strlit("w15:val");
    reveal_strlit("siteId");
    reveal_strlit("");
    reveal_strlit("{00000000-0000-0000-0000-000000000000}");
    let nd = "w:author"@ + seq!['=', '"'];
    let w = "w15:val"@ + seq!['=', '"'];
    let si = "siteId"@ + seq!['=', '"'];
    let q = seq!['"'];
    assert(nd =~= "w:author=\""@);
    let h = nd + x + q;
    assert("w:author=\""@ + x + "\""@ =~= h);
    assert forall|i: int| 0 <= i < h.len() implies h[i] != '<' by {
        if nd.len() <= i < nd.len() + x.len() { assert(h[i] == x[i - nd.len()]); }
    }
    lemma_scrub_steps_plain(h);
    lemma_attr_replaced(nd, x, ""@);
    let t = nd + ""@ + q;
    assert(t =~= nd + Seq::<char>::empty() + q);
    assert(nd.subrange(nd.len() - w.len(), nd.len() as int) != w) by {
        assert(nd.subrange(nd.len() - w.len(), nd.len() as int)[0] != w[0]);
    }
    lemma_other_needle_absent(nd, Seq::<char>::empty(), w);
    assert(nd.subrange(nd.len() - si.len(), nd.len() as int) != si) by {
        assert(nd.subrange(nd.len() - si.len(), nd.len() as int)[0] != si[0]);
    }
    lemma_other_needle_absent(nd, Seq::<char>::empty(), si);
    assert(t =~= "w:author=\"\""@);
}

/// Scrubbing resets a `w15:val` id: `w15:val="x"` becomes the all-zero id.
pub proof fn lemma_w15_id_zeroed(x: Seq<char>)
    requires
        plain_value(x),
    ensures
        scrubbed("w15:val=\""@ + x + "\""@) == "w15:val=\"{00000000-0000-0000-0000-000000000000}\""@,
{
    reveal_strlit("w15:val=\"");
    reveal_strlit("\"");
    reveal_strlit("w15:val=\"{00000000-0000-0000-0000-000000000000}\"");
    reveal_strlit("w:author");
    reveal_strlit("w15:val");
    reveal_strlit("siteId");
    reveal_strlit("{00000000-0000-0000-0000-000000000000}");
    let g = "{00000000-0000-0000-0000-000000000000}"@;
    let nd = "w:author"@ + seq!['=', '"'];
    let w = "w15:val"@ + seq!['=', '"'];
    let si = "siteId"@ + seq!['=', '"'];
    let q = seq!['"'];
    let h = w + x + q;
    assert("w15:val=\""@ + x + "\""@ =~= h);
    assert forall|i: int| 0 <= i < h.len() implies h[i] != '<' by {
        if w.len() <= i < w.len() + x.len() { assert(h[i] == x[i - w.len()]); }
    }
    lemma_scrub_steps_plain(h);
    lemma_other_needle_absent(w, x, nd);
    lemma_attr_replaced(w, x, g);
    let t = w + g + q;
    assert forall|i: int| 0 <= i < t.len() implies t[i] != 'I' && t[i] != 'Z' by {
        if i < w.len() { assert(t[i] == w[i]); }
        else if i < w.len() + g.len() { assert(t[i] == g[i - w.len()]); }
    }
    lemma_absent_char(t, si, 4);
    lemma_no_z_unchanged(t);
    assert(t =~= "w15:val=\"{00000000-0000-0000-0000-000000000000}\""@);
}

/// Scrubbing resets a `siteId`: `siteId="x"` becomes the all-zero id.
pub proof fn lemma_site_id_zeroed(x: Seq<char>)
    requires
        plain_value(x),
    ensures
        scrubbed("siteId=\""@ + x + "\""@) == "siteId=\"{00000000-0000-0000-0000-000000000000}\""@,
{
    reveal_strlit("siteId=\"");
    reveal_strlit("\"");
    reveal_strlit("siteId=\"{00000000-0000-0000-0000-000000000000}\"");
    reveal_strlit("w:author");
    reveal_strlit("w15:val");
    reveal_strlit("siteId");
    reveal_strlit("{00000000-0000-0000-0000-000000000000}");
    let g = "{00000000-0000-0000-0000-000000000000}"@;
    let nd = "w:author"@ + seq!['=', '"'];
    let w = "w15:val"@ + seq!['=', '"'];
    let si = "siteId"@ + seq!['=', '"'];
    let q = seq!['"'];
    let h = si + x + q;
    assert("siteId=\""@ + x + "\""@ =~= h);
    assert forall|i: int| 0 <= i < h.len() implies h[i] != '<' by {
        if si.len() <= i < si.len() + x.len() { assert(h[i] == x[i - si.len()]); }
    }
    lemma_scrub_steps_plain(h);
    lemma_other_needle_absent(si, x, nd);
    lemma_other_needle_absent(si, x, w);
    lemma_attr_replaced(si, x, g);
    let t = si + g + q;
    assert forall|i: int| 0 <= i < t.len() implies t[i] != 'Z' by {
        if i < si.len() { assert(t[i] == si[i]); }
        else if i < si.len() + g.len() { assert(t[i] == g[i - si.len()]); }
    }
    lemma_no_z_unchanged(t);
    assert(t =~= "siteId=\"{00000000-0000-0000-0000-000000000000}\""@);
}

} // verus!
