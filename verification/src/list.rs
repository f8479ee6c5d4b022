//! The list-numbering state machine: turns a paragraph's list level into the
//! marker text ("1.", "a)", "iv.", bullets) shown in front of it.

use vstd::prelude::*;
use crate::numerals::{letters, lower_letter, lower_roman, roman, upper_ascii, upper_letter, upper_roman};
use crate::strings::{decimal, decimal_string, lemma_decimal_digits};
use crate::tables::{bullet_char_map, bullet_chars_table, lookup, table_lookup};
use crate::text::{chars_of, push_chars, push_str, same_text, space_string, spaces};

verus! {

/// How a list level renders its counter.
#[derive(Clone, Copy, PartialEq, Eq, Structural, Debug)]
pub enum NumFormat {
    Bullet,
    Decimal,
    LowerLetter,
    UpperLetter,
    LowerRoman,
    UpperRoman,
}

/// One level of an abstract numbering definition.
#[derive(Debug)]
pub struct LevelDef {
    pub format: NumFormat,
    /// The marker template, with `%N` placeholders for the counters.
    pub lvl_text: String,
    /// The value the counter starts from.
    pub start: usize,
    /// Spaces of indentation in front of the marker.
    pub indent_spaces: usize,
    /// The level's left indentation, in twips; it decides the nesting.
    pub left_twips: usize,
}

/// The abstract value of a `LevelDef`.
pub struct LevelSpec {
    pub format: NumFormat,
    pub text: Seq<char>,
    pub start: usize,
    pub indent: usize,
    pub left: usize,
}

impl View for LevelDef {
    type V = LevelSpec;

    open spec fn view(&self) -> LevelSpec {
        LevelSpec {
            format: self.format,
            text: self.lvl_text@,
            start: self.start,
            indent: self.indent_spaces,
            left: self.left_twips,
        }
    }
}

/// The abstract state of the numbering: one entry per open nesting level,
/// innermost last, with its counter, its indentation and the key
/// (`abstractNumId:ilvl`) of the level that last numbered there.
pub struct ListModel {
    pub cnt: Seq<usize>,
    pub twips: Seq<usize>,
    pub keys: Seq<Option<Seq<char>>>,
}

/// The three stacks have the same, non-zero height.
pub open spec fn model_wf(m: ListModel) -> bool {
    &&& m.cnt.len() >= 1
    &&& m.twips.len() == m.cnt.len()
    &&& m.keys.len() == m.cnt.len()
}

/// The state before any list paragraph: one outermost entry at indentation 0.
pub open spec fn initial_model() -> ListModel {
    ListModel { cnt: seq![0usize], twips: seq![0usize], keys: seq![None] }
}

/// Closes the nesting levels that are indented deeper than `left`, keeping
/// the outermost one.
pub open spec fn unwind(m: ListModel, left: usize) -> ListModel
    decreases m.twips.len(),
{
    if m.twips.len() > 1 && m.twips.last() > left {
        unwind(
            ListModel { cnt: m.cnt.drop_last(), twips: m.twips.drop_last(), keys: m.keys.drop_last() },
            left,
        )
    } else {
        m
    }
}

/// Counts a paragraph at indentation `left` for the level `key`: the same
/// level at the same indentation counts on; another level at that indentation
/// restarts from `start`; a new indentation opens a nesting level. `None`
/// where the counter would pass `usize::MAX`.
pub open spec fn advance(m: ListModel, left: usize, key: Seq<char>, start: usize) -> Option<ListModel> {
    let top = m.cnt.len() - 1;
    if left == m.twips[top] {
        if m.keys[top] == Some(key) {
            if m.cnt[top] == usize::MAX {
                None
            } else {
                Some(ListModel { cnt: m.cnt.update(top, (m.cnt[top] + 1) as usize), twips: m.twips, keys: m.keys })
            }
        } else {
            Some(ListModel { cnt: m.cnt.update(top, start), twips: m.twips, keys: m.keys.update(top, Some(key)) })
        }
    } else {
        Some(ListModel { cnt: m.cnt.push(start), twips: m.twips.push(left), keys: m.keys.push(Some(key)) })
    }
}

/// The rendering of counter value `n` in format `f`; `None` for a letter
/// format at zero, which has no letter.
pub open spec fn counter_text(f: NumFormat, n: usize) -> Option<Seq<char>> {
    match f {
        NumFormat::Decimal => Some(decimal(n as nat)),
        NumFormat::LowerLetter => if n >= 1 { Some(letters(n as nat)) } else { None },
        NumFormat::UpperLetter => if n >= 1 { Some(upper_ascii(letters(n as nat))) } else { None },
        NumFormat::LowerRoman => Some(roman(n as nat)),
        NumFormat::UpperRoman => Some(upper_ascii(roman(n as nat))),
        NumFormat::Bullet => None,
    }
}

/// The index of the last `%` in `t`, if any.
pub open spec fn last_percent(t: Seq<char>) -> Option<int>
    decreases t.len(),
{
    if t.len() == 0 {
        None
    } else if t.last() == '%' {
        Some(t.len() - 1)
    } else {
        last_percent(t.drop_last())
    }
}

/// A placeholder at `k` can be filled: a character follows the `%` and it is
/// a one-byte (ASCII) character, so the two-byte placeholder ends on a
/// character boundary.
pub open spec fn placeholder_ok(t: Seq<char>, k: int) -> bool {
    k + 1 < t.len() && (t[k + 1] as u32) < 128
}

/// `t` with the two-character placeholder at `k` replaced by `r`.
pub open spec fn fill_at(t: Seq<char>, k: int, r: Seq<char>) -> Seq<char> {
    t.take(k) + r + t.skip(k + 2)
}

/// Fills the remaining placeholders from the back with the decimal values
/// of the enclosing counters `cnts[i]`, `cnts[i - 1]`, ...; `None` where a
/// placeholder cannot be filled.
pub open spec fn fill_parents(t: Seq<char>, cnts: Seq<usize>, i: int) -> Option<Seq<char>>
    decreases i + 1,
{
    if i < 0 {
        Some(t)
    } else {
        match last_percent(t) {
            None => Some(t),
            Some(k) => if placeholder_ok(t, k) {
                fill_parents(fill_at(t, k, decimal(cnts[i] as nat)), cnts, i - 1)
            } else {
                None
            },
        }
    }
}

/// The marker template with its last placeholder replaced by `own` and the
/// ones before it by the enclosing counters of `cnts` (innermost last).
pub open spec fn fill_template(t: Seq<char>, own: Seq<char>, cnts: Seq<usize>) -> Option<Seq<char>> {
    match last_percent(t) {
        None => fill_parents(t, cnts, cnts.len() - 2),
        Some(k) => if placeholder_ok(t, k) {
            fill_parents(fill_at(t, k, own), cnts, cnts.len() - 2)
        } else {
            None
        },
    }
}

/// What a bullet glyph is shown as: its table entry, or `oo` for an unknown
/// glyph.
pub open spec fn bullet_text(c: char) -> Seq<char> {
    match table_lookup(bullet_chars_table(), c) {
        Some(r) => r@,
        None => "oo"@,
    }
}

/// The first character of a bullet template (`'\0'` for an empty one).
pub open spec fn first_char(t: Seq<char>) -> char {
    if t.len() > 0 { t[0] } else { '\0' }
}

/// The state after numbering a paragraph of `level` (keyed `key`) and the
/// marker text put in front of it, or `None` on the inputs where no marker
/// can be made (a counter overflow, a letter counter at zero, a placeholder
/// at the end of the template or before a multi-byte character).
pub open spec fn next_number(m: ListModel, level: LevelSpec, key: Seq<char>) -> Option<(ListModel, Seq<char>)> {
    if level.format == NumFormat::Bullet {
        Some((m, spaces(level.indent as nat) + bullet_text(first_char(level.text)) + seq![' ']))
    } else {
        match advance(unwind(m, level.left), level.left, key, level.start) {
            None => None,
            Some(m2) => match counter_text(level.format, m2.cnt.last()) {
                None => None,
                Some(own) => match fill_template(level.text, own, m2.cnt) {
                    None => None,
                    Some(t) => Some((m2, spaces(level.indent as nat) + t + seq![' '])),
                },
            },
        }
    }
}

/// The nesting entries are indented ever deeper, from 0 at the outermost.
pub open spec fn twips_ordered(m: ListModel) -> bool {
    &&& m.twips[0] == 0
    &&& forall|i: int, j: int| 0 <= i < j < m.twips.len() ==> m.twips[i] < m.twips[j]
}

proof fn lemma_unwind_props(m: ListModel, left: usize)
    requires
        model_wf(m),
        twips_ordered(m),
    ensures
        model_wf(unwind(m, left)),
        twips_ordered(unwind(m, left)),
        unwind(m, left).twips.len() == 1 || unwind(m, left).twips.last() <= left,
        unwind(m, left).twips.len() <= m.twips.len(),
        forall|i: int| 0 <= i < unwind(m, left).twips.len() ==> unwind(m, left).twips[i] == m.twips[i]
            && unwind(m, left).cnt[i] == m.cnt[i] && unwind(m, left).keys[i] == m.keys[i],
    decreases m.twips.len(),
{
    if m.twips.len() > 1 && m.twips.last() > left {
        let m1 = ListModel { cnt: m.cnt.drop_last(), twips: m.twips.drop_last(), keys: m.keys.drop_last() };
        lemma_unwind_props(m1, left);
        let u = unwind(m, left);
        assert(u == unwind(m1, left));
        assert forall|i: int| 0 <= i < u.twips.len() implies u.twips[i] == m.twips[i] && u.cnt[i] == m.cnt[i]
            && u.keys[i] == m.keys[i] by {
            assert(m1.twips[i] == m.twips[i]);
            assert(m1.cnt[i] == m.cnt[i]);
            assert(m1.keys[i] == m.keys[i]);
        }
    }
}

/// The numbering state keeps its shape: each step leaves the stacks of equal
/// height, the outermost entry at indentation 0 and the entries indented
/// ever deeper.
pub proof fn lemma_next_number_keeps_shape(m: ListModel, level: LevelSpec, key: Seq<char>)
    requires
        model_wf(m),
        twips_ordered(m),
    ensures
        next_number(m, level, key) matches Some((m2, _)) ==> model_wf(m2) && twips_ordered(m2),
{
    if level.format != NumFormat::Bullet {
        let u = unwind(m, level.left);
        lemma_unwind_props(m, level.left);
        let top = u.cnt.len() - 1;
        if level.left != u.twips[top] {
            let m2 = ListModel { cnt: u.cnt.push(level.start), twips: u.twips.push(level.left), keys: u.keys.push(Some(key)) };
            assert forall|i: int, j: int| 0 <= i < j < m2.twips.len() implies m2.twips[i] < m2.twips[j] by {
                if j == m2.twips.len() - 1 {
                    if i < top {
                        assert(u.twips[i] < u.twips[top]);
                    }
                }
            }
        }
    }
}

/// The state at the start of a document has that shape.
pub proof fn lemma_initial_shape()
    ensures
        model_wf(initial_model()),
        twips_ordered(initial_model()),
{
}

/// A bullet level changes nothing in the numbering.
pub proof fn lemma_bullet_keeps_state(m: ListModel, level: LevelSpec, key: Seq<char>)
    requires
        level.format == NumFormat::Bullet,
    ensures
        next_number(m, level, key) matches Some((m2, _)) && m2 == m,
{
}

/// Numbering a paragraph of the same non-bullet level again, right after,
/// counts on by one.
pub proof fn lemma_same_level_counts_on(m: ListModel, level: LevelSpec, key: Seq<char>)
    requires
        model_wf(m),
        twips_ordered(m),
        level.format != NumFormat::Bullet,
        next_number(m, level, key) is Some,
        next_number(m, level, key)->Some_0.0.cnt.last() < usize::MAX,
    ensures
        ({
            let m2 = next_number(m, level, key)->Some_0.0;
            advance(unwind(m2, level.left), level.left, key, level.start) == Some(ListModel {
                cnt: m2.cnt.update(m2.cnt.len() - 1, (m2.cnt.last() + 1) as usize),
                twips: m2.twips,
                keys: m2.keys,
            })
        }),
{
    let u = unwind(m, level.left);
    lemma_unwind_props(m, level.left);
    let m2 = next_number(m, level, key)->Some_0.0;
    assert(m2.twips.last() == level.left);
    assert(m2.keys.last() == Some(key));
    assert(unwind(m2, level.left) == m2);
}

/// A different level at the same indentation restarts the counter there
/// from its own start value.
pub proof fn lemma_other_level_restarts(m: ListModel, level: LevelSpec, key: Seq<char>)
    requires
        model_wf(m),
        twips_ordered(m),
        level.format != NumFormat::Bullet,
        unwind(m, level.left).twips.last() == level.left,
        unwind(m, level.left).keys.last() != Some(key),
    ensures
        advance(unwind(m, level.left), level.left, key, level.start) matches Some(m2)
            && m2.cnt.last() == level.start && m2.twips == unwind(m, level.left).twips,
{
    lemma_unwind_props(m, level.left);
}

/// The numbering state of one document.
pub struct ListState {
    last_cnt: Vec<usize>,
    twip_stack: Vec<usize>,
    key_stack: Vec<Option<String>>,
    bullet_map: Vec<(char, &'static str)>,
}

/// The text of an optional key.
pub open spec fn key_view(k: Option<String>) -> Option<Seq<char>> {
    match k {
        Some(s) => Some(s@),
        None => None,
    }
}

impl View for ListState {
    type V = ListModel;

    closed spec fn view(&self) -> ListModel {
        ListModel {
            cnt: self.last_cnt@,
            twips: self.twip_stack@,
            keys: self.key_stack@.map_values(|k: Option<String>| key_view(k)),
        }
    }
}

impl ListState {
    /// The stacks agree in height, the nesting entries are indented ever
    /// deeper from 0, and the bullet table is in place.
    pub closed spec fn wf(&self) -> bool {
        &&& model_wf(self@)
        &&& twips_ordered(self@)
        &&& self.bullet_map@ == bullet_chars_table()
    }

    /// The state at the start of a document.
    pub fn new() -> (res: Self)
        ensures
            res.wf(),
            res@ == initial_model(),
            model_wf(res@),
            twips_ordered(res@),
    {
        let res = ListState {
            last_cnt: vec![0],
            twip_stack: vec![0],
            key_stack: vec![None],
            bullet_map: bullet_char_map(),
        };
        assert(res@.keys =~= seq![None]);
        assert(res@.cnt =~= seq![0usize]);
        assert(res@.twips =~= seq![0usize]);
        res
    }

    /// Numbers a paragraph of `level`, keyed `key`, and returns its marker.
    pub fn format_number(&mut self, level: &LevelDef, key: &str) -> (res: String)
        requires
            old(self).wf(),
            next_number(old(self)@, level@, key@) is Some,
        ensures
            final(self).wf(),
            next_number(old(self)@, level@, key@) == Some((final(self)@, res@)),
            model_wf(final(self)@),
            twips_ordered(final(self)@),
    {
        match self.try_format_number(level, key) {
            Some(s) => s,
            None => String::new(),
        }
    }

    /// Numbers a paragraph of `level`, keyed `key`, and returns its marker;
    /// `None`, exactly where `next_number` has no result.
    pub fn try_format_number(&mut self, level: &LevelDef, key: &str) -> (res: Option<String>)
        requires
            old(self).wf(),
        ensures
            final(self).wf(),
            res is Some <==> next_number(old(self)@, level@, key@) is Some,
            res matches Some(s) ==> next_number(old(self)@, level@, key@) == Some((final(self)@, s@)),
            model_wf(final(self)@),
            twips_ordered(final(self)@),
    {
        if level.format == NumFormat::Bullet {
            let text = chars_of(level.lvl_text.as_str());
            let ch = if text.len() > 0 { text[0] } else { '\0' };
            let bullet = match lookup(&self.bullet_map, ch) {
                Some(b) => b,
                None => "oo",
            };
            let mut out = space_string(level.indent_spaces);
            push_str(&mut out, bullet);
            out.push(' ');
            return Some(out);
        }
        let ghost m0 = self@;
        self.unwind_to(level.left_twips);
        assert(self@ == unwind(m0, level.left_twips));
        proof { lemma_unwind_props(m0, level.left_twips); }
        if !self.advance_to(level.left_twips, key, level.start) {
            return None;
        }
        let ssiz = self.last_cnt.len();
        let ccnt = self.last_cnt[ssiz - 1];
        let own = match counter_string(level.format, ccnt) {
            Some(s) => s,
            None => return None,
        };
        let template = chars_of(level.lvl_text.as_str());
        let own_chars = chars_of(own.as_str());
        let filled = match fill_template_exec(&template, &own_chars, &self.last_cnt) {
            Some(t) => t,
            None => return None,
        };
        let mut out = space_string(level.indent_spaces);
        push_chars(&mut out, &filled);
        out.push(' ');
        Some(out)
    }

    fn unwind_to(&mut self, left: usize)
        requires
            old(self).wf(),
        ensures
            final(self).wf(),
            final(self)@ == unwind(old(self)@, left),
    {
        while self.twip_stack.len() > 1 && self.twip_stack[self.twip_stack.len() - 1] > left
            invariant
                self.wf(),
                unwind(self@, left) == unwind(old(self)@, left),
            decreases self.twip_stack@.len(),
        {
            let ghost m = self@;
            self.twip_stack.pop();
            self.key_stack.pop();
            self.last_cnt.pop();
            assert(self@.keys =~= m.keys.drop_last());
            assert(self@.cnt =~= m.cnt.drop_last());
            assert(self@.twips =~= m.twips.drop_last());
        }
    }

    fn advance_to(&mut self, left: usize, key: &str, start: usize) -> (ok: bool)
        requires
            old(self).wf(),
            old(self)@.twips.last() <= left,
        ensures
            final(self).wf(),
            ok <==> advance(old(self)@, left, key@, start) is Some,
            ok ==> advance(old(self)@, left, key@, start) == Some(final(self)@),
    {
        let ghost m = self@;
        let top = self.last_cnt.len() - 1;
        if left == self.twip_stack[top] {
            let same = match &self.key_stack[top] {
                Some(k) => same_text(k.as_str(), key),
                None => false,
            };
            assert(same == (m.keys[top as int] == Some(key@)));
            if same {
                let c = self.last_cnt[top];
                if c == usize::MAX {
                    return false;
                }
                self.last_cnt.set(top, c + 1);
                assert(self@.keys =~= m.keys);
            } else {
                self.key_stack.set(top, Some(key.to_owned()));
                self.last_cnt.set(top, start);
                assert(self@.keys =~= m.keys.update(top as int, Some(key@)));
            }
        } else {
            self.twip_stack.push(left);
            self.key_stack.push(Some(key.to_owned()));
            self.last_cnt.push(start);
            assert(self@.keys =~= m.keys.push(Some(key@)));
        }
        true
    }
}

/// Renders counter value `n` in format `f`, `None` where `counter_text` has
/// no rendering.
fn counter_string(f: NumFormat, n: usize) -> (res: Option<String>)
    ensures
        res is Some <==> counter_text(f, n) is Some,
        res matches Some(s) ==> counter_text(f, n) == Some(s@),
{
    match f {
        NumFormat::Decimal => Some(decimal_string(n)),
        NumFormat::LowerLetter => if n >= 1 { Some(lower_letter(n)) } else { None },
        NumFormat::UpperLetter => if n >= 1 { Some(upper_letter(n)) } else { None },
        NumFormat::LowerRoman => Some(lower_roman(n)),
        NumFormat::UpperRoman => Some(upper_roman(n)),
        NumFormat::Bullet => None,
    }
}

/// The index of the last `%` of `t`.
fn rfind_percent(t: &Vec<char>) -> (res: Option<usize>)
    ensures
        res matches Some(k) ==> last_percent(t@) == Some(k as int),
        res is None ==> last_percent(t@) is None,
{
    let mut i = t.len();
    assert(t@.take(i as int) =~= t@);
    while i > 0
        invariant
            i <= t@.len(),
            last_percent(t@) == last_percent(t@.take(i as int)),
        decreases i,
    {
        assert(t@.take(i as int).drop_last() =~= t@.take(i - 1));
        if t[i - 1] == '%' {
            return Some(i - 1);
        }
        i = i - 1;
    }
    None
}

/// `t` with the placeholder at `k` replaced by `r`.
fn fill_at_exec(t: &Vec<char>, k: usize, r: &Vec<char>) -> (res: Vec<char>)
    requires
        k + 2 <= t@.len(),
    ensures
        res@ == fill_at(t@, k as int, r@),
{
    let mut out: Vec<char> = Vec::new();
    let n = t.len();
    let mut i: usize = 0;
    while i < k
        invariant
            k + 2 <= t@.len(),
            i <= k,
            out@ =~= t@.take(i as int),
        decreases k - i,
    {
        out.push(t[i]);
        i = i + 1;
    }
    let mut j: usize = 0;
    while j < r.len()
        invariant
            j <= r@.len(),
            out@ =~= t@.take(k as int) + r@.take(j as int),
        decreases r@.len() - j,
    {
        out.push(r[j]);
        j = j + 1;
    }
    let mut i = k + 2;
    while i < t.len()
        invariant
            k + 2 <= i <= t@.len(),
            out@ =~= t@.take(k as int) + r@ + t@.subrange(k + 2, i as int),
        decreases t@.len() - i,
    {
        out.push(t[i]);
        i = i + 1;
    }
    assert(t@.subrange(k + 2, t@.len() as int) =~= t@.skip(k + 2));
    out
}

fn placeholder_ok_exec(t: &Vec<char>, k: usize) -> (res: bool)
    ensures
        res == placeholder_ok(t@, k as int),
{
    k < t.len() && t.len() - k > 1 && (t[k + 1] as u32) < 128
}

/// Fills the placeholders of `t` as `fill_template` says.
fn fill_template_exec(t: &Vec<char>, own: &Vec<char>, cnts: &Vec<usize>) -> (res: Option<Vec<char>>)
    requires
        cnts@.len() >= 1,
    ensures
        res is Some <==> fill_template(t@, own@, cnts@) is Some,
        res matches Some(v) ==> fill_template(t@, own@, cnts@) == Some(v@),
{
    let mut text: Vec<char> = match rfind_percent(t) {
        None => t.clone(),
        Some(k) => {
            if !placeholder_ok_exec(t, k) {
                return None;
            }
            fill_at_exec(t, k, own)
        },
    };
    let mut i: usize = cnts.len() - 1;
    // `i` counts the enclosing counters that are still to be used.
    while i > 0
        invariant
            1 <= cnts@.len(),
            i <= cnts@.len() - 1,
            fill_template(t@, own@, cnts@) == fill_parents(text@, cnts@, i - 1),
        decreases i,
    {
        match rfind_percent(&text) {
            None => {
                return Some(text);
            },
            Some(k) => {
                if !placeholder_ok_exec(&text, k) {
                    return None;
                }
                let d = decimal_string(cnts[i - 1]);
                let dc = chars_of(d.as_str());
                text = fill_at_exec(&text, k, &dc);
                i = i - 1;
            },
        }
    }
    Some(text)
}


/// `s` holds no `%`.
pub open spec fn no_percent(s: Seq<char>) -> bool {
    forall|i: int| 0 <= i < s.len() ==> s[i] != '%'
}

/// The text `lits[0] fills[0] lits[1] fills[1] ... fills[m - 1] lits[m]`,
/// where `m` is the number of fills.
pub open spec fn interleave(lits: Seq<Seq<char>>, fills: Seq<Seq<char>>) -> Seq<char>
    decreases fills.len(),
{
    if lits.len() == 0 {
        Seq::empty()
    } else if fills.len() == 0 {
        lits[0]
    } else {
        interleave(lits.drop_last(), fills.drop_last()) + fills.last() + lits.last()
    }
}

/// The placeholders `%d` of a template, one for each character `d` of `ds`.
pub open spec fn placeholders(ds: Seq<char>) -> Seq<Seq<char>> {
    Seq::new(ds.len(), |j: int| seq!['%', ds[j]])
}

/// What the `j`-th of the placeholders (counted from the front) of a
/// marker becomes under the open counters `cnts` (outermost first): the last
/// placeholder the level's own counter text `own`; each one before it the
/// decimal value of the next enclosing counter, so that the placeholders
/// line up with the innermost counters, the outermost placeholder with the
/// outermost of them; a placeholder left with no counter stays as it is.
pub open spec fn marker_piece(ds: Seq<char>, j: int, own: Seq<char>, cnts: Seq<usize>) -> Seq<char> {
    let m = ds.len() as int;
    let n = cnts.len() as int;
    if j == m - 1 {
        own
    } else if j >= m - n {
        decimal(cnts[n - m + j] as nat)
    } else {
        seq!['%', ds[j]]
    }
}

/// The pieces that the placeholders of `ds` become, front to back.
pub open spec fn marker_pieces(ds: Seq<char>, own: Seq<char>, cnts: Seq<usize>) -> Seq<Seq<char>> {
    Seq::new(ds.len(), |j: int| marker_piece(ds, j, own, cnts))
}

/// The placeholders of `ds` with the last `i + 1` of them filled, from the
/// back, by `cnts[i]`, `cnts[i - 1]`, ...
spec fn parents_filled(ds: Seq<char>, cnts: Seq<usize>, i: int) -> Seq<Seq<char>> {
    Seq::new(ds.len(), |j: int| if j >= ds.len() - (i + 1) {
        decimal(cnts[i - (ds.len() - 1 - j)] as nat)
    } else {
        seq!['%', ds[j]]
    })
}

proof fn lemma_last_percent_after(a: Seq<char>, b: Seq<char>)
    requires
        no_percent(b),
    ensures
        last_percent(a + b) == last_percent(a),
    decreases b.len(),
{
    if b.len() == 0 {
        assert(a + b =~= a);
    } else {
        assert((a + b).drop_last() =~= a + b.drop_last());
        assert((a + b).last() == b.last());
        lemma_last_percent_after(a, b.drop_last());
    }
}

/// A template of placeholder form, split at its last placeholder.
proof fn lemma_split_last(lits: Seq<Seq<char>>, ds: Seq<char>, tail: Seq<char>)
    requires
        lits.len() == ds.len() + 1,
        ds.len() >= 1,
        forall|j: int| 0 <= j < lits.len() ==> no_percent(#[trigger] lits[j]),
        forall|j: int| 0 <= j < ds.len() ==> #[trigger] ds[j] != '%' && (ds[j] as u32) < 128,
        no_percent(tail),
    ensures
        ({
            let p = interleave(lits.drop_last(), placeholders(ds.drop_last()));
            let t = interleave(lits, placeholders(ds)) + tail;
            &&& last_percent(t) == Some(p.len() as int)
            &&& placeholder_ok(t, p.len() as int)
            &&& forall|r: Seq<char>| fill_at(t, p.len() as int, r) == p + (r + lits.last() + tail)
        }),
{
    let p = interleave(lits.drop_last(), placeholders(ds.drop_last()));
    let ph = placeholders(ds);
    assert(ph.drop_last() =~= placeholders(ds.drop_last()));
    let d = ds.last();
    let l = lits.last();
    assert(lits[lits.len() - 1] == l);
    let t = interleave(lits, ph) + tail;
    assert(t =~= (p + seq!['%']) + (seq![d] + l + tail));
    assert(no_percent(seq![d] + l + tail)) by {
        let x = seq![d] + l + tail;
        assert forall|i: int| 0 <= i < x.len() implies x[i] != '%' by {
            if i == 0 {
            } else if i < 1 + l.len() {
                assert(x[i] == l[i - 1]);
            } else {
                assert(x[i] == tail[i - 1 - l.len()]);
            }
        }
    }
    lemma_last_percent_after(p + seq!['%'], seq![d] + l + tail);
    assert((p + seq!['%']).last() == '%');
    assert(t[p.len() as int + 1] == d);
    assert forall|r: Seq<char>| fill_at(t, p.len() as int, r) == p + (r + l + tail) by {
        assert(t.take(p.len() as int) =~= p);
        assert(t.skip(p.len() as int + 2) =~= l + tail);
        assert(fill_at(t, p.len() as int, r) =~= p + (r + l + tail));
    }
}

proof fn lemma_parents_filled(lits: Seq<Seq<char>>, ds: Seq<char>, tail: Seq<char>, cnts: Seq<usize>, i: int)
    requires
        lits.len() == ds.len() + 1,
        forall|j: int| 0 <= j < lits.len() ==> no_percent(#[trigger] lits[j]),
        forall|j: int| 0 <= j < ds.len() ==> #[trigger] ds[j] != '%' && (ds[j] as u32) < 128,
        no_percent(tail),
        -1 <= i < cnts.len(),
    ensures
        fill_parents(interleave(lits, placeholders(ds)) + tail, cnts, i)
            == Some(interleave(lits, parents_filled(ds, cnts, i)) + tail),
    decreases ds.len(),
{
    let t = interleave(lits, placeholders(ds)) + tail;
    let f = parents_filled(ds, cnts, i);
    if i < 0 {
        assert(f =~= placeholders(ds));
    } else if ds.len() == 0 {
        assert(t =~= lits[0] + tail);
        assert(no_percent(lits[0] + tail)) by {
            let x = lits[0] + tail;
            assert forall|k: int| 0 <= k < x.len() implies x[k] != '%' by {
                if k < lits[0].len() {
                    assert(x[k] == lits[0][k]);
                } else {
                    assert(x[k] == tail[k - lits[0].len()]);
                }
            }
        }
        lemma_last_percent_after(Seq::<char>::empty(), lits[0] + tail);
        assert(Seq::<char>::empty() + (lits[0] + tail) =~= t);
    } else {
        let m = ds.len() as int;
        let p = interleave(lits.drop_last(), placeholders(ds.drop_last()));
        let l = lits.last();
        let dec = decimal(cnts[i] as nat);
        lemma_split_last(lits, ds, tail);
        lemma_decimal_digits(cnts[i] as nat);
        let tail2 = dec + l + tail;
        assert(no_percent(tail2)) by {
            assert forall|k: int| 0 <= k < tail2.len() implies tail2[k] != '%' by {
                if k < dec.len() {
                    assert(tail2[k] == dec[k]);
                } else if k < dec.len() + l.len() {
                    assert(tail2[k] == l[k - dec.len()]);
                } else {
                    assert(tail2[k] == tail[k - dec.len() - l.len()]);
                }
            }
        }
        assert(fill_at(t, p.len() as int, dec) == p + tail2);
        lemma_parents_filled(lits.drop_last(), ds.drop_last(), tail2, cnts, i - 1);
        let f2 = parents_filled(ds.drop_last(), cnts, i - 1);
        assert(f.drop_last() =~= f2);
        assert(f.last() == dec);
        assert(interleave(lits, f) == interleave(lits.drop_last(), f2) + dec + l);
        assert(interleave(lits.drop_last(), f2) + tail2 =~= interleave(lits.drop_last(), f2) + dec + l + tail);
    }
}

/// The marker template `lits[0] %d1 lits[1] %d2 ... %dm lits[m]` (literal
/// runs holding no `%`, each `%` followed by an ASCII character other than
/// `%`) is filled in closed form: its last placeholder becomes the level's
/// own counter text, and the placeholders before it the decimal values of
/// the enclosing counters, so that placeholder `j` from the front gets
/// counter `cnts.len() - m + j` (outermost first); with counters
/// `[0, 2, 1, 1]` the template `%1.%2.%3.` becomes `2.1.1.`.
pub proof fn lemma_template_filled(lits: Seq<Seq<char>>, ds: Seq<char>, own: Seq<char>, cnts: Seq<usize>)
    requires
        cnts.len() >= 1,
        lits.len() == ds.len() + 1,
        forall|j: int| 0 <= j < lits.len() ==> no_percent(#[trigger] lits[j]),
        forall|j: int| 0 <= j < ds.len() ==> #[trigger] ds[j] != '%' && (ds[j] as u32) < 128,
        no_percent(own),
    ensures
        fill_template(interleave(lits, placeholders(ds)), own, cnts)
            == Some(interleave(lits, marker_pieces(ds, own, cnts))),
{
    let t = interleave(lits, placeholders(ds));
    let n = cnts.len() as int;
    assert(t + Seq::<char>::empty() =~= t);
    if ds.len() == 0 {
        lemma_parents_filled(lits, ds, Seq::<char>::empty(), cnts, n - 2);
        assert(no_percent(lits[0]));
        lemma_last_percent_after(Seq::<char>::empty(), lits[0]);
        assert(Seq::<char>::empty() + lits[0] =~= lits[0]);
        assert(interleave(lits, parents_filled(ds, cnts, n - 2)) == lits[0]);
        assert(interleave(lits, marker_pieces(ds, own, cnts)) == lits[0]);
    } else {
        let p = interleave(lits.drop_last(), placeholders(ds.drop_last()));
        let l = lits.last();
        assert(no_percent(Seq::<char>::empty()));
        lemma_split_last(lits, ds, Seq::<char>::empty());
        let tail = own + l;
        assert(no_percent(tail)) by {
            assert forall|k: int| 0 <= k < tail.len() implies tail[k] != '%' by {
                if k < own.len() {
                    assert(tail[k] == own[k]);
                } else {
                    assert(tail[k] == l[k - own.len()]);
                }
            }
        }
        assert(fill_at(t, p.len() as int, own) == p + (own + l + Seq::<char>::empty()));
        assert(own + l + Seq::<char>::empty() =~= tail);
        lemma_parents_filled(lits.drop_last(), ds.drop_last(), tail, cnts, n - 2);
        let f2 = parents_filled(ds.drop_last(), cnts, n - 2);
        let f = marker_pieces(ds, own, cnts);
        assert(f.drop_last() =~= f2);
        assert(f.last() == own);
        assert(interleave(lits, f) == interleave(lits.drop_last(), f2) + own + l);
        assert(interleave(lits.drop_last(), f2) + tail =~= interleave(lits.drop_last(), f2) + own + l);
    }
}

} // verus!
