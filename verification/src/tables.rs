//! Character substitution tables.

use vstd::prelude::*;

verus! {

/// The Unicode-to-ASCII substitutions applied to extracted text, as
/// (character, replacement) pairs.
pub open spec fn special_chars_table() -> Seq<(char, &'static str)> {
    seq![
        ('\u{00A0}', " "),
        ('\u{00A2}', "cent"),
        ('\u{00A3}', "Pound"),
        ('\u{00A5}', "Yen"),
        ('\u{00A6}', "|"),
        ('\u{00A9}', "(C)"),
        ('\u{00AB}', "<<"),
        ('\u{00AC}', "-"),
        ('\u{00AE}', "(R)"),
        ('\u{00B1}', "+-"),
        ('\u{00B4}', "'"),
        ('\u{00B5}', "u"),
        ('\u{00BB}', ">>"),
        ('\u{00BC}', "(1/4)"),
        ('\u{00BD}', "(1/2)"),
        ('\u{00BE}', "(3/4)"),
        ('\u{00D7}', "x"),
        ('\u{00F7}', "/"),
        ('\u{03C0}', "PI"),
        ('\u{2002}', "  "),
        ('\u{2003}', "  "),
        ('\u{2005}', " "),
        ('\u{2013}', " - "),
        ('\u{2014}', " -- "),
        ('\u{2015}', "--"),
        ('\u{2018}', "`"),
        ('\u{2019}', "'"),
        ('\u{201C}', "\""),
        ('\u{201D}', "\""),
        ('\u{2022}', "::"),
        ('\u{2026}', "..."),
        ('\u{2030}', "%."),
        ('\u{20AC}', "Euro"),
        ('\u{2105}', "c/o"),
        ('\u{2117}', "(P)"),
        ('\u{2120}', "(SM)"),
        ('\u{2122}', "(TM)"),
        ('\u{2126}', "Ohm"),
        ('\u{2153}', "(1/3)"),
        ('\u{2154}', "(2/3)"),
        ('\u{2155}', "(1/5)"),
        ('\u{2156}', "(2/5)"),
        ('\u{2157}', "(3/5)"),
        ('\u{2158}', "(4/5)"),
        ('\u{2159}', "(1/6)"),
        ('\u{215B}', "(1/8)"),
        ('\u{215C}', "(3/8)"),
        ('\u{215D}', "(5/8)"),
        ('\u{215E}', "(7/8)"),
        ('\u{215F}', "1/"),
        ('\u{2190}', "<--"),
        ('\u{2192}', "-->"),
        ('\u{2194}', "<-->"),
        ('\u{2202}', "d"),
        ('\u{221E}', "infinity"),
        ('\u{2260}', "!="),
        ('\u{2264}', "<="),
        ('\u{2265}', ">="),
        ('\u{F0B7}', "*"),
    ]
}

/// The bullet glyphs of list levels and the text each is shown as.
pub open spec fn bullet_chars_table() -> Seq<(char, &'static str)> {
    seq![
        ('o', "o"),
        ('\u{F076}', "::"),
        ('\u{F0A7}', "#"),
        ('\u{F0B7}', "*"),
        ('\u{F0D8}', ">"),
        ('\u{F0FC}', "+"),
    ]
}

/// No character occurs twice as a key of `t`.
pub open spec fn keys_distinct(t: Seq<(char, &'static str)>) -> bool {
    forall|i: int, j: int| 0 <= i < j < t.len() ==> #[trigger] t[i].0 != #[trigger] t[j].0
}

/// The replacement text that `t` gives for `c`: that of the first pair whose
/// key is `c`, or `None` when `c` is no key.
pub open spec fn table_lookup(t: Seq<(char, &'static str)>, c: char) -> Option<&'static str>
    decreases t.len(),
{
    if t.len() == 0 {
        None
    } else if t[0].0 == c {
        Some(t[0].1)
    } else {
        table_lookup(t.drop_first(), c)
    }
}

/// The Unicode-to-ASCII substitution table.
pub fn special_chars_map() -> (res: Vec<(char, &'static str)>)
    ensures
        res@ == special_chars_table(),
{
    let v = vec![
        ('\u{00A0}', " "),
        ('\u{00A2}', "cent"),
        ('\u{00A3}', "Pound"),
        ('\u{00A5}', "Yen"),
        ('\u{00A6}', "|"),
        ('\u{00A9}', "(C)"),
        ('\u{00AB}', "<<"),
        ('\u{00AC}', "-"),
        ('\u{00AE}', "(R)"),
        ('\u{00B1}', "+-"),
        ('\u{00B4}', "'"),
        ('\u{00B5}', "u"),
        ('\u{00BB}', ">>"),
        ('\u{00BC}', "(1/4)"),
        ('\u{00BD}', "(1/2)"),
        ('\u{00BE}', "(3/4)"),
        ('\u{00D7}', "x"),
        ('\u{00F7}', "/"),
        ('\u{03C0}', "PI"),
        ('\u{2002}', "  "),
        ('\u{2003}', "  "),
        ('\u{2005}', " "),
        ('\u{2013}', " - "),
        ('\u{2014}', " -- "),
        ('\u{2015}', "--"),
        ('\u{2018}', "`"),
        ('\u{2019}', "'"),
        ('\u{201C}', "\""),
        ('\u{201D}', "\""),
        ('\u{2022}', "::"),
        ('\u{2026}', "..."),
        ('\u{2030}', "%."),
        ('\u{20AC}', "Euro"),
        ('\u{2105}', "c/o"),
        ('\u{2117}', "(P)"),
        ('\u{2120}', "(SM)"),
        ('\u{2122}', "(TM)"),
        ('\u{2126}', "Ohm"),
        ('\u{2153}', "(1/3)"),
        ('\u{2154}', "(2/3)"),
        ('\u{2155}', "(1/5)"),
        ('\u{2156}', "(2/5)"),
        ('\u{2157}', "(3/5)"),
        ('\u{2158}', "(4/5)"),
        ('\u{2159}', "(1/6)"),
        ('\u{215B}', "(1/8)"),
        ('\u{215C}', "(3/8)"),
        ('\u{215D}', "(5/8)"),
        ('\u{215E}', "(7/8)"),
        ('\u{215F}', "1/"),
        ('\u{2190}', "<--"),
        ('\u{2192}', "-->"),
        ('\u{2194}', "<-->"),
        ('\u{2202}', "d"),
        ('\u{221E}', "infinity"),
        ('\u{2260}', "!="),
        ('\u{2264}', "<="),
        ('\u{2265}', ">="),
        ('\u{F0B7}', "*"),
    ];
    assert(v@ =~= special_chars_table());
    v
}

/// The bullet glyph table.
pub fn bullet_char_map() -> (res: Vec<(char, &'static str)>)
    ensures
        res@ == bullet_chars_table(),
{
    let v = vec![
        ('o', "o"),
        ('\u{F076}', "::"),
        ('\u{F0A7}', "#"),
        ('\u{F0B7}', "*"),
        ('\u{F0D8}', ">"),
        ('\u{F0FC}', "+"),
    ];
    assert(v@ =~= bullet_chars_table());
    v
}

/// Looks `c` up in `t`.
pub fn lookup(t: &Vec<(char, &'static str)>, c: char) -> (res: Option<&'static str>)
    ensures
        res == table_lookup(t@, c),
{
    let mut i: usize = 0;
    assert(t@.skip(0) =~= t@);
    while i < t.len()
        invariant
            i <= t@.len(),
            table_lookup(t@, c) == table_lookup(t@.skip(i as int), c),
        decreases t@.len() - i,
    {
        assert(t@.skip(i as int).drop_first() =~= t@.skip(i + 1));
        if t[i].0 == c {
            return Some(t[i].1);
        }
        i = i + 1;
    }
    None
}

/// Both tables have distinct keys, so each character has at most one
/// replacement and the order of the pairs does not matter.
pub proof fn lemma_tables_keys_distinct()
    ensures
        keys_distinct(special_chars_table()),
        keys_distinct(bullet_chars_table()),
{
}

} // verus!
