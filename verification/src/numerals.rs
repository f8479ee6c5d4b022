//! List-counter renderings: Roman numerals and repeated letters.

use vstd::prelude::*;

verus! {

/// The thirteen Roman tokens in the order the greedy rendering tries them.
pub open spec fn roman_token(k: int) -> Seq<char> {
    if k == 0 { seq!['m'] }
    else if k == 1 { seq!['c', 'm'] }
    else if k == 2 { seq!['d'] }
    else if k == 3 { seq!['c', 'd'] }
    else if k == 4 { seq!['c'] }
    else if k == 5 { seq!['x', 'c'] }
    else if k == 6 { seq!['l'] }
    else if k == 7 { seq!['x', 'l'] }
    else if k == 8 { seq!['x'] }
    else if k == 9 { seq!['i', 'x'] }
    else if k == 10 { seq!['v'] }
    else if k == 11 { seq!['i', 'v'] }
    else { seq!['i'] }
}

/// The value of the `k`-th Roman token.
pub open spec fn roman_value(k: int) -> nat {
    if k == 0 { 1000 }
    else if k == 1 { 900 }
    else if k == 2 { 500 }
    else if k == 3 { 400 }
    else if k == 4 { 100 }
    else if k == 5 { 90 }
    else if k == 6 { 50 }
    else if k == 7 { 40 }
    else if k == 8 { 10 }
    else if k == 9 { 9 }
    else if k == 10 { 5 }
    else if k == 11 { 4 }
    else { 1 }
}

/// Greedy Roman rendering of `n` using the tokens from index `k` on.
pub open spec fn roman_from(n: nat, k: nat) -> Seq<char>
    decreases 13 - k, n,
{
    if k >= 13 {
        Seq::empty()
    } else if n >= roman_value(k as int) {
        roman_token(k as int) + roman_from((n - roman_value(k as int)) as nat, k)
    } else {
        roman_from(n, k + 1)
    }
}

/// Lower-case Roman numeral of `n` (empty for zero).
pub open spec fn roman(n: nat) -> Seq<char> {
    roman_from(n, 0)
}

/// ASCII upper-casing of one character.
pub open spec fn upper_char(c: char) -> char {
    if 'a' <= c && c <= 'z' { ((c as u32) - 32) as char } else { c }
}

/// ASCII upper-casing of a character sequence.
pub open spec fn upper_ascii(s: Seq<char>) -> Seq<char> {
    s.map_values(|c: char| upper_char(c))
}

/// The letter counter of `n >= 1`: letter number `(n - 1) % 26` of the
/// alphabet, repeated `(n - 1) / 26 + 1` times.
pub open spec fn letters(n: nat) -> Seq<char>
    recommends
        n >= 1,
{
    Seq::new(((n - 1) / 26 + 1) as nat, |i: int| (((n - 1) % 26 + 97) as u32) as char)
}

fn push_token(s: &mut String, k: usize)
    requires
        k < 13,
    ensures
        final(s)@ == old(s)@ + roman_token(k as int),
{
    if k == 0 { s.push('m'); }
    else if k == 1 { s.push('c'); s.push('m'); }
    else if k == 2 { s.push('d'); }
    else if k == 3 { s.push('c'); s.push('d'); }
    else if k == 4 { s.push('c'); }
    else if k == 5 { s.push('x'); s.push('c'); }
    else if k == 6 { s.push('l'); }
    else if k == 7 { s.push('x'); s.push('l'); }
    else if k == 8 { s.push('x'); }
    else if k == 9 { s.push('i'); s.push('x'); }
    else if k == 10 { s.push('v'); }
    else if k == 11 { s.push('i'); s.push('v'); }
    else { s.push('i'); }
    assert(final(s)@ =~= old(s)@ + roman_token(k as int));
}

fn token_value(k: usize) -> (v: usize)
    requires
        k < 13,
    ensures
        v == roman_value(k as int),
{
    if k == 0 { 1000 }
    else if k == 1 { 900 }
    else if k == 2 { 500 }
    else if k == 3 { 400 }
    else if k == 4 { 100 }
    else if k == 5 { 90 }
    else if k == 6 { 50 }
    else if k == 7 { 40 }
    else if k == 8 { 10 }
    else if k == 9 { 9 }
    else if k == 10 { 5 }
    else if k == 11 { 4 }
    else { 1 }
}

/// Lower-case Roman numeral of `n`, built greedily from the largest token.
pub fn lower_roman(n: usize) -> (res: String)
    ensures
        res@ == roman(n as nat),
{
    let mut result = String::new();
    let mut remaining = n;
    let mut k: usize = 0;
    while k < 13
        invariant
            k <= 13,
            result@ + roman_from(remaining as nat, k as nat) == roman(n as nat),
        decreases 13 - k, remaining,
    {
        let val = token_value(k);
        if remaining >= val {
            let ghost before = result@;
            push_token(&mut result, k);
            remaining = remaining - val;
            assert(before + roman_token(k as int) + roman_from(remaining as nat, k as nat)
                =~= before + (roman_token(k as int) + roman_from(remaining as nat, k as nat)));
        } else {
            k = k + 1;
        }
    }
    assert(result@ + Seq::<char>::empty() =~= result@);
    result
}

/// Upper-case Roman numeral of `n`.
pub fn upper_roman(n: usize) -> (res: String)
    ensures
        res@ == upper_ascii(roman(n as nat)),
{
    to_ascii_upper(&lower_roman(n))
}

/// Letter counter of `n`: `a`..`z`, then `aa`..`zz`, and so on.
pub fn lower_letter(n: usize) -> (res: String)
    requires
        n >= 1,
    ensures
        res@ == letters(n as nat),
{
    let idx = (n - 1) % 26;
    let repeat = (n - 1) / 26 + 1;
    let b: u8 = 97u8 + idx as u8;
    let ch = b as char;
    let mut result = String::new();
    let mut i: usize = 0;
    while i < repeat
        invariant
            i <= repeat,
            repeat == (n - 1) / 26 + 1,
            ch == (((n - 1) % 26 + 97) as u32) as char,
            result@ =~= Seq::new(i as nat, |j: int| ch),
        decreases repeat - i,
    {
        result.push(ch);
        i = i + 1;
    }
    result
}

/// Upper-case letter counter of `n`.
pub fn upper_letter(n: usize) -> (res: String)
    requires
        n >= 1,
    ensures
        res@ == upper_ascii(letters(n as nat)),
{
    to_ascii_upper(&lower_letter(n))
}

/// Upper-cases the ASCII letters of `s`, leaving every other character alone.
pub fn to_ascii_upper(s: &String) -> (res: String)
    ensures
        res@ == upper_ascii(s@),
{
    let mut out = String::new();
    for c in it: s.chars()
        invariant
            it.seq() == s@,
            out@ =~= upper_ascii(s@.take(it.index() as int)),
    {
        let u = if 'a' <= c && c <= 'z' {
            let b: u32 = c as u32 - 32;
            char_from_ascii(b)
        } else {
            c
        };
        let ghost before = out@;
        out.push(u);
        assert(s@.take(it.index() + 1) =~= s@.take(it.index() as int).push(c));
    }
    out
}

fn char_from_ascii(b: u32) -> (c: char)
    requires
        b < 128,
    ensures
        c == b as char,
{
    let v: u8 = b as u8;
    v as char
}

/// The value of one Roman numeral letter (zero for any other character).
pub open spec fn numeral_char_value(c: char) -> int {
    if c == 'm' { 1000 }
    else if c == 'd' { 500 }
    else if c == 'c' { 100 }
    else if c == 'l' { 50 }
    else if c == 'x' { 10 }
    else if c == 'v' { 5 }
    else if c == 'i' { 1 }
    else { 0 }
}

/// The value of a lower-case Roman numeral read from the left: a letter
/// followed by a larger one counts as their difference, any other letter
/// counts as itself.
pub open spec fn numeral_value(s: Seq<char>) -> int
    decreases s.len(),
{
    if s.len() == 0 {
        0
    } else if s.len() >= 2 && numeral_char_value(s[0]) < numeral_char_value(s[1]) {
        numeral_char_value(s[1]) - numeral_char_value(s[0]) + numeral_value(s.skip(2))
    } else {
        numeral_char_value(s[0]) + numeral_value(s.skip(1))
    }
}

/// The value of the first letter of `s`, zero when it is empty.
pub open spec fn first_value(s: Seq<char>) -> int {
    if s.len() > 0 { numeral_char_value(s[0]) } else { 0 }
}

proof fn lemma_roman_first(n: nat, k: nat)
    requires
        k <= 13,
    ensures
        k < 13 ==> first_value(roman_from(n, k)) <= roman_value(k as int),
        roman_from(n, k).len() > 0 ==> first_value(roman_from(n, k)) > 0,
    decreases 13 - k, n,
{
    if k < 13 {
        if n >= roman_value(k as int) {
            lemma_roman_first((n - roman_value(k as int)) as nat, k);
        } else {
            lemma_roman_first(n, k + 1);
        }
    }
}

proof fn lemma_roman_from_value(n: nat, k: nat)
    requires
        k <= 13,
        k == 13 ==> n == 0,
        k > 0 ==> n < roman_value(k - 1),
    ensures
        numeral_value(roman_from(n, k)) == n,
    decreases 13 - k, n,
{
    if k < 13 {
        let v = roman_value(k as int);
        if n >= v {
            let rest = roman_from((n - v) as nat, k);
            lemma_roman_from_value((n - v) as nat, k);
            lemma_roman_first((n - v) as nat, k);
            let t = roman_token(k as int);
            let s = t + rest;
            if t.len() == 2 {
                assert(s.skip(2) =~= rest);
                assert(s[0] == t[0] && s[1] == t[1]);
            } else {
                assert(s.skip(1) =~= rest);
                assert(s[0] == t[0]);
                if rest.len() > 0 {
                    assert(s[1] == rest[0]);
                }
            }
        } else {
            lemma_roman_from_value(n, k + 1);
        }
    }
}

/// `lower_roman(n)` is a Roman numeral whose value is `n`.
pub proof fn lemma_roman_numeral_value(n: nat)
    ensures
        numeral_value(roman(n)) == n,
{
    lemma_roman_from_value(n, 0);
}

/// Distinct counters get distinct letter counters.
pub proof fn lemma_letters_injective(a: nat, b: nat)
    requires
        a >= 1,
        b >= 1,
        letters(a) == letters(b),
    ensures
        a == b,
{
    assert(letters(a).len() == letters(b).len());
    assert(letters(a)[0] == letters(b)[0]);
    let ra = (a - 1) % 26;
    let rb = (b - 1) % 26;
    let ca = (ra + 97) as u32;
    let cb = (rb + 97) as u32;
    assert(letters(a).len() > 0);
    assert(letters(a)[0] == ca as char);
    assert(letters(b)[0] == cb as char);
    assert(ca as char == cb as char);
    assert((ca as char) as u32 == ca) by {
        vstd::utf8::char_u32_cast(ca as char, ca);
    }
    assert((cb as char) as u32 == cb);
    assert(ra == rb);
    let x = a - 1;
    let y = b - 1;
    assert(x == 26 * (x / 26) + x % 26) by (nonlinear_arith);
    assert(y == 26 * (y / 26) + y % 26) by (nonlinear_arith);
}


/// `k` thousands, as the Roman numeral writes them.
pub open spec fn thousands(k: nat) -> Seq<char> {
    Seq::new(k, |i: int| 'm')
}

/// A Roman numeral is its thousands written as `m`s, followed by the
/// numeral of the remainder below a thousand.
pub proof fn lemma_roman_thousands(n: nat)
    ensures
        roman(n) == thousands(n / 1000) + roman(n % 1000),
    decreases n,
{
    if n >= 1000 {
        let r = (n - 1000) as nat;
        lemma_roman_thousands(r);
        assert(r / 1000 == n / 1000 - 1);
        assert(r % 1000 == n % 1000);
        assert(thousands(n / 1000) =~= seq!['m'] + thousands(r / 1000));
        assert(roman(n) == seq!['m'] + roman(r));
    } else {
        assert(n / 1000 == 0);
        assert(n % 1000 == n);
        assert(thousands(0) =~= Seq::<char>::empty());
        assert(roman(n) =~= thousands(0) + roman(n));
    }
}

proof fn lemma_roman_from_empty(n: nat, k: nat)
    requires
        k <= 13,
    ensures
        roman_from(n, k).len() == 0 <==> n == 0 || k == 13,
    decreases 13 - k, n,
{
    if k < 13 {
        if n >= roman_value(k as int) {
            lemma_roman_from_empty((n - roman_value(k as int)) as nat, k);
        } else {
            lemma_roman_from_empty(n, k + 1);
        }
    }
}

/// The Roman numeral is empty exactly for zero.
pub proof fn lemma_roman_empty(n: nat)
    ensures
        roman(n).len() == 0 <==> n == 0,
{
    lemma_roman_from_empty(n, 0);
}

} // verus!
