use crate::text::is_digit;
use vstd::prelude::*;

verus! {

// The syntax of the decimal text that `str::parse::<f64>` accepts, read as
// characters: no floating point is involved.

/// A sign character.
pub open spec fn is_sign(c: char) -> bool {
    c == '+' || c == '-'
}

/// The code of a character with ASCII upper-case letters turned to lower case.
pub open spec fn lower_code(c: char) -> u32 {
    let u = c as u32;
    if 65 <= u <= 90 {
        (u + 32) as u32
    } else {
        u
    }
}

/// Only decimal digits.
pub open spec fn all_digits(s: Seq<char>) -> bool {
    forall|i: int| 0 <= i < s.len() ==> is_digit(#[trigger] s[i])
}

/// The first index from `i` on where `s` holds `a` or `b`, or the length of `s`.
pub open spec fn position_of(s: Seq<char>, i: int, a: char, b: char) -> int
    decreases s.len() - i,
{
    if i < 0 || i >= s.len() {
        s.len() as int
    } else if s[i] == a || s[i] == b {
        i
    } else {
        position_of(s, i + 1, a, b)
    }
}

/// `s` spells `word` (given in lower case) in any mix of cases.
pub open spec fn spells(s: Seq<char>, word: Seq<char>) -> bool {
    s.len() == word.len() && forall|i: int| 0 <= i < s.len() ==> lower_code(#[trigger] s[i]) == word[i] as u32
}

/// `inf`, `infinity` or `nan`, in any mix of cases.
pub open spec fn is_special_value(s: Seq<char>) -> bool {
    ||| spells(s, seq!['i', 'n', 'f'])
    ||| spells(s, seq!['i', 'n', 'f', 'i', 'n', 'i', 't', 'y'])
    ||| spells(s, seq!['n', 'a', 'n'])
}

/// Digit+ | Digit+ '.' Digit* | Digit* '.' Digit+
pub open spec fn is_decimal_number(s: Seq<char>) -> bool {
    let p = position_of(s, 0, '.', '.');
    &&& all_digits(s.take(p))
    &&& (p < s.len() ==> all_digits(s.skip(p + 1)))
    &&& if p < s.len() { s.len() >= 2 } else { s.len() >= 1 }
}

/// ('e' | 'E') Sign? Digit+
pub open spec fn is_exponent(s: Seq<char>) -> bool {
    &&& s.len() >= 2
    &&& (s[0] == 'e' || s[0] == 'E')
    &&& if is_sign(s[1]) {
        s.len() >= 3 && all_digits(s.skip(2))
    } else {
        all_digits(s.skip(1))
    }
}

/// A decimal number, then an optional exponent that starts at the first `e`.
pub open spec fn is_number(s: Seq<char>) -> bool {
    let k = position_of(s, 0, 'e', 'E');
    &&& is_decimal_number(s.take(k))
    &&& (k < s.len() ==> is_exponent(s.skip(k)))
}

/// Text that `str::parse::<f64>` accepts: an optional sign, then `inf`,
/// `infinity` or `nan` in any case, or a decimal number with an optional
/// exponent.
pub open spec fn is_float_literal(s: Seq<char>) -> bool {
    let body = if s.len() > 0 && is_sign(s[0]) {
        s.drop_first()
    } else {
        s
    };
    is_special_value(body) || is_number(body)
}

/// The text itself where `str::parse::<f64>` accepts it, else the message of
/// its error.
pub open spec fn float_text(s: Seq<char>) -> Result<Seq<char>, Seq<char>> {
    if s.len() == 0 {
        Err("cannot parse float from empty string"@)
    } else if !is_float_literal(s) {
        Err("invalid float literal"@)
    } else {
        Ok(s)
    }
}

/// Where a search for `a` or `b` from `i` on stops, in `chars[from..to]`.
fn find(chars: &Vec<char>, from: usize, to: usize, a: char, b: char) -> (k: usize)
    requires
        from <= to <= chars@.len(),
    ensures
        from <= k <= to,
        k - from == position_of(chars@.subrange(from as int, to as int), 0, a, b),
{
    let ghost s = chars@.subrange(from as int, to as int);
    let mut k = from;
    while k < to && chars[k] != a && chars[k] != b
        invariant
            from <= k <= to,
            to <= chars@.len(),
            s == chars@.subrange(from as int, to as int),
            position_of(s, 0, a, b) == position_of(s, k - from, a, b),
        decreases to - k,
    {
        assert(s[k - from] == chars@[k as int]);
        k += 1;
    }
    if k < to {
        assert(s[k - from] == chars@[k as int]);
    }
    k
}

/// Whether `chars[from..to]` holds only digits.
fn digits_only(chars: &Vec<char>, from: usize, to: usize) -> (ok: bool)
    requires
        from <= to <= chars@.len(),
    ensures
        ok == all_digits(chars@.subrange(from as int, to as int)),
{
    let ghost s = chars@.subrange(from as int, to as int);
    let mut k = from;
    while k < to
        invariant
            from <= k <= to,
            to <= chars@.len(),
            s == chars@.subrange(from as int, to as int),
            forall|i: int| 0 <= i < k - from ==> is_digit(#[trigger] s[i]),
        decreases to - k,
    {
        let code = chars[k] as u32;
        assert(s[k - from] == chars@[k as int]);
        if code < 48 || code > 57 {
            return false;
        }
        k += 1;
    }
    true
}

/// The lower-case code of a character.
fn lower(c: char) -> (code: u32)
    ensures
        code == lower_code(c),
{
    let u = c as u32;
    if 65 <= u && u <= 90 {
        u + 32
    } else {
        u
    }
}

/// Whether `chars[from..to]` spells `word` in any mix of cases.
fn spells_word(chars: &Vec<char>, from: usize, to: usize, word: &Vec<char>) -> (ok: bool)
    requires
        from <= to <= chars@.len(),
    ensures
        ok == spells(chars@.subrange(from as int, to as int), word@),
{
    let ghost s = chars@.subrange(from as int, to as int);
    if to - from != word.len() {
        return false;
    }
    let mut k: usize = 0;
    while k < word.len()
        invariant
            k <= word@.len(),
            to - from == word@.len(),
            from <= to <= chars@.len(),
            s == chars@.subrange(from as int, to as int),
            forall|i: int| 0 <= i < k ==> lower_code(#[trigger] s[i]) == word@[i] as u32,
        decreases word@.len() - k,
    {
        assert(s[k as int] == chars@[from + k]);
        if lower(chars[from + k]) != word[k] as u32 {
            return false;
        }
        k += 1;
    }
    true
}

/// The word `inf`, `infinity` or `nan`.
fn special_word(which: u8) -> (word: Vec<char>)
    ensures
        which == 0 ==> word@ == seq!['i', 'n', 'f'],
        which == 1 ==> word@ == seq!['i', 'n', 'f', 'i', 'n', 'i', 't', 'y'],
        which > 1 ==> word@ == seq!['n', 'a', 'n'],
{
    let mut word: Vec<char> = Vec::new();
    if which == 0 {
        word.push('i');
        word.push('n');
        word.push('f');
        assert(word@ =~= seq!['i', 'n', 'f']);
    } else if which == 1 {
        word.push('i');
        word.push('n');
        word.push('f');
        word.push('i');
        word.push('n');
        word.push('i');
        word.push('t');
        word.push('y');
        assert(word@ =~= seq!['i', 'n', 'f', 'i', 'n', 'i', 't', 'y']);
    } else {
        word.push('n');
        word.push('a');
        word.push('n');
        assert(word@ =~= seq!['n', 'a', 'n']);
    }
    word
}

/// Whether `chars[from..to]` is a decimal number without exponent.
fn decimal_number(chars: &Vec<char>, from: usize, to: usize) -> (ok: bool)
    requires
        from <= to <= chars@.len(),
    ensures
        ok == is_decimal_number(chars@.subrange(from as int, to as int)),
{
    let ghost s = chars@.subrange(from as int, to as int);
    let p = find(chars, from, to, '.', '.');
    assert(s.take(p - from) =~= chars@.subrange(from as int, p as int));
    let before = digits_only(chars, from, p);
    if p < to {
        assert(s.skip(p - from + 1) =~= chars@.subrange(p + 1, to as int));
        let after = digits_only(chars, p + 1, to);
        before && after && to - from >= 2
    } else {
        before && to - from >= 1
    }
}

/// Whether `chars[from..to]` is an exponent.
fn exponent(chars: &Vec<char>, from: usize, to: usize) -> (ok: bool)
    requires
        from <= to <= chars@.len(),
    ensures
        ok == is_exponent(chars@.subrange(from as int, to as int)),
{
    let ghost s = chars@.subrange(from as int, to as int);
    if to - from < 2 {
        return false;
    }
    assert(s[0] == chars@[from as int] && s[1] == chars@[from + 1]);
    if chars[from] != 'e' && chars[from] != 'E' {
        return false;
    }
    if chars[from + 1] == '+' || chars[from + 1] == '-' {
        assert(s.skip(2) =~= chars@.subrange(from + 2, to as int));
        to - from >= 3 && digits_only(chars, from + 2, to)
    } else {
        assert(s.skip(1) =~= chars@.subrange(from + 1, to as int));
        digits_only(chars, from + 1, to)
    }
}

/// Whether `str::parse::<f64>` accepts the text `chars`.
pub(crate) fn float_literal(chars: &Vec<char>) -> (ok: bool)
    ensures
        ok == is_float_literal(chars@),
{
    let n = chars.len();
    let from: usize = if n > 0 && (chars[0] == '+' || chars[0] == '-') {
        1
    } else {
        0
    };
    let ghost body = chars@.subrange(from as int, n as int);
    assert(chars@.subrange(0, n as int) =~= chars@);
    assert(from == 1 ==> chars@.drop_first() =~= body);
    let special = spells_word(chars, from, n, &special_word(0)) || spells_word(chars, from, n, &special_word(1))
        || spells_word(chars, from, n, &special_word(2));
    if special {
        return true;
    }
    let k = find(chars, from, n, 'e', 'E');
    assert(body.take(k - from) =~= chars@.subrange(from as int, k as int));
    if !decimal_number(chars, from, k) {
        return false;
    }
    if k == n {
        return true;
    }
    assert(body.skip(k - from) =~= chars@.subrange(k as int, n as int));
    exponent(chars, k, n)
}

} // verus!
