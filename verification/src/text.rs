use crate::error::Error;
use vstd::prelude::*;
use vstd::string::*;
use vstd::utf8::*;

verus! {

broadcast use vstd::utf8::encode_utf8_decode_utf8;

// ---------------------------------------------------------------------------
// Characters of byte fields
// ---------------------------------------------------------------------------

/// The message of the error that `std::str::from_utf8` reports for `bytes`.
pub uninterp spec fn utf8_error_message(bytes: Seq<u8>) -> Seq<char>;

/// The characters encoded by `bytes`, or, where `bytes` is not valid UTF-8,
/// the message of the decoding error.
pub open spec fn field_text(bytes: Seq<u8>) -> Result<Seq<char>, Seq<char>> {
    if valid_utf8(bytes) {
        Ok(decode_utf8(bytes))
    } else {
        Err(utf8_error_message(bytes))
    }
}

/// Calls `std::str::from_utf8`.
///
/// Claims what the documentation of `from_utf8` states: it succeeds exactly on
/// valid UTF-8 and then hands back a string slice made of the same bytes. The
/// message of its error, a function of the bytes alone, is given a name.
#[verifier::external_body]
fn str_from_utf8(bytes: &[u8]) -> (res: Result<&str, String>)
    ensures
        res is Ok <==> valid_utf8(bytes@),
        res matches Ok(text) ==> text.spec_bytes() == bytes@,
        res matches Err(message) ==> message@ == utf8_error_message(bytes@),
{
    match std::str::from_utf8(bytes) {
        Ok(text) => Ok(text),
        Err(error) => Err(error.to_string()),
    }
}

/// Decodes `bytes` as UTF-8 into a vector of characters.
pub(crate) fn field_chars(bytes: &[u8]) -> (res: Result<Vec<char>, Error>)
    ensures
        res matches Ok(chars) ==> field_text(bytes@) == Ok::<Seq<char>, Seq<char>>(chars@),
        res matches Err(error) ==> field_text(bytes@) == Err::<Seq<char>, Seq<char>>(error@),
{
    match str_from_utf8(bytes) {
        Ok(text) => {
            proof {
                assert(decode_utf8(bytes@) == text@);
            }
            Ok(chars_of(text))
        },
        Err(message) => Err(Error::new(message)),
    }
}

/// A string made of `bytes`, which are valid UTF-8.
pub(crate) fn string_from_utf8(bytes: &[u8]) -> (text: String)
    requires
        valid_utf8(bytes@),
    ensures
        text@ == decode_utf8(bytes@),
{
    match str_from_utf8(bytes) {
        Ok(text) => {
            assert(decode_utf8(bytes@) == text@);
            text.to_owned()
        },
        // `from_utf8` fails only on bytes that are not valid UTF-8
        Err(_) => String::new(),
    }
}

/// The characters of `text`, in order.
fn chars_of(text: &str) -> (chars: Vec<char>)
    ensures
        chars@ == text@,
{
    let n = text.unicode_len();
    let mut chars: Vec<char> = Vec::new();
    let mut i: usize = 0;
    while i < n
        invariant
            n == text@.len(),
            i <= n,
            chars@ == text@.subrange(0, i as int),
        decreases n - i,
    {
        chars.push(text.get_char(i));
        i += 1;
    }
    assert(text@.subrange(0, n as int) =~= text@);
    chars
}

// ---------------------------------------------------------------------------
// Building strings
// ---------------------------------------------------------------------------

/// Calls `String::push`, which appends one character.
#[verifier::external_body]
pub(crate) fn push_char(text: &mut String, c: char)
    ensures
        final(text)@ == old(text)@.push(c),
{
    text.push(c)
}

/// A string that holds `chars[start..end]`.
pub(crate) fn string_of(chars: &Vec<char>, start: usize, end: usize) -> (text: String)
    requires
        start <= end <= chars@.len(),
    ensures
        text@ == chars@.subrange(start as int, end as int),
{
    let mut text = String::new();
    let mut i = start;
    while i < end
        invariant
            start <= i <= end,
            end <= chars@.len(),
            text@ == chars@.subrange(start as int, i as int),
        decreases end - i,
    {
        push_char(&mut text, chars[i]);
        assert(chars@.subrange(start as int, i + 1) =~= chars@.subrange(start as int, i as int).push(chars@[i as int]));
        i += 1;
    }
    text
}

/// Appends `chars[start..end]` to `v`.
pub(crate) fn push_chars(v: &mut Vec<char>, chars: &Vec<char>, start: usize, end: usize)
    requires
        start <= end <= chars@.len(),
    ensures
        final(v)@ == old(v)@ + chars@.subrange(start as int, end as int),
{
    let ghost before = v@;
    let mut i = start;
    while i < end
        invariant
            start <= i <= end,
            end <= chars@.len(),
            v@ == before + chars@.subrange(start as int, i as int),
        decreases end - i,
    {
        v.push(chars[i]);
        assert(chars@.subrange(start as int, i + 1) =~= chars@.subrange(start as int, i as int).push(chars@[i as int]));
        i += 1;
    }
}

/// The character of a decimal digit.
pub open spec fn digit_char(d: int) -> char {
    (d + 48) as char
}

/// The decimal representation of `n`, without leading zeros.
pub open spec fn decimal(n: nat) -> Seq<char>
    decreases n,
{
    if n < 10 {
        seq![digit_char(n as int)]
    } else {
        decimal(n / 10).push(digit_char((n % 10) as int))
    }
}

/// A number of four digits is written with its four digits.
pub proof fn lemma_decimal_four_digits(n: nat)
    requires
        1000 <= n <= 9999,
    ensures
        decimal(n) == seq![
            digit_char((n / 1000) as int),
            digit_char((n / 100 % 10) as int),
            digit_char((n / 10 % 10) as int),
            digit_char((n % 10) as int),
        ],
{
    reveal_with_fuel(decimal, 4);
    assert(n / 10 / 10 == n / 100);
    assert(n / 100 / 10 == n / 1000);
    assert(n / 1000 < 10);
    assert(decimal(n) =~= seq![
        digit_char((n / 1000) as int),
        digit_char((n / 100 % 10) as int),
        digit_char((n / 10 % 10) as int),
        digit_char((n % 10) as int),
    ]);
}

/// Appends the decimal representation of `n` to `text`.
pub(crate) fn push_decimal(text: &mut String, n: u64)
    ensures
        final(text)@ == old(text)@ + decimal(n as nat),
    decreases n,
{
    if n >= 10 {
        push_decimal(text, n / 10);
    }
    let d: u8 = (n % 10) as u8;
    push_char(text, (48u8 + d) as char);
    proof {
        if n >= 10 {
            assert(decimal(n as nat) == decimal((n / 10) as nat).push(digit_char((n % 10) as int)));
        }
    }
    assert(final(text)@ =~= old(text)@ + decimal(n as nat));
}

// ---------------------------------------------------------------------------
// White space
// ---------------------------------------------------------------------------

/// A character with the Unicode property White_Space.
pub open spec fn is_white_space(c: char) -> bool {
    let u = c as u32;
    ||| 0x9 <= u <= 0xd
    ||| u == 0x20
    ||| u == 0x85
    ||| u == 0xa0
    ||| u == 0x1680
    ||| 0x2000 <= u <= 0x200a
    ||| u == 0x2028
    ||| u == 0x2029
    ||| u == 0x202f
    ||| u == 0x205f
    ||| u == 0x3000
}

/// Whether `c` has the Unicode property White_Space, as `char::is_whitespace` tells.
fn char_is_whitespace(c: char) -> (res: bool)
    ensures
        res == is_white_space(c),
{
    let u = c as u32;
    (0x9 <= u && u <= 0xd) || u == 0x20 || u == 0x85 || u == 0xa0 || u == 0x1680 || (0x2000 <= u && u <= 0x200a)
        || u == 0x2028 || u == 0x2029 || u == 0x202f || u == 0x205f || u == 0x3000
}

/// `text` without its leading white space (`str::trim_start`).
pub open spec fn trim_start(text: Seq<char>) -> Seq<char>
    decreases text.len(),
{
    if text.len() > 0 && is_white_space(text[0]) {
        trim_start(text.drop_first())
    } else {
        text
    }
}

/// `text` without its trailing white space (`str::trim_end`).
pub open spec fn trim_end(text: Seq<char>) -> Seq<char>
    decreases text.len(),
{
    if text.len() > 0 && is_white_space(text.last()) {
        trim_end(text.drop_last())
    } else {
        text
    }
}

/// `text` without leading and trailing white space (`str::trim`).
pub open spec fn trim(text: Seq<char>) -> Seq<char> {
    trim_end(trim_start(text))
}

/// The first index from `start` on where `chars[start..end]` without its
/// leading white space begins.
pub(crate) fn skip_white_space(chars: &Vec<char>, start: usize, end: usize) -> (i: usize)
    requires
        start <= end <= chars@.len(),
    ensures
        start <= i <= end,
        chars@.subrange(i as int, end as int) == trim_start(chars@.subrange(start as int, end as int)),
{
    let mut i = start;
    while i < end && char_is_whitespace(chars[i])
        invariant
            start <= i <= end,
            end <= chars@.len(),
            trim_start(chars@.subrange(start as int, end as int)) == trim_start(chars@.subrange(i as int, end as int)),
        decreases end - i,
    {
        assert(chars@.subrange(i as int, end as int).drop_first() =~= chars@.subrange(i + 1, end as int));
        i += 1;
    }
    i
}

/// The index before which `chars[start..end]` without its trailing white
/// space ends.
pub(crate) fn drop_white_space_end(chars: &Vec<char>, start: usize, end: usize) -> (j: usize)
    requires
        start <= end <= chars@.len(),
    ensures
        start <= j <= end,
        chars@.subrange(start as int, j as int) == trim_end(chars@.subrange(start as int, end as int)),
{
    let mut j = end;
    while j > start && char_is_whitespace(chars[j - 1])
        invariant
            start <= j <= end,
            end <= chars@.len(),
            trim_end(chars@.subrange(start as int, end as int)) == trim_end(chars@.subrange(start as int, j as int)),
        decreases j - start,
    {
        assert(chars@.subrange(start as int, j as int).drop_last() =~= chars@.subrange(start as int, j - 1));
        j -= 1;
    }
    j
}

// ---------------------------------------------------------------------------
// Integers
// ---------------------------------------------------------------------------

/// The reason why a string does not parse as an integer
#[derive(Clone, Copy, Debug, PartialEq, Eq)]
pub enum IntErrorKind {
    /// The string is empty
    Empty,
    /// The string holds a character that is not a digit where a digit is expected
    InvalidDigit,
    /// The value is above the target type's maximum
    PosOverflow,
    /// The value is below the target type's minimum
    NegOverflow,
}

/// The message that std's `ParseIntError` shows for each kind.
pub open spec fn int_error_message(kind: IntErrorKind) -> Seq<char> {
    match kind {
        IntErrorKind::Empty => "cannot parse integer from empty string"@,
        IntErrorKind::InvalidDigit => "invalid digit found in string"@,
        IntErrorKind::PosOverflow => "number too large to fit in target type"@,
        IntErrorKind::NegOverflow => "number too small to fit in target type"@,
    }
}

/// An error that carries the message of `kind`.
pub(crate) fn int_error(kind: IntErrorKind) -> (error: Error)
    ensures
        error@ == int_error_message(kind),
{
    match kind {
        IntErrorKind::Empty => Error::new("cannot parse integer from empty string".to_owned()),
        IntErrorKind::InvalidDigit => Error::new("invalid digit found in string".to_owned()),
        IntErrorKind::PosOverflow => Error::new("number too large to fit in target type".to_owned()),
        IntErrorKind::NegOverflow => Error::new("number too small to fit in target type".to_owned()),
    }
}

/// A decimal digit.
pub open spec fn is_digit(c: char) -> bool {
    48 <= c as u32 <= 57
}

/// The value of a decimal digit.
pub open spec fn digit_value(c: char) -> int {
    c as u32 - 48
}

/// Reads `digits` from left to right into a value that grows away from zero,
/// downwards if `negative`, and stops at the first character that is not a
/// digit or at the first step that leaves `min..=max`.
pub open spec fn scan_digits(digits: Seq<char>, negative: bool, min: int, max: int) -> Result<int, IntErrorKind>
    decreases digits.len(),
{
    if digits.len() == 0 {
        Ok(0)
    } else {
        match scan_digits(digits.drop_last(), negative, min, max) {
            Err(kind) => Err(kind),
            Ok(value) => {
                let c = digits.last();
                if !is_digit(c) {
                    Err(IntErrorKind::InvalidDigit)
                } else if negative {
                    if value * 10 - digit_value(c) < min {
                        Err(IntErrorKind::NegOverflow)
                    } else {
                        Ok(value * 10 - digit_value(c))
                    }
                } else {
                    if value * 10 + digit_value(c) > max {
                        Err(IntErrorKind::PosOverflow)
                    } else {
                        Ok(value * 10 + digit_value(c))
                    }
                }
            },
        }
    }
}

/// What `str::parse` gives for an integer type with the bounds `min..=max`
/// (signed if `signed`): an optional sign, then decimal digits.
pub open spec fn parse_integer(text: Seq<char>, signed: bool, min: int, max: int) -> Result<int, IntErrorKind> {
    if text.len() == 0 {
        Err(IntErrorKind::Empty)
    } else if text.len() == 1 && (text[0] == '+' || text[0] == '-') {
        Err(IntErrorKind::InvalidDigit)
    } else if text[0] == '+' {
        scan_digits(text.drop_first(), false, min, max)
    } else if text[0] == '-' && signed {
        scan_digits(text.drop_first(), true, min, max)
    } else {
        scan_digits(text, false, min, max)
    }
}

/// A scan that succeeds stays within its bounds.
proof fn lemma_scan_bounds(digits: Seq<char>, negative: bool, min: int, max: int)
    requires
        min <= 0 <= max,
        scan_digits(digits, negative, min, max) is Ok,
    ensures
        min <= scan_digits(digits, negative, min, max)->Ok_0 <= max,
        negative ==> scan_digits(digits, negative, min, max)->Ok_0 <= 0,
        !negative ==> scan_digits(digits, negative, min, max)->Ok_0 >= 0,
    decreases digits.len(),
{
    if digits.len() > 0 {
        lemma_scan_bounds(digits.drop_last(), negative, min, max);
    }
}

/// A parsed integer lies within the bounds of its type.
pub proof fn lemma_parse_integer_bounds(text: Seq<char>, signed: bool, min: int, max: int)
    requires
        min <= 0 <= max,
        parse_integer(text, signed, min, max) is Ok,
    ensures
        min <= parse_integer(text, signed, min, max)->Ok_0 <= max,
{
    if text.len() > 0 {
        if text[0] == '+' || (text[0] == '-' && signed) {
            lemma_scan_bounds(text.drop_first(), text[0] == '-' && signed, min, max);
        } else {
            lemma_scan_bounds(text, false, min, max);
        }
    }
}

/// Text of at most two characters parses as an unsigned integer of at most 99.
pub proof fn lemma_two_characters_at_most_99(text: Seq<char>, max: int)
    requires
        text.len() <= 2,
        0 <= max,
        parse_integer(text, false, 0, max) is Ok,
    ensures
        0 <= parse_integer(text, false, 0, max)->Ok_0 <= 99,
{
    reveal_with_fuel(scan_digits, 3);
    if text.len() == 2 {
        assert(text.drop_last().drop_last().len() == 0);
        assert(text.drop_first().drop_last().len() == 0);
    }
}

/// Decoding UTF-8 gives no more characters than there are bytes.
pub proof fn lemma_decode_utf8_len(bytes: Seq<u8>)
    requires
        valid_utf8(bytes),
    ensures
        decode_utf8(bytes).len() <= bytes.len(),
    decreases bytes.len(),
{
    if bytes.len() > 0 {
        let rest = pop_first_scalar(bytes);
        assert(rest.len() < bytes.len());
        lemma_decode_utf8_len(rest);
    }
}

/// An error found in a prefix of the digits is the error of all of them.
proof fn lemma_scan_prefix_error(digits: Seq<char>, k: int, negative: bool, min: int, max: int)
    requires
        0 <= k <= digits.len(),
        scan_digits(digits.take(k), negative, min, max) is Err,
    ensures
        scan_digits(digits, negative, min, max) == scan_digits(digits.take(k), negative, min, max),
    decreases digits.len() - k,
{
    if k == digits.len() {
        assert(digits.take(k) =~= digits);
    } else {
        assert(digits.drop_last().take(k) =~= digits.take(k));
        lemma_scan_prefix_error(digits.drop_last(), k, negative, min, max);
    }
}

/// Parses `chars[start..end]` as `str::parse` does for an integer type with
/// the bounds `min..=max`.
pub(crate) fn parse_int(chars: &Vec<char>, start: usize, end: usize, signed: bool, min: i128, max: i128) -> (res: Result<i128, IntErrorKind>)
    requires
        start <= end <= chars@.len(),
        i64::MIN <= min <= 0 <= max <= u64::MAX,
    ensures
        res matches Ok(value) ==> parse_integer(chars@.subrange(start as int, end as int), signed, min as int, max as int) == Ok::<int, IntErrorKind>(value as int)
            && min <= value <= max,
        res matches Err(kind) ==> parse_integer(chars@.subrange(start as int, end as int), signed, min as int, max as int) == Err::<int, IntErrorKind>(kind),
{
    let ghost text = chars@.subrange(start as int, end as int);
    if start == end {
        return Err(IntErrorKind::Empty);
    }
    if end - start == 1 && (chars[start] == '+' || chars[start] == '-') {
        return Err(IntErrorKind::InvalidDigit);
    }
    let mut first = start;
    let mut negative = false;
    if chars[start] == '+' {
        first = start + 1;
    } else if chars[start] == '-' && signed {
        first = start + 1;
        negative = true;
    }
    let ghost digits = chars@.subrange(first as int, end as int);
    assert(text.drop_first() =~= chars@.subrange(start + 1, end as int));
    assert(parse_integer(text, signed, min as int, max as int) == scan_digits(digits, negative, min as int, max as int));
    let mut value: i128 = 0;
    let mut i = first;
    while i < end
        invariant
            first <= i <= end,
            end <= chars@.len(),
            digits == chars@.subrange(first as int, end as int),
            text == chars@.subrange(start as int, end as int),
            parse_integer(text, signed, min as int, max as int) == scan_digits(digits, negative, min as int, max as int),
            i64::MIN <= min <= 0 <= max <= u64::MAX,
            min <= value <= max,
            negative ==> value <= 0,
            !negative ==> value >= 0,
            scan_digits(digits.take(i - first), negative, min as int, max as int) == Ok::<int, IntErrorKind>(value as int),
        decreases end - i,
    {
        let c = chars[i];
        let ghost prefix = digits.take(i - first + 1);
        assert(prefix.drop_last() =~= digits.take(i - first));
        assert(prefix.last() == c);
        let code = c as u32;
        if code < 48 || code > 57 {
            proof {
                lemma_scan_prefix_error(digits, i - first + 1, negative, min as int, max as int);
            }
            return Err(IntErrorKind::InvalidDigit);
        }
        let d: i128 = (code - 48) as i128;
        if negative {
            let next = value * 10 - d;
            if next < min {
                proof {
                    lemma_scan_prefix_error(digits, i - first + 1, negative, min as int, max as int);
                }
                return Err(IntErrorKind::NegOverflow);
            }
            value = next;
        } else {
            let next = value * 10 + d;
            if next > max {
                proof {
                    lemma_scan_prefix_error(digits, i - first + 1, negative, min as int, max as int);
                }
                return Err(IntErrorKind::PosOverflow);
            }
            value = next;
        }
        i += 1;
    }
    assert(digits.take(end - first) =~= digits);
    Ok(value)
}

// ---------------------------------------------------------------------------
// Laws of reading fields
// ---------------------------------------------------------------------------

/// The characters of ASCII bytes, one for each byte.
pub open spec fn ascii_chars(bytes: Seq<u8>) -> Seq<char> {
    bytes.map_values(|b: u8| b as char)
}

/// Bytes below 128.
pub open spec fn is_ascii_bytes(bytes: Seq<u8>) -> bool {
    forall|i: int| 0 <= i < bytes.len() ==> bytes[i] < 128
}

/// ASCII bytes decode to one character for each byte.
pub proof fn lemma_ascii_field_text(bytes: Seq<u8>)
    requires
        is_ascii_bytes(bytes),
    ensures
        field_text(bytes) == Ok::<Seq<char>, Seq<char>>(ascii_chars(bytes)),
{
    let chars = ascii_chars(bytes);
    assert(is_ascii_chars(chars));
    is_ascii_chars_encode_utf8(chars);
    assert(encode_utf8(chars) =~= bytes) by {
        assert forall|i: int| 0 <= i < bytes.len() implies encode_utf8(chars)[i] == bytes[i] by {
            assert(chars[i] as u8 == encode_utf8(chars)[i]);
            assert(chars[i] == bytes[i] as char);
        }
    }
    encode_utf8_valid_utf8(chars);
}

/// The value of decimal digits.
pub open spec fn digits_value(digits: Seq<char>) -> int
    decreases digits.len(),
{
    if digits.len() == 0 {
        0
    } else {
        digits_value(digits.drop_last()) * 10 + digit_value(digits.last())
    }
}

/// Only decimal digits.
pub open spec fn is_digit_text(text: Seq<char>) -> bool {
    forall|i: int| 0 <= i < text.len() ==> is_digit(#[trigger] text[i])
}

/// Scanning digits gives their value, or its negation, where it stays in bounds.
proof fn lemma_scan_value(digits: Seq<char>, negative: bool, min: int, max: int)
    requires
        is_digit_text(digits),
        negative ==> min <= -digits_value(digits),
        !negative ==> digits_value(digits) <= max,
    ensures
        digits_value(digits) >= 0,
        scan_digits(digits, negative, min, max) == Ok::<int, IntErrorKind>(if negative { -digits_value(digits) } else { digits_value(digits) }),
    decreases digits.len(),
{
    if digits.len() > 0 {
        let rest = digits.drop_last();
        assert(is_digit_text(rest)) by {
            assert forall|i: int| 0 <= i < rest.len() implies is_digit(#[trigger] rest[i]) by {
                assert(rest[i] == digits[i]);
            }
        }
        assert(is_digit(digits[digits.len() - 1]));
        lemma_digits_value_nonnegative(rest);
        lemma_scan_value(rest, negative, min, max);
    }
}

proof fn lemma_digits_value_nonnegative(digits: Seq<char>)
    requires
        is_digit_text(digits),
    ensures
        digits_value(digits) >= 0,
    decreases digits.len(),
{
    if digits.len() > 0 {
        let rest = digits.drop_last();
        assert(is_digit_text(rest)) by {
            assert forall|i: int| 0 <= i < rest.len() implies is_digit(#[trigger] rest[i]) by {
                assert(rest[i] == digits[i]);
            }
        }
        assert(is_digit(digits[digits.len() - 1]));
        lemma_digits_value_nonnegative(rest);
    }
}

/// A scan of digits that succeeds gives their value, or its negation.
proof fn lemma_scan_ok_value(digits: Seq<char>, negative: bool, min: int, max: int)
    requires
        is_digit_text(digits),
        scan_digits(digits, negative, min, max) is Ok,
    ensures
        scan_digits(digits, negative, min, max)->Ok_0 == (if negative { -digits_value(digits) } else { digits_value(digits) }),
    decreases digits.len(),
{
    if digits.len() > 0 {
        let rest = digits.drop_last();
        assert(is_digit_text(rest)) by {
            assert forall|i: int| 0 <= i < rest.len() implies is_digit(#[trigger] rest[i]) by {
                assert(rest[i] == digits[i]);
            }
        }
        lemma_scan_ok_value(rest, negative, min, max);
    }
}

/// Decimal digits parse to their value where it fits; a plus sign before
/// them changes nothing; a minus sign before them gives the negated value for
/// a signed type, where it fits.
pub proof fn lemma_parse_digits(digits: Seq<char>, signed: bool, min: int, max: int)
    requires
        digits.len() > 0,
        is_digit_text(digits),
        min <= 0 <= max,
    ensures
        digits_value(digits) <= max ==> parse_integer(digits, signed, min, max) == Ok::<int, IntErrorKind>(digits_value(digits)),
        parse_integer(digits, signed, min, max) is Ok ==> parse_integer(digits, signed, min, max) == Ok::<int, IntErrorKind>(digits_value(digits)),
        parse_integer(seq!['+'] + digits, signed, min, max) == parse_integer(digits, signed, min, max),
        signed && min <= -digits_value(digits) ==> parse_integer(seq!['-'] + digits, signed, min, max) == Ok::<int, IntErrorKind>(-digits_value(digits)),
{
    assert(is_digit(digits[0]));
    assert((seq!['+'] + digits).drop_first() =~= digits);
    assert((seq!['-'] + digits).drop_first() =~= digits);
    assert((seq!['+'] + digits)[0] == '+');
    assert((seq!['-'] + digits)[0] == '-');
    lemma_digits_value_nonnegative(digits);
    if parse_integer(digits, signed, min, max) is Ok {
        lemma_scan_ok_value(digits, false, min, max);
    }
    if digits_value(digits) <= max {
        lemma_scan_value(digits, false, min, max);
    }
    if signed && min <= -digits_value(digits) {
        lemma_scan_value(digits, true, min, max);
    }
}

} // verus!
