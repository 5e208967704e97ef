use crate::error::Error;
use crate::literal::float_literal;
use crate::literal::float_text;
use crate::text::decimal;
use crate::text::drop_white_space_end;
use crate::text::field_chars;
use crate::text::field_text;
use crate::text::int_error;
use crate::text::int_error_message;
use crate::text::ascii_chars;
use crate::text::digit_char;
use crate::text::digits_value;
use crate::text::is_ascii_bytes;
use crate::text::is_digit_text;
use crate::text::lemma_ascii_field_text;
use crate::text::lemma_decimal_four_digits;
use crate::text::lemma_decode_utf8_len;
use crate::text::lemma_parse_digits;
use crate::text::lemma_parse_integer_bounds;
use crate::text::lemma_two_characters_at_most_99;
use crate::text::parse_int;
use crate::text::parse_integer;
use crate::text::push_char;
use crate::text::push_chars;
use crate::text::push_decimal;
use crate::text::skip_white_space;
use crate::text::string_of;
use crate::text::trim;
use crate::text::trim_start;
use vstd::prelude::*;
use vstd::slice::slice_subrange;
use vstd::string::*;

verus! {

// ---------------------------------------------------------------------------
// Types
// ---------------------------------------------------------------------------

/// A satellite's elements classification
#[derive(Clone, Copy, Debug, PartialEq, Eq, Structural)]
pub enum Classification {
    /// Declassfied objects or objects without a classification
    Unclassified,
    /// Would cause "serious damage" to national security if it were publicly available
    Classified,
    /// Would cause "damage" or be prejudicial to national security if publicly available
    Secret,
}

/// The epoch of a TLE as the TLE writes it
#[derive(Clone, Debug)]
pub struct EpochText {
    /// The year, from its last two digits: 57 to 99 are 1957 to 1999, 00 to 56 are 2000 to 2056
    pub year: i32,
    /// The day of the year with its fraction, as decimal text (`1.0` is 1 January 0h00)
    pub day: String,
}

/// A number written as a decimal mantissa and a power of ten: mantissa × 10^exponent
#[derive(Clone, Debug)]
pub struct ScaledDecimal {
    /// The mantissa, as decimal text
    pub mantissa: String,
    /// The power of ten
    pub exponent: i8,
}

/// General perturbations orbital data parsed from a TLE
///
/// Integers, names and the classification are parsed; each real number is
/// the exact decimal text that stands for it in the TLE, with the decimal
/// point that the format leaves implicit put back in place, and checked to be
/// text that `str::parse::<f64>` accepts.
///
/// The fields' documentation is adapted from
/// <https://spaceflight.nasa.gov/realdata/sightings/SSapplications/Post/JavaSSOP/SSOP_Help/tle_def.html>.
#[derive(Clone, Debug)]
pub struct Elements {
    /// The name associated with the satellite
    pub object_name: Option<String>,
    /// The satellite's international designator
    ///
    /// It consists of the launch year, the launch number of that year and
    /// a letter code representing the sequential identifier of a piece in a launch.
    pub international_designator: Option<String>,
    /// The catalog number USSPACECOM has designated for this object
    pub norad_id: u64,
    /// The elements' classification
    pub classification: Classification,
    /// The UTC timestamp of the elements
    pub datetime: EpochText,
    /// Time derivative of the mean motion
    pub mean_motion_dot: String,
    /// Second time derivative of the mean motion
    pub mean_motion_ddot: ScaledDecimal,
    /// Radiation pressure coefficient in earth radii⁻¹
    pub drag_term: ScaledDecimal,
    /// A running count of all 2 line element sets generated by USSPACECOM for this object
    pub element_set_number: u64,
    /// Angle between the equator and the orbit plane in deg
    pub inclination: String,
    /// Angle between vernal equinox and the point where the orbit crosses the equatorial plane in deg
    pub right_ascension: String,
    /// The shape of the orbit
    pub eccentricity: String,
    /// Angle between the ascending node and the orbit's point of closest approach to the earth in deg
    pub argument_of_perigee: String,
    /// Angle of the satellite location measured from perigee in deg
    pub mean_anomaly: String,
    /// Mean number of orbits per day in day⁻¹ (Kozai convention)
    pub mean_motion: String,
    /// The orbit number at epoch
    pub revolution_number: u64,
    /// NORAD internal use, always 0 in distributed data
    pub ephemeris_type: u8,
}

/// The value of `Elements` in contracts: each string by its characters
pub struct ElementsModel {
    pub object_name: Option<Seq<char>>,
    pub international_designator: Option<Seq<char>>,
    pub norad_id: u64,
    pub classification: Classification,
    pub epoch_year: i32,
    pub epoch_day: Seq<char>,
    pub mean_motion_dot: Seq<char>,
    pub mean_motion_ddot: (Seq<char>, i8),
    pub drag_term: (Seq<char>, i8),
    pub element_set_number: u64,
    pub inclination: Seq<char>,
    pub right_ascension: Seq<char>,
    pub eccentricity: Seq<char>,
    pub argument_of_perigee: Seq<char>,
    pub mean_anomaly: Seq<char>,
    pub mean_motion: Seq<char>,
    pub revolution_number: u64,
    pub ephemeris_type: u8,
}

impl View for Elements {
    type V = ElementsModel;

    open spec fn view(&self) -> ElementsModel {
        ElementsModel {
            object_name: self.object_name.deep_view(),
            international_designator: self.international_designator.deep_view(),
            norad_id: self.norad_id,
            classification: self.classification,
            epoch_year: self.datetime.year,
            epoch_day: self.datetime.day@,
            mean_motion_dot: self.mean_motion_dot@,
            mean_motion_ddot: (self.mean_motion_ddot.mantissa@, self.mean_motion_ddot.exponent),
            drag_term: (self.drag_term.mantissa@, self.drag_term.exponent),
            element_set_number: self.element_set_number,
            inclination: self.inclination@,
            right_ascension: self.right_ascension@,
            eccentricity: self.eccentricity@,
            argument_of_perigee: self.argument_of_perigee@,
            mean_anomaly: self.mean_anomaly@,
            mean_motion: self.mean_motion@,
            revolution_number: self.revolution_number,
            ephemeris_type: self.ephemeris_type,
        }
    }
}

/// A parse result by its value in contracts: the elements, or the error's message.
pub open spec fn result_view(res: Result<Elements, Error>) -> Result<ElementsModel, Seq<char>> {
    match res {
        Ok(elements) => Ok(elements@),
        Err(error) => Err(error@),
    }
}

// ---------------------------------------------------------------------------
// The format
// ---------------------------------------------------------------------------

/// The indices of line 1 that hold a space, in the order they are checked.
pub open spec fn space_indices_line1() -> Seq<usize> {
    seq![1usize, 8, 17, 32, 43, 52, 61, 63]
}

/// The indices of line 2 that hold a space, in the order they are checked.
pub open spec fn space_indices_line2() -> Seq<usize> {
    seq![1usize, 7, 16, 25, 33, 42, 51]
}

/// The first of `indices` at which `line` does not hold a space.
pub open spec fn first_non_space(line: Seq<u8>, indices: Seq<usize>) -> Option<usize>
    decreases indices.len(),
{
    if indices.len() == 0 {
        None
    } else if line[indices[0] as int] != 32 {
        Some(indices[0])
    } else {
        first_non_space(line, indices.drop_first())
    }
}

/// The message for a missing space at `index` (counted from 0) of line `line_number`.
pub open spec fn space_error_message(line_number: nat, index: nat) -> Seq<char> {
    "line "@ + decimal(line_number) + seq![':'] + decimal(index + 1) + " must be a space character"@
}

/// What a character adds to a TLE line's checksum: digits their value, minus signs one.
pub open spec fn checksum_weight(b: u8) -> int {
    if b == 45 {
        1
    } else if 48 <= b <= 57 {
        b - 48
    } else {
        0
    }
}

/// The sum of the checksum weights of `bytes`.
pub open spec fn checksum_sum(bytes: Seq<u8>) -> int
    decreases bytes.len(),
{
    if bytes.len() == 0 {
        0
    } else {
        checksum_sum(bytes.drop_last()) + checksum_weight(bytes.last())
    }
}

/// The last character of a 69-character line is the digit of its checksum modulo 10.
pub open spec fn valid_checksum(line: Seq<u8>) -> bool {
    line[68] == 48 + checksum_sum(line.take(68)) % 10
}

/// The classification that a character stands for.
pub open spec fn classification_of(b: u8) -> Option<Classification> {
    if b == 85 {
        Some(Classification::Unclassified)
    } else if b == 67 {
        Some(Classification::Classified)
    } else if b == 83 {
        Some(Classification::Secret)
    } else {
        None
    }
}

/// A year from its last two digits: 57 to 99 are 1957 to 1999, 0 to 56 are 2000 to 2056.
pub open spec fn full_year(two_digits: int) -> int {
    if two_digits < 57 {
        2000 + two_digits
    } else {
        1900 + two_digits
    }
}

/// A field parsed as an integer in `min..=max`, after its leading white space
/// is dropped if `trimmed`; or the message of the failure.
pub open spec fn field_integer(bytes: Seq<u8>, trimmed: bool, signed: bool, min: int, max: int) -> Result<int, Seq<char>> {
    match field_text(bytes) {
        Err(message) => Err(message),
        Ok(text) => match parse_integer(if trimmed { trim_start(text) } else { text }, signed, min, max) {
            Ok(value) => Ok(value),
            Err(kind) => Err(int_error_message(kind)),
        },
    }
}

/// A field's text without its leading white space, where `str::parse::<f64>`
/// accepts it; else the message of the failure.
pub open spec fn field_float(bytes: Seq<u8>) -> Result<Seq<char>, Seq<char>> {
    match field_text(bytes) {
        Err(message) => Err(message),
        Ok(text) => float_text(trim_start(text)),
    }
}

/// A decimal written without its point: the point goes before the digits,
/// after the sign if there is a minus sign.
pub open spec fn point_implied(text: Seq<char>) -> Seq<char> {
    if text.len() > 0 && text[0] == '-' {
        seq!['-', '.'] + text.drop_first()
    } else {
        seq!['.'] + text
    }
}

/// A field that holds a decimal written without its point, where
/// `str::parse::<f64>` accepts it with the point put back.
pub open spec fn field_point_implied(bytes: Seq<u8>) -> Result<Seq<char>, Seq<char>> {
    match field_text(bytes) {
        Err(message) => Err(message),
        Ok(text) => float_text(point_implied(trim_start(text))),
    }
}

/// A mantissa without its point and a power of ten.
pub open spec fn scaled_model(mantissa: Seq<u8>, exponent: Seq<u8>) -> Result<(Seq<char>, i8), Seq<char>> {
    match field_point_implied(mantissa) {
        Err(message) => Err(message),
        Ok(text) => match field_integer(exponent, false, true, -128, 127) {
            Err(message) => Err(message),
            Ok(power) => Ok((text, power as i8)),
        },
    }
}

/// The checks of a TLE's layout, its catalog numbers, its checksums and its
/// classification, in the order they are made.
pub open spec fn header_model(line1: Seq<u8>, line2: Seq<u8>) -> Result<(u64, Classification), Seq<char>> {
    if line1.len() != 69 {
        Err("line 1 must have 69 characters"@)
    } else if line2.len() != 69 {
        Err("line 2 must have 69 characters"@)
    } else if line1[0] != 49 {
        Err("line 1 must start with the character '1'"@)
    } else if line2[0] != 50 {
        Err("line 2 must start with the character '2'"@)
    } else if first_non_space(line1, space_indices_line1()) is Some {
        Err(space_error_message(1, first_non_space(line1, space_indices_line1())->0 as nat))
    } else if first_non_space(line2, space_indices_line2()) is Some {
        Err(space_error_message(2, first_non_space(line2, space_indices_line2())->0 as nat))
    } else {
        match field_integer(line1.subrange(2, 7), false, false, 0, u64::MAX as int) {
            Err(message) => Err(message),
            Ok(norad_id) => match field_integer(line2.subrange(2, 7), false, false, 0, u64::MAX as int) {
                Err(message) => Err(message),
                Ok(norad_id_2) => if norad_id != norad_id_2 {
                    Err("line 1 and 2 have different satellite numbers"@)
                } else if !valid_checksum(line1) || !valid_checksum(line2) {
                    Err("bad checksum"@)
                } else {
                    match classification_of(line1[7]) {
                        None => Err("unknown classification"@),
                        Some(classification) => Ok((norad_id as u64, classification)),
                    }
                },
            },
        }
    }
}

/// The international designator: none where its columns are blank, else the
/// launch year in four digits, a hyphen and the launch piece without white space.
pub open spec fn designator_model(line1: Seq<u8>) -> Result<Option<Seq<char>>, Seq<char>> {
    if forall|i: int| 9 <= i < 17 ==> line1[i] == 32 {
        Ok(None)
    } else {
        match field_integer(line1.subrange(9, 11), false, false, 0, 255) {
            Err(message) => Err(message),
            Ok(year) => match field_text(line1.subrange(11, 17)) {
                Err(message) => Err(message),
                Ok(piece) => Ok(Some(decimal(full_year(year) as nat) + seq!['-'] + trim(piece))),
            },
        }
    }
}

/// The epoch: the day of the year as text, then the year.
pub open spec fn epoch_model(line1: Seq<u8>) -> Result<(i32, Seq<char>), Seq<char>> {
    match field_float(line1.subrange(20, 32)) {
        Err(message) => Err(message),
        Ok(day) => match field_integer(line1.subrange(18, 20), false, false, 0, 255) {
            Err(message) => Err(message),
            Ok(year) => Ok((full_year(year) as i32, day)),
        },
    }
}

/// What a TLE made of `line1` and `line2` holds, or the message of the first
/// check that fails, the fields read in the order of `Elements`.
#[verifier::opaque]
pub open spec fn tle_model(object_name: Option<Seq<char>>, line1: Seq<u8>, line2: Seq<u8>) -> Result<ElementsModel, Seq<char>> {
    match header_model(line1, line2) {
        Err(m) => Err(m),
        Ok((norad_id, classification)) => match designator_model(line1) {
            Err(m) => Err(m),
            Ok(international_designator) => match epoch_model(line1) {
                Err(m) => Err(m),
                Ok((epoch_year, epoch_day)) => match field_float(line1.subrange(33, 43)) {
                    Err(m) => Err(m),
                    Ok(mean_motion_dot) => match scaled_model(line1.subrange(44, 50), line1.subrange(50, 52)) {
                        Err(m) => Err(m),
                        Ok(mean_motion_ddot) => match scaled_model(line1.subrange(53, 59), line1.subrange(59, 61)) {
                            Err(m) => Err(m),
                            Ok(drag_term) => match line1_tail_model(line1) {
                                Err(m) => Err(m),
                                Ok((ephemeris_type, element_set_number)) => match line2_model(line2) {
                                    Err(m) => Err(m),
                                    Ok(l2) => Ok(ElementsModel {
                                        object_name,
                                        international_designator,
                                        norad_id,
                                        classification,
                                        epoch_year,
                                        epoch_day,
                                        mean_motion_dot,
                                        mean_motion_ddot,
                                        drag_term,
                                        element_set_number,
                                        inclination: l2.inclination,
                                        right_ascension: l2.right_ascension,
                                        eccentricity: l2.eccentricity,
                                        argument_of_perigee: l2.argument_of_perigee,
                                        mean_anomaly: l2.mean_anomaly,
                                        mean_motion: l2.mean_motion,
                                        revolution_number: l2.revolution_number,
                                        ephemeris_type,
                                    }),
                                },
                            },
                        },
                    },
                },
            },
        },
    }
}

/// The ephemeris type and the element set number of line 1.
pub open spec fn line1_tail_model(line1: Seq<u8>) -> Result<(u8, u64), Seq<char>> {
    match field_integer(line1.subrange(62, 63), true, false, 0, 255) {
        Err(m) => Err(m),
        Ok(ephemeris_type) => match field_integer(line1.subrange(64, 68), true, false, 0, u64::MAX as int) {
            Err(m) => Err(m),
            Ok(element_set_number) => Ok((ephemeris_type as u8, element_set_number as u64)),
        },
    }
}

/// The fields of line 2 after the catalog number
pub struct Line2Model {
    pub inclination: Seq<char>,
    pub right_ascension: Seq<char>,
    pub eccentricity: Seq<char>,
    pub argument_of_perigee: Seq<char>,
    pub mean_anomaly: Seq<char>,
    pub mean_motion: Seq<char>,
    pub revolution_number: u64,
}

/// The fields of line 2, in the order they are read.
pub open spec fn line2_model(line2: Seq<u8>) -> Result<Line2Model, Seq<char>> {
    match field_float(line2.subrange(8, 16)) {
        Err(m) => Err(m),
        Ok(inclination) => match field_float(line2.subrange(17, 25)) {
            Err(m) => Err(m),
            Ok(right_ascension) => match field_point_implied(line2.subrange(26, 33)) {
                Err(m) => Err(m),
                Ok(eccentricity) => match field_float(line2.subrange(34, 42)) {
                    Err(m) => Err(m),
                    Ok(argument_of_perigee) => match field_float(line2.subrange(43, 51)) {
                        Err(m) => Err(m),
                        Ok(mean_anomaly) => match field_float(line2.subrange(52, 63)) {
                            Err(m) => Err(m),
                            Ok(mean_motion) => match field_integer(line2.subrange(63, 68), true, false, 0, u64::MAX as int) {
                                Err(m) => Err(m),
                                Ok(revolution_number) => Ok(Line2Model {
                                    inclination,
                                    right_ascension,
                                    eccentricity,
                                    argument_of_perigee,
                                    mean_anomaly,
                                    mean_motion,
                                    revolution_number: revolution_number as u64,
                                }),
                            },
                        },
                    },
                },
            },
        },
    }
}

// ---------------------------------------------------------------------------
// Reading fields
// ---------------------------------------------------------------------------

/// Reads a field as an integer in `min..=max`.
fn read_integer(bytes: &[u8], trimmed: bool, signed: bool, min: i128, max: i128) -> (res: Result<i128, Error>)
    requires
        i64::MIN <= min <= 0 <= max <= u64::MAX,
    ensures
        res matches Ok(value) ==> field_integer(bytes@, trimmed, signed, min as int, max as int) == Ok::<int, Seq<char>>(value as int)
            && min <= value <= max,
        res matches Err(error) ==> field_integer(bytes@, trimmed, signed, min as int, max as int) == Err::<int, Seq<char>>(error@),
{
    let chars = field_chars(bytes)?;
    let start = if trimmed {
        skip_white_space(&chars, 0, chars.len())
    } else {
        0
    };
    assert(chars@.subrange(0, chars@.len() as int) =~= chars@);
    match parse_int(&chars, start, chars.len(), signed, min, max) {
        Ok(value) => Ok(value),
        Err(kind) => Err(int_error(kind)),
    }
}

/// The text `chars` where `str::parse::<f64>` accepts it.
fn checked_float(chars: &Vec<char>) -> (res: Result<String, Error>)
    ensures
        res matches Ok(text) ==> float_text(chars@) == Ok::<Seq<char>, Seq<char>>(text@),
        res matches Err(error) ==> float_text(chars@) == Err::<Seq<char>, Seq<char>>(error@),
{
    if chars.len() == 0 {
        return Err(Error::new("cannot parse float from empty string".to_owned()));
    }
    if !float_literal(chars) {
        return Err(Error::new("invalid float literal".to_owned()));
    }
    assert(chars@.subrange(0, chars@.len() as int) =~= chars@);
    Ok(string_of(chars, 0, chars.len()))
}

/// Reads a field's text without its leading white space, as a decimal.
fn read_float(bytes: &[u8]) -> (res: Result<String, Error>)
    ensures
        res matches Ok(text) ==> field_float(bytes@) == Ok::<Seq<char>, Seq<char>>(text@),
        res matches Err(error) ==> field_float(bytes@) == Err::<Seq<char>, Seq<char>>(error@),
{
    let chars = field_chars(bytes)?;
    assert(chars@.subrange(0, chars@.len() as int) =~= chars@);
    let start = skip_white_space(&chars, 0, chars.len());
    let mut trimmed: Vec<char> = Vec::new();
    push_chars(&mut trimmed, &chars, start, chars.len());
    assert(trimmed@ =~= chars@.subrange(start as int, chars@.len() as int));
    checked_float(&trimmed)
}

/// Reads a field that holds a decimal written without its point.
fn read_point_implied(bytes: &[u8]) -> (res: Result<String, Error>)
    ensures
        res matches Ok(text) ==> field_point_implied(bytes@) == Ok::<Seq<char>, Seq<char>>(text@),
        res matches Err(error) ==> field_point_implied(bytes@) == Err::<Seq<char>, Seq<char>>(error@),
{
    let chars = field_chars(bytes)?;
    assert(chars@.subrange(0, chars@.len() as int) =~= chars@);
    let start = skip_white_space(&chars, 0, chars.len());
    let ghost trimmed = chars@.subrange(start as int, chars@.len() as int);
    let mut text: Vec<char> = Vec::new();
    if start < chars.len() && chars[start] == '-' {
        text.push('-');
        text.push('.');
        push_chars(&mut text, &chars, start + 1, chars.len());
        assert(trimmed.drop_first() =~= chars@.subrange(start + 1, chars@.len() as int));
        assert(text@ =~= seq!['-', '.'] + trimmed.drop_first());
    } else {
        text.push('.');
        push_chars(&mut text, &chars, start, chars.len());
        assert(text@ =~= seq!['.'] + trimmed);
    }
    checked_float(&text)
}

/// Reads a mantissa without its point and a power of ten.
fn read_scaled(mantissa: &[u8], exponent: &[u8]) -> (res: Result<ScaledDecimal, Error>)
    ensures
        res matches Ok(number) ==> scaled_model(mantissa@, exponent@) == Ok::<(Seq<char>, i8), Seq<char>>((number.mantissa@, number.exponent)),
        res matches Err(error) ==> scaled_model(mantissa@, exponent@) == Err::<(Seq<char>, i8), Seq<char>>(error@),
{
    let text = read_point_implied(mantissa)?;
    let power = read_integer(exponent, false, true, -128, 127)?;
    Ok(ScaledDecimal { mantissa: text, exponent: power as i8 })
}


// ---------------------------------------------------------------------------
// Checking the layout
// ---------------------------------------------------------------------------

/// The indices that hold a space in line `line_number`.
fn space_indices(line_number: u64) -> (indices: Vec<usize>)
    requires
        line_number == 1 || line_number == 2,
    ensures
        line_number == 1 ==> indices@ == space_indices_line1(),
        line_number == 2 ==> indices@ == space_indices_line2(),
{
    let mut indices: Vec<usize> = Vec::new();
    if line_number == 1 {
        indices.push(1);
        indices.push(8);
        indices.push(17);
        indices.push(32);
        indices.push(43);
        indices.push(52);
        indices.push(61);
        indices.push(63);
        assert(indices@ =~= space_indices_line1());
    } else {
        indices.push(1);
        indices.push(7);
        indices.push(16);
        indices.push(25);
        indices.push(33);
        indices.push(42);
        indices.push(51);
        assert(indices@ =~= space_indices_line2());
    }
    indices
}

/// The error for a missing space at `index` of line `line_number`.
fn space_error(line_number: u64, index: usize) -> (error: Error)
    requires
        index < 69,
    ensures
        error@ == space_error_message(line_number as nat, index as nat),
{
    let mut message = "line ".to_owned();
    push_decimal(&mut message, line_number);
    push_char(&mut message, ':');
    push_decimal(&mut message, (index + 1) as u64);
    message.append(" must be a space character");
    assert(message@ =~= space_error_message(line_number as nat, index as nat));
    Error::new(message)
}

/// Checks that line `line_number` holds a space at each index where the format has one.
fn check_spaces(line: &[u8], line_number: u64) -> (res: Result<(), Error>)
    requires
        line@.len() == 69,
        line_number == 1 || line_number == 2,
    ensures
        ({
            let indices = if line_number == 1 { space_indices_line1() } else { space_indices_line2() };
            &&& res is Ok <==> first_non_space(line@, indices) is None
            &&& res matches Err(error) ==> error@ == space_error_message(line_number as nat, first_non_space(line@, indices)->0 as nat)
        }),
{
    let indices = space_indices(line_number);
    let ghost all = indices@;
    let mut k: usize = 0;
    assert(all.skip(0) =~= all);
    while k < indices.len()
        invariant
            k <= indices@.len(),
            indices@ == all,
            line@.len() == 69,
            line_number == 1 ==> all == space_indices_line1(),
            line_number == 2 ==> all == space_indices_line2(),
            line_number == 1 || line_number == 2,
            forall|j: int| 0 <= j < all.len() ==> all[j] < 69,
            first_non_space(line@, all) == first_non_space(line@, all.skip(k as int)),
        decreases indices@.len() - k,
    {
        let index = indices[k];
        assert(all.skip(k as int).drop_first() =~= all.skip(k + 1));
        assert(all.skip(k as int)[0] == index);
        if line[index] != 32 {
            return Err(space_error(line_number, index));
        }
        k += 1;
    }
    Ok(())
}

/// Whether the last character of a 69-character line is its checksum digit.
fn checksum_matches(line: &[u8]) -> (ok: bool)
    requires
        line@.len() == 69,
    ensures
        ok == valid_checksum(line@),
{
    let mut sum: u32 = 0;
    let mut i: usize = 0;
    while i < 68
        invariant
            i <= 68,
            line@.len() == 69,
            sum == checksum_sum(line@.take(i as int)),
            sum <= 9 * i,
        decreases 68 - i,
    {
        let b = line[i];
        assert(line@.take(i + 1).drop_last() =~= line@.take(i as int));
        if b == 45 {
            sum += 1;
        } else if 48 <= b && b <= 57 {
            sum += (b - 48) as u32;
        }
        i += 1;
    }
    line[68] as u32 == 48 + sum % 10
}

/// Checks the layout, the catalog numbers, the checksums and the
/// classification of a TLE.
fn check_header(line1: &[u8], line2: &[u8]) -> (res: Result<(u64, Classification), Error>)
    ensures
        res matches Ok(header) ==> header_model(line1@, line2@) == Ok::<(u64, Classification), Seq<char>>(header),
        res matches Err(error) ==> header_model(line1@, line2@) == Err::<(u64, Classification), Seq<char>>(error@),
{
    if line1.len() != 69 {
        return Err(Error::new("line 1 must have 69 characters".to_owned()));
    }
    if line2.len() != 69 {
        return Err(Error::new("line 2 must have 69 characters".to_owned()));
    }
    if line1[0] != 49 {
        return Err(Error::new("line 1 must start with the character '1'".to_owned()));
    }
    if line2[0] != 50 {
        return Err(Error::new("line 2 must start with the character '2'".to_owned()));
    }
    check_spaces(line1, 1)?;
    check_spaces(line2, 2)?;
    let norad_id = read_integer(slice_subrange(line1, 2, 7), false, false, 0, u64::MAX as i128)?;
    let norad_id_2 = read_integer(slice_subrange(line2, 2, 7), false, false, 0, u64::MAX as i128)?;
    if norad_id != norad_id_2 {
        return Err(Error::new("line 1 and 2 have different satellite numbers".to_owned()));
    }
    if !checksum_matches(line1) || !checksum_matches(line2) {
        return Err(Error::new("bad checksum".to_owned()));
    }
    let classification = if line1[7] == 85 {
        Classification::Unclassified
    } else if line1[7] == 67 {
        Classification::Classified
    } else if line1[7] == 83 {
        Classification::Secret
    } else {
        return Err(Error::new("unknown classification".to_owned()));
    };
    Ok((norad_id as u64, classification))
}

// ---------------------------------------------------------------------------
// Reading the elements
// ---------------------------------------------------------------------------

/// Reads the international designator.
fn read_designator(line1: &[u8]) -> (res: Result<Option<String>, Error>)
    requires
        line1@.len() == 69,
    ensures
        res matches Ok(designator) ==> designator_model(line1@) == Ok::<Option<Seq<char>>, Seq<char>>(designator.deep_view()),
        res matches Err(error) ==> designator_model(line1@) == Err::<Option<Seq<char>>, Seq<char>>(error@),
{
    let mut blank = true;
    let mut i: usize = 9;
    while i < 17
        invariant
            9 <= i <= 17,
            line1@.len() == 69,
            blank == (forall|j: int| 9 <= j < i ==> line1@[j] == 32),
        decreases 17 - i,
    {
        if line1[i] != 32 {
            blank = false;
        }
        i += 1;
    }
    if blank {
        return Ok(None);
    }
    let year = read_integer(slice_subrange(line1, 9, 11), false, false, 0, 255)?;
    let piece = field_chars(slice_subrange(line1, 11, 17))?;
    assert(piece@.subrange(0, piece@.len() as int) =~= piece@);
    let start = skip_white_space(&piece, 0, piece.len());
    let end = drop_white_space_end(&piece, start, piece.len());
    let full: u64 = if year < 57 {
        2000 + year as u64
    } else {
        1900 + year as u64
    };
    let mut designator = String::new();
    push_decimal(&mut designator, full);
    push_char(&mut designator, '-');
    let rest = string_of(&piece, start, end);
    designator.append(rest.as_str());
    assert(designator@ =~= decimal(full_year(year as int) as nat) + seq!['-'] + trim(piece@));
    Ok(Some(designator))
}

/// Reads the epoch.
fn read_epoch(line1: &[u8]) -> (res: Result<EpochText, Error>)
    requires
        line1@.len() == 69,
    ensures
        res matches Ok(epoch) ==> epoch_model(line1@) == Ok::<(i32, Seq<char>), Seq<char>>((epoch.year, epoch.day@)),
        res matches Err(error) ==> epoch_model(line1@) == Err::<(i32, Seq<char>), Seq<char>>(error@),
{
    let day = read_float(slice_subrange(line1, 20, 32))?;
    let two_digits = read_integer(slice_subrange(line1, 18, 20), false, false, 0, 255)?;
    let year: i32 = if two_digits < 57 {
        two_digits as i32 + 2000
    } else {
        two_digits as i32 + 1900
    };
    Ok(EpochText { year, day })
}

/// Reads the ephemeris type and the element set number.
fn read_line1_tail(line1: &[u8]) -> (res: Result<(u8, u64), Error>)
    requires
        line1@.len() == 69,
    ensures
        res matches Ok(tail) ==> line1_tail_model(line1@) == Ok::<(u8, u64), Seq<char>>(tail),
        res matches Err(error) ==> line1_tail_model(line1@) == Err::<(u8, u64), Seq<char>>(error@),
{
    let ephemeris_type = read_integer(slice_subrange(line1, 62, 63), true, false, 0, 255)?;
    let element_set_number = read_integer(slice_subrange(line1, 64, 68), true, false, 0, u64::MAX as i128)?;
    Ok((ephemeris_type as u8, element_set_number as u64))
}

/// The fields of line 2 after the catalog number
struct Line2Fields {
    inclination: String,
    right_ascension: String,
    eccentricity: String,
    argument_of_perigee: String,
    mean_anomaly: String,
    mean_motion: String,
    revolution_number: u64,
}

impl Line2Fields {
    spec fn model(&self) -> Line2Model {
        Line2Model {
            inclination: self.inclination@,
            right_ascension: self.right_ascension@,
            eccentricity: self.eccentricity@,
            argument_of_perigee: self.argument_of_perigee@,
            mean_anomaly: self.mean_anomaly@,
            mean_motion: self.mean_motion@,
            revolution_number: self.revolution_number,
        }
    }
}

/// Reads the fields of line 2.
fn read_line2(line2: &[u8]) -> (res: Result<Line2Fields, Error>)
    requires
        line2@.len() == 69,
    ensures
        res matches Ok(fields) ==> line2_model(line2@) == Ok::<Line2Model, Seq<char>>(fields.model()),
        res matches Err(error) ==> line2_model(line2@) == Err::<Line2Model, Seq<char>>(error@),
{
    let inclination = read_float(slice_subrange(line2, 8, 16))?;
    let right_ascension = read_float(slice_subrange(line2, 17, 25))?;
    let eccentricity = read_point_implied(slice_subrange(line2, 26, 33))?;
    let argument_of_perigee = read_float(slice_subrange(line2, 34, 42))?;
    let mean_anomaly = read_float(slice_subrange(line2, 43, 51))?;
    let mean_motion = read_float(slice_subrange(line2, 52, 63))?;
    let revolution_number = read_integer(slice_subrange(line2, 63, 68), true, false, 0, u64::MAX as i128)?;
    Ok(Line2Fields {
        inclination,
        right_ascension,
        eccentricity,
        argument_of_perigee,
        mean_anomaly,
        mean_motion,
        revolution_number: revolution_number as u64,
    })
}

impl Elements {
    /// Parses a Two-Line Element Set (TLE) with an optionnal title
    ///
    /// # Arguments
    ///
    /// * `object_name` - The name of the satellite, usually given by a third line placed before the TLE
    /// * `line1` - The first line of the TLE composed of 69 ASCII characters
    /// * `line2` - The second line of the TLE composed of 69 ASCII characters
    pub fn from_tle(object_name: Option<String>, line1: &[u8], line2: &[u8]) -> (res: Result<Elements, Error>)
        ensures
            result_view(res) == tle_model(object_name.deep_view(), line1@, line2@),
    {
        reveal(tle_model);
        let (norad_id, classification) = check_header(line1, line2)?;
        let international_designator = read_designator(line1)?;
        let datetime = read_epoch(line1)?;
        let mean_motion_dot = read_float(slice_subrange(line1, 33, 43))?;
        let mean_motion_ddot = read_scaled(slice_subrange(line1, 44, 50), slice_subrange(line1, 50, 52))?;
        let drag_term = read_scaled(slice_subrange(line1, 53, 59), slice_subrange(line1, 59, 61))?;
        let (ephemeris_type, element_set_number) = read_line1_tail(line1)?;
        let line2_fields = read_line2(line2)?;
        Ok(Elements {
            object_name,
            international_designator,
            norad_id,
            classification,
            datetime,
            mean_motion_dot,
            mean_motion_ddot,
            drag_term,
            element_set_number,
            inclination: line2_fields.inclination,
            right_ascension: line2_fields.right_ascension,
            eccentricity: line2_fields.eccentricity,
            argument_of_perigee: line2_fields.argument_of_perigee,
            mean_anomaly: line2_fields.mean_anomaly,
            mean_motion: line2_fields.mean_motion,
            revolution_number: line2_fields.revolution_number,
            ephemeris_type,
        })
    }
}

// ---------------------------------------------------------------------------
// Laws
// ---------------------------------------------------------------------------

/// Where no index of `indices` lacks a space, each of them holds one.
proof fn lemma_no_missing_space(line: Seq<u8>, indices: Seq<usize>)
    requires
        first_non_space(line, indices) is None,
    ensures
        forall|k: int| 0 <= k < indices.len() ==> line[#[trigger] indices[k] as int] == 32,
    decreases indices.len(),
{
    if indices.len() > 0 {
        lemma_no_missing_space(line, indices.drop_first());
        assert forall|k: int| 0 <= k < indices.len() implies line[#[trigger] indices[k] as int] == 32 by {
            if k > 0 {
                assert(indices[k] == indices.drop_first()[k - 1]);
            }
        }
    }
}

/// A TLE is accepted only if both lines have 69 characters, start with `1`
/// and `2`, hold a space wherever the format has one, carry the same catalog
/// number, end with the digit of their checksum and name a known
/// classification; the elements carry that catalog number and classification.
pub proof fn lemma_accepted_tle_is_well_formed(object_name: Option<Seq<char>>, line1: Seq<u8>, line2: Seq<u8>)
    requires
        tle_model(object_name, line1, line2) is Ok,
    ensures
        ({
            let elements = tle_model(object_name, line1, line2)->Ok_0;
            &&& line1.len() == 69
            &&& line2.len() == 69
            &&& line1[0] == 49
            &&& line2[0] == 50
            &&& forall|k: int| 0 <= k < space_indices_line1().len() ==> line1[#[trigger] space_indices_line1()[k] as int] == 32
            &&& forall|k: int| 0 <= k < space_indices_line2().len() ==> line2[#[trigger] space_indices_line2()[k] as int] == 32
            &&& line1[1] == 32 && line1[8] == 32 && line1[17] == 32 && line1[32] == 32
            &&& line1[43] == 32 && line1[52] == 32 && line1[61] == 32 && line1[63] == 32
            &&& line2[1] == 32 && line2[7] == 32 && line2[16] == 32 && line2[25] == 32
            &&& line2[33] == 32 && line2[42] == 32 && line2[51] == 32
            &&& field_integer(line1.subrange(2, 7), false, false, 0, u64::MAX as int) == Ok::<int, Seq<char>>(elements.norad_id as int)
            &&& field_integer(line2.subrange(2, 7), false, false, 0, u64::MAX as int) == Ok::<int, Seq<char>>(elements.norad_id as int)
            &&& valid_checksum(line1)
            &&& valid_checksum(line2)
            &&& classification_of(line1[7]) == Some(elements.classification)
            &&& elements.object_name == object_name
        }),
{
    reveal(tle_model);
    let header = header_model(line1, line2);
    assert(header is Ok);
    let elements = tle_model(object_name, line1, line2)->Ok_0;
    assert(header->Ok_0.0 == elements.norad_id);
    let text = field_text(line1.subrange(2, 7))->Ok_0;
    lemma_parse_integer_bounds(text, false, 0, u64::MAX as int);
    assert(header->Ok_0.1 == elements.classification);
    assert(first_non_space(line1, space_indices_line1()) is None);
    assert(first_non_space(line2, space_indices_line2()) is None);
    lemma_no_missing_space(line1, space_indices_line1());
    lemma_no_missing_space(line2, space_indices_line2());
    assert(space_indices_line1()[0] == 1 && space_indices_line1()[1] == 8 && space_indices_line1()[2] == 17);
    assert(space_indices_line1()[3] == 32 && space_indices_line1()[4] == 43 && space_indices_line1()[5] == 52);
    assert(space_indices_line1()[6] == 61 && space_indices_line1()[7] == 63);
    assert(space_indices_line2()[0] == 1 && space_indices_line2()[1] == 7 && space_indices_line2()[2] == 16);
    assert(space_indices_line2()[3] == 25 && space_indices_line2()[4] == 33 && space_indices_line2()[5] == 42);
    assert(space_indices_line2()[6] == 51);
}

/// The object name is handed through: with another name, the same lines give
/// the same error, or the same elements under the other name.
pub proof fn lemma_object_name_is_handed_through(name1: Option<Seq<char>>, name2: Option<Seq<char>>, line1: Seq<u8>, line2: Seq<u8>)
    ensures
        tle_model(name1, line1, line2) is Ok <==> tle_model(name2, line1, line2) is Ok,
        tle_model(name1, line1, line2) is Err ==> tle_model(name1, line1, line2) == tle_model(name2, line1, line2),
        tle_model(name1, line1, line2) is Ok ==> tle_model(name2, line1, line2) == Ok::<ElementsModel, Seq<char>>(
            ElementsModel { object_name: name2, ..tle_model(name1, line1, line2)->Ok_0 },
        ),
{
    reveal(tle_model);
}

/// A TLE whose check digit is replaced by any other character is refused.
pub proof fn lemma_changed_check_digit_is_refused(object_name: Option<Seq<char>>, line1: Seq<u8>, line2: Seq<u8>, c: u8)
    requires
        line1.len() == 69,
        valid_checksum(line1),
        c != line1[68],
    ensures
        tle_model(object_name, line1.update(68, c), line2) is Err,
{
    let changed = line1.update(68, c);
    assert(changed.take(68) =~= line1.take(68));
    if tle_model(object_name, changed, line2) is Ok {
        lemma_accepted_tle_is_well_formed(object_name, changed, line2);
    }
}

/// The epoch year of a TLE lies between 1957 and 2056: two-digit years from
/// 57 on are in the 1900s, the others in the 2000s.
pub proof fn lemma_epoch_year_window(object_name: Option<Seq<char>>, line1: Seq<u8>, line2: Seq<u8>)
    requires
        tle_model(object_name, line1, line2) is Ok,
    ensures
        1957 <= tle_model(object_name, line1, line2)->Ok_0.epoch_year <= 2056,
{
    reveal(tle_model);
    let field = line1.subrange(18, 20);
    assert(epoch_model(line1) is Ok);
    assert(field_text(field) is Ok);
    lemma_decode_utf8_len(field);
    let text = field_text(field)->Ok_0;
    lemma_two_characters_at_most_99(text, 255);
}

/// The columns `a..b` of an ASCII line decode to one character for each byte.
proof fn lemma_ascii_columns(line: Seq<u8>, a: int, b: int)
    requires
        is_ascii_bytes(line),
        0 <= a <= b <= line.len(),
    ensures
        field_text(line.subrange(a, b)) == Ok::<Seq<char>, Seq<char>>(ascii_chars(line.subrange(a, b))),
{
    let sub = line.subrange(a, b);
    assert(is_ascii_bytes(sub)) by {
        assert forall|i: int| 0 <= i < sub.len() implies sub[i] < 128 by {
            assert(sub[i] == line[a + i]);
        }
    }
    lemma_ascii_field_text(sub);
}

/// An ASCII digit byte.
pub open spec fn is_digit_byte(b: u8) -> bool {
    48 <= b <= 57
}

/// The power of ten that two columns write: a sign then a digit, or two digits.
pub open spec fn written_exponent(sign_or_tens: u8, units: u8) -> int {
    if sign_or_tens == 45 {
        -(units - 48)
    } else if sign_or_tens == 43 {
        units - 48
    } else {
        (sign_or_tens - 48) * 10 + (units - 48)
    }
}

/// Two ASCII columns parse as a signed exponent only where they hold a sign
/// then a digit, or two digits, and give the power that they write.
proof fn lemma_exponent_columns(line: Seq<u8>, a: int)
    requires
        is_ascii_bytes(line),
        0 <= a,
        a + 2 <= line.len(),
        field_integer(line.subrange(a, a + 2), false, true, -128, 127) is Ok,
    ensures
        line[a] == 43 || line[a] == 45 || is_digit_byte(line[a]),
        is_digit_byte(line[a + 1]),
        field_integer(line.subrange(a, a + 2), false, true, -128, 127)->Ok_0 == written_exponent(line[a], line[a + 1]),
{
    lemma_ascii_columns(line, a, a + 2);
    let text = ascii_chars(line.subrange(a, a + 2));
    assert(text[0] == line[a] as char);
    assert(text[1] == line[a + 1] as char);
    reveal_with_fuel(crate::text::scan_digits, 3);
    assert(text.drop_first() =~= seq![text[1]]);
    assert(text.drop_last() =~= seq![text[0]]);
    assert(seq![text[1]].drop_last() =~= Seq::<char>::empty());
    assert(seq![text[0]].drop_last() =~= Seq::<char>::empty());
}

/// The exponents of the second derivative of the mean motion and of the drag
/// term are the powers of ten written in columns 51-52 and 60-61 of line 1,
/// their sign included.
pub proof fn lemma_exponents_are_written_powers(object_name: Option<Seq<char>>, line1: Seq<u8>, line2: Seq<u8>)
    requires
        tle_model(object_name, line1, line2) is Ok,
        is_ascii_bytes(line1),
    ensures
        tle_model(object_name, line1, line2)->Ok_0.mean_motion_ddot.1 == written_exponent(line1[50], line1[51]),
        tle_model(object_name, line1, line2)->Ok_0.drag_term.1 == written_exponent(line1[59], line1[60]),
{
    reveal(tle_model);
    lemma_accepted_tle_is_well_formed(object_name, line1, line2);
    assert(scaled_model(line1.subrange(44, 50), line1.subrange(50, 52)) is Ok);
    assert(scaled_model(line1.subrange(53, 59), line1.subrange(59, 61)) is Ok);
    lemma_exponent_columns(line1, 50);
    lemma_exponent_columns(line1, 59);
}

/// The launch year of two digits `a` and `b` written in four digits.
proof fn lemma_full_year_digits(a: int, b: int)
    requires
        0 <= a <= 9,
        0 <= b <= 9,
    ensures
        decimal(full_year(a * 10 + b) as nat) == seq![
            if a * 10 + b < 57 { '2' } else { '1' },
            if a * 10 + b < 57 { '0' } else { '9' },
            digit_char(a),
            digit_char(b),
        ],
{
    let year = full_year(a * 10 + b);
    lemma_decimal_four_digits(year as nat);
    assert(year / 1000 == if a * 10 + b < 57 { 2int } else { 1int });
    assert(year / 100 % 10 == if a * 10 + b < 57 { 0int } else { 9int });
    assert(year / 10 % 10 == a);
    assert(year % 10 == b);
    assert(digit_char(2) == '2' && digit_char(0) == '0' && digit_char(1) == '1' && digit_char(9) == '9');
}

/// What the designator columns of an ASCII line 1 with a two-digit launch year give.
proof fn lemma_designator_columns(line1: Seq<u8>)
    requires
        line1.len() == 69,
        designator_model(line1) is Ok,
        is_ascii_bytes(line1),
        is_digit_byte(line1[9]),
        is_digit_byte(line1[10]),
    ensures
        designator_model(line1)->Ok_0 == Some(
            seq![
                if (line1[9] - 48) * 10 + (line1[10] - 48) < 57 { '2' } else { '1' },
                if (line1[9] - 48) * 10 + (line1[10] - 48) < 57 { '0' } else { '9' },
                line1[9] as char,
                line1[10] as char,
                '-',
            ] + trim(ascii_chars(line1.subrange(11, 17))),
        ),
{
    assert(!(forall|i: int| 9 <= i < 17 ==> line1[i] == 32)) by {
        assert(line1[9] != 32);
    }
    lemma_ascii_columns(line1, 9, 11);
    lemma_ascii_columns(line1, 11, 17);
    let text = ascii_chars(line1.subrange(9, 11));
    assert(text[0] == line1[9] as char && text[1] == line1[10] as char);
    assert(is_digit_text(text));
    lemma_parse_digits(text, false, 0, 255);
    reveal_with_fuel(digits_value, 3);
    assert(text.drop_last() =~= seq![text[0]]);
    assert(seq![text[0]].drop_last() =~= Seq::<char>::empty());
    let a = line1[9] - 48;
    let b = line1[10] - 48;
    assert(digits_value(text) == a * 10 + b);
    lemma_full_year_digits(a, b);
    assert(digit_char(a) == line1[9] as char);
    assert(digit_char(b) == line1[10] as char);
    let piece = trim(ascii_chars(line1.subrange(11, 17)));
    assert(decimal(full_year(a * 10 + b) as nat) + seq!['-'] + piece =~= seq![
        if a * 10 + b < 57 { '2' } else { '1' },
        if a * 10 + b < 57 { '0' } else { '9' },
        line1[9] as char,
        line1[10] as char,
        '-',
    ] + piece);
}

/// The international designator of a TLE whose launch-year columns 10-11
/// hold two digits is the launch year in four digits (57 to 99 in the 1900s,
/// 00 to 56 in the 2000s), a hyphen, and the text of columns 12-17 without
/// surrounding white space.
pub proof fn lemma_designator_is_written_columns(object_name: Option<Seq<char>>, line1: Seq<u8>, line2: Seq<u8>)
    requires
        tle_model(object_name, line1, line2) is Ok,
        is_ascii_bytes(line1),
        is_digit_byte(line1[9]),
        is_digit_byte(line1[10]),
    ensures
        tle_model(object_name, line1, line2)->Ok_0.international_designator == Some(
            seq![
                if (line1[9] - 48) * 10 + (line1[10] - 48) < 57 { '2' } else { '1' },
                if (line1[9] - 48) * 10 + (line1[10] - 48) < 57 { '0' } else { '9' },
                line1[9] as char,
                line1[10] as char,
                '-',
            ] + trim(ascii_chars(line1.subrange(11, 17))),
        ),
{
    lemma_accepted_tle_is_well_formed(object_name, line1, line2);
    reveal(tle_model);
    assert(designator_model(line1) is Ok);
    lemma_designator_columns(line1);
}

/// A decimal written in columns without its point, with the point put back:
/// before the digits, after a leading minus sign.
pub open spec fn with_point(text: Seq<char>) -> Seq<char> {
    if text.len() > 0 && text[0] == '-' {
        seq!['-', '.'] + text.drop_first()
    } else {
        seq!['.'] + text
    }
}

/// The real numbers of line 1 of a TLE are the texts of their columns without
/// leading white space: the epoch day in columns 21-32, the first derivative
/// of the mean motion in 34-43; the mantissas of the second derivative and of
/// the drag term (columns 45-50 and 54-59) get their point back.
pub proof fn lemma_line1_reals_are_written_columns(object_name: Option<Seq<char>>, line1: Seq<u8>, line2: Seq<u8>)
    requires
        tle_model(object_name, line1, line2) is Ok,
        is_ascii_bytes(line1),
    ensures
        ({
            let elements = tle_model(object_name, line1, line2)->Ok_0;
            &&& elements.epoch_day == trim_start(ascii_chars(line1.subrange(20, 32)))
            &&& elements.mean_motion_dot == trim_start(ascii_chars(line1.subrange(33, 43)))
            &&& elements.mean_motion_ddot.0 == with_point(trim_start(ascii_chars(line1.subrange(44, 50))))
            &&& elements.drag_term.0 == with_point(trim_start(ascii_chars(line1.subrange(53, 59))))
        }),
{
    lemma_accepted_tle_is_well_formed(object_name, line1, line2);
    reveal(tle_model);
    lemma_ascii_columns(line1, 20, 32);
    lemma_ascii_columns(line1, 33, 43);
    lemma_ascii_columns(line1, 44, 50);
    lemma_ascii_columns(line1, 53, 59);
    assert(epoch_model(line1) is Ok);
    assert(scaled_model(line1.subrange(44, 50), line1.subrange(50, 52)) is Ok);
    assert(scaled_model(line1.subrange(53, 59), line1.subrange(59, 61)) is Ok);
}

/// The real numbers of line 2 of a TLE are the texts of their columns without
/// leading white space: inclination 9-16, right ascension 18-25, argument of
/// perigee 35-42, mean anomaly 44-51, mean motion 53-63; the eccentricity in
/// columns 27-33 gets its point back.
pub proof fn lemma_line2_reals_are_written_columns(object_name: Option<Seq<char>>, line1: Seq<u8>, line2: Seq<u8>)
    requires
        tle_model(object_name, line1, line2) is Ok,
        is_ascii_bytes(line2),
    ensures
        ({
            let elements = tle_model(object_name, line1, line2)->Ok_0;
            &&& elements.inclination == trim_start(ascii_chars(line2.subrange(8, 16)))
            &&& elements.right_ascension == trim_start(ascii_chars(line2.subrange(17, 25)))
            &&& elements.eccentricity == with_point(trim_start(ascii_chars(line2.subrange(26, 33))))
            &&& elements.argument_of_perigee == trim_start(ascii_chars(line2.subrange(34, 42)))
            &&& elements.mean_anomaly == trim_start(ascii_chars(line2.subrange(43, 51)))
            &&& elements.mean_motion == trim_start(ascii_chars(line2.subrange(52, 63)))
        }),
{
    lemma_accepted_tle_is_well_formed(object_name, line1, line2);
    reveal(tle_model);
    lemma_ascii_columns(line2, 8, 16);
    lemma_ascii_columns(line2, 17, 25);
    lemma_ascii_columns(line2, 26, 33);
    lemma_ascii_columns(line2, 34, 42);
    lemma_ascii_columns(line2, 43, 51);
    lemma_ascii_columns(line2, 52, 63);
    assert(line2_model(line2) is Ok);
}

/// What an accepted field of digits parses to: their value.
proof fn lemma_digit_field(bytes: Seq<u8>, trimmed: bool, max: int)
    requires
        0 <= max,
        is_ascii_bytes(bytes),
        field_integer(bytes, trimmed, false, 0, max) is Ok,
        is_digit_text(if trimmed { trim_start(ascii_chars(bytes)) } else { ascii_chars(bytes) }),
    ensures
        field_integer(bytes, trimmed, false, 0, max)->Ok_0 == digits_value(
            if trimmed { trim_start(ascii_chars(bytes)) } else { ascii_chars(bytes) },
        ),
{
    lemma_ascii_field_text(bytes);
    let text = if trimmed { trim_start(ascii_chars(bytes)) } else { ascii_chars(bytes) };
    if text.len() > 0 {
        lemma_parse_digits(text, false, 0, max);
    }
}

/// The integers of a TLE are the numbers written in their columns: the
/// catalog number in columns 3-7 of line 1, the epoch year in columns 19-20
/// (57 to 99 in the 1900s, 00 to 56 in the 2000s), the ephemeris type in
/// column 63, the element set number in columns 65-68, the revolution number
/// in columns 64-68 of line 2; and the classification is the letter in
/// column 8: U, C or S.
pub proof fn lemma_integers_are_written_columns(object_name: Option<Seq<char>>, line1: Seq<u8>, line2: Seq<u8>)
    requires
        tle_model(object_name, line1, line2) is Ok,
        is_ascii_bytes(line1),
        is_ascii_bytes(line2),
    ensures
        ({
            let elements = tle_model(object_name, line1, line2)->Ok_0;
            let year = (line1[18] - 48) * 10 + (line1[19] - 48);
            &&& is_digit_text(ascii_chars(line1.subrange(2, 7))) ==> elements.norad_id == digits_value(ascii_chars(line1.subrange(2, 7)))
            &&& is_digit_byte(line1[18]) && is_digit_byte(line1[19]) ==> elements.epoch_year == (if year < 57 { 2000 + year } else { 1900 + year })
            &&& is_digit_text(trim_start(ascii_chars(line1.subrange(62, 63)))) ==> elements.ephemeris_type == digits_value(trim_start(ascii_chars(line1.subrange(62, 63))))
            &&& is_digit_text(trim_start(ascii_chars(line1.subrange(64, 68)))) ==> elements.element_set_number == digits_value(trim_start(ascii_chars(line1.subrange(64, 68))))
            &&& is_digit_text(trim_start(ascii_chars(line2.subrange(63, 68)))) ==> elements.revolution_number == digits_value(trim_start(ascii_chars(line2.subrange(63, 68))))
            &&& (elements.classification == Classification::Unclassified <==> line1[7] == 85)
            &&& (elements.classification == Classification::Classified <==> line1[7] == 67)
            &&& (elements.classification == Classification::Secret <==> line1[7] == 83)
        }),
{
    lemma_accepted_tle_is_well_formed(object_name, line1, line2);
    reveal(tle_model);
    let elements = tle_model(object_name, line1, line2)->Ok_0;
    assert forall|a: int, b: int| 0 <= a <= b <= 69 implies #[trigger] is_ascii_bytes(line1.subrange(a, b)) by {
        assert forall|i: int| 0 <= i < b - a implies line1.subrange(a, b)[i] < 128 by {
            assert(line1.subrange(a, b)[i] == line1[a + i]);
        }
    }
    assert forall|a: int, b: int| 0 <= a <= b <= 69 implies #[trigger] is_ascii_bytes(line2.subrange(a, b)) by {
        assert forall|i: int| 0 <= i < b - a implies line2.subrange(a, b)[i] < 128 by {
            assert(line2.subrange(a, b)[i] == line2[a + i]);
        }
    }
    if is_digit_text(ascii_chars(line1.subrange(2, 7))) {
        lemma_digit_field(line1.subrange(2, 7), false, u64::MAX as int);
        lemma_ascii_field_text(line1.subrange(2, 7));
        lemma_parse_integer_bounds(ascii_chars(line1.subrange(2, 7)), false, 0, u64::MAX as int);
    }
    assert(epoch_model(line1) is Ok);
    if is_digit_byte(line1[18]) && is_digit_byte(line1[19]) {
        let text = ascii_chars(line1.subrange(18, 20));
        assert(text[0] == line1[18] as char && text[1] == line1[19] as char);
        assert(is_digit_text(text));
        lemma_digit_field(line1.subrange(18, 20), false, 255);
        reveal_with_fuel(digits_value, 3);
        assert(text.drop_last() =~= seq![text[0]]);
        assert(seq![text[0]].drop_last() =~= Seq::<char>::empty());
    }
    assert(line1_tail_model(line1) is Ok);
    if is_digit_text(trim_start(ascii_chars(line1.subrange(62, 63)))) {
        lemma_digit_field(line1.subrange(62, 63), true, 255);
        lemma_ascii_field_text(line1.subrange(62, 63));
        lemma_parse_integer_bounds(trim_start(ascii_chars(line1.subrange(62, 63))), false, 0, 255);
    }
    if is_digit_text(trim_start(ascii_chars(line1.subrange(64, 68)))) {
        lemma_digit_field(line1.subrange(64, 68), true, u64::MAX as int);
        lemma_ascii_field_text(line1.subrange(64, 68));
        lemma_parse_integer_bounds(trim_start(ascii_chars(line1.subrange(64, 68))), false, 0, u64::MAX as int);
    }
    assert(line2_model(line2) is Ok);
    if is_digit_text(trim_start(ascii_chars(line2.subrange(63, 68)))) {
        lemma_digit_field(line2.subrange(63, 68), true, u64::MAX as int);
        lemma_ascii_field_text(line2.subrange(63, 68));
        lemma_parse_integer_bounds(trim_start(ascii_chars(line2.subrange(63, 68))), false, 0, u64::MAX as int);
    }
}

/// Lines that agree at the checked indices miss the same space.
proof fn lemma_first_non_space_agree(line: Seq<u8>, other: Seq<u8>, indices: Seq<usize>)
    requires
        forall|k: int| 0 <= k < indices.len() ==> line[#[trigger] indices[k] as int] == other[indices[k] as int],
    ensures
        first_non_space(line, indices) == first_non_space(other, indices),
    decreases indices.len(),
{
    if indices.len() > 0 {
        assert(line[indices[0] as int] == other[indices[0] as int]);
        assert forall|k: int| 0 <= k < indices.drop_first().len() implies line[#[trigger] indices.drop_first()[k] as int] == other[indices.drop_first()[k] as int] by {
            assert(indices.drop_first()[k] == indices[k + 1]);
        }
        lemma_first_non_space_agree(line, other, indices.drop_first());
    }
}

/// The exponent columns 51-52 of line 1 written with a sign and a digit.
proof fn lemma_signed_exponent_field(sign: u8, digit: u8)
    requires
        sign == 43 || sign == 45,
        is_digit_byte(digit),
    ensures
        field_integer(seq![sign, digit], false, true, -128, 127) == Ok::<int, Seq<char>>(
            if sign == 45 { -(digit - 48) } else { digit - 48 },
        ),
{
    let bytes = seq![sign, digit];
    assert(is_ascii_bytes(bytes));
    lemma_ascii_field_text(bytes);
    let d = seq![digit as char];
    assert(ascii_chars(bytes) =~= seq![sign as char] + d);
    assert(is_digit_text(d));
    lemma_parse_digits(d, true, -128, 127);
    reveal_with_fuel(digits_value, 2);
    assert(d.drop_last() =~= Seq::<char>::empty());
    if sign == 45 {
        assert(seq![sign as char] =~= seq!['-']);
    } else {
        assert(seq![sign as char] =~= seq!['+']);
    }
}

/// A TLE whose second-derivative exponent is written with a plus sign in
/// place of a minus sign (the check digit adjusted to stay valid) is accepted
/// or refused as the original, and then differs only in that exponent, which
/// is negated: `+0` reads as `-0`.
pub proof fn lemma_exponent_sign_only_changes_the_exponent(object_name: Option<Seq<char>>, line1: Seq<u8>, plus_line1: Seq<u8>, line2: Seq<u8>)
    requires
        line1.len() == 69,
        plus_line1.len() == 69,
        forall|i: int| 0 <= i < 69 && i != 50 && i != 68 ==> plus_line1[i] == line1[i],
        line1[50] == 45,
        plus_line1[50] == 43,
        is_digit_byte(line1[51]),
        valid_checksum(line1),
        valid_checksum(plus_line1),
    ensures
        tle_model(object_name, plus_line1, line2) == (match tle_model(object_name, line1, line2) {
            Ok(elements) => Ok(ElementsModel {
                mean_motion_ddot: (elements.mean_motion_ddot.0, (-elements.mean_motion_ddot.1) as i8),
                ..elements
            }),
            Err(message) => Err(message),
        }),
{
    reveal(tle_model);
    lemma_first_non_space_agree(line1, plus_line1, space_indices_line1());
    assert(line1.subrange(2, 7) =~= plus_line1.subrange(2, 7));
    assert(line1.subrange(9, 11) =~= plus_line1.subrange(9, 11));
    assert(line1.subrange(11, 17) =~= plus_line1.subrange(11, 17));
    assert(line1.subrange(18, 20) =~= plus_line1.subrange(18, 20));
    assert(line1.subrange(20, 32) =~= plus_line1.subrange(20, 32));
    assert(line1.subrange(33, 43) =~= plus_line1.subrange(33, 43));
    assert(line1.subrange(44, 50) =~= plus_line1.subrange(44, 50));
    assert(line1.subrange(53, 59) =~= plus_line1.subrange(53, 59));
    assert(line1.subrange(59, 61) =~= plus_line1.subrange(59, 61));
    assert(line1.subrange(62, 63) =~= plus_line1.subrange(62, 63));
    assert(line1.subrange(64, 68) =~= plus_line1.subrange(64, 68));
    assert(line1.subrange(50, 52) =~= seq![line1[50], line1[51]]);
    assert(plus_line1.subrange(50, 52) =~= seq![plus_line1[50], plus_line1[51]]);
    lemma_signed_exponent_field(45, line1[51]);
    lemma_signed_exponent_field(43, line1[51]);
    assert(header_model(plus_line1, line2) == header_model(line1, line2));
    assert(designator_model(plus_line1) == designator_model(line1));
    assert(epoch_model(plus_line1) == epoch_model(line1));
    assert(line1_tail_model(plus_line1) == line1_tail_model(line1));
}

/// The checksum of a line adds the value of each digit and one for each
/// minus sign; every other character adds nothing.
pub proof fn lemma_checksum_adds_characters(bytes: Seq<u8>, b: u8)
    ensures
        checksum_sum(Seq::<u8>::empty()) == 0,
        checksum_sum(bytes.push(b)) == checksum_sum(bytes) + if b == 45 {
            1
        } else if 48 <= b <= 57 {
            b - 48
        } else {
            0
        },
{
    assert(bytes.push(b).drop_last() =~= bytes);
}

/// A TLE whose designator columns 10-17 are blank has no international designator.
pub proof fn lemma_blank_designator_is_none(object_name: Option<Seq<char>>, line1: Seq<u8>, line2: Seq<u8>)
    requires
        tle_model(object_name, line1, line2) is Ok,
        forall|i: int| 9 <= i < 17 ==> line1[i] == 32,
    ensures
        tle_model(object_name, line1, line2)->Ok_0.international_designator is None,
{
    reveal(tle_model);
}

} // verus!
