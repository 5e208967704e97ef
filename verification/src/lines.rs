use crate::error::Error;
use crate::text::string_from_utf8;
use crate::tle::lemma_object_name_is_handed_through;
use crate::tle::tle_model;
use crate::tle::Elements;
use crate::tle::ElementsModel;
use vstd::prelude::*;
use vstd::slice::slice_subrange;
use vstd::string::*;
use vstd::utf8::*;

verus! {

broadcast use vstd::utf8::encode_utf8_valid_utf8;

// ---------------------------------------------------------------------------
// Lines
// ---------------------------------------------------------------------------

/// The index of the first line feed of `text` at or after `start`, or the
/// length of `text` where there is none.
pub open spec fn newline_from(text: Seq<u8>, start: int) -> int
    decreases text.len() - start,
{
    if start < 0 || start >= text.len() {
        text.len() as int
    } else if text[start] == 10 {
        start
    } else {
        newline_from(text, start + 1)
    }
}

/// Where the next line feed is.
pub proof fn lemma_newline_from(text: Seq<u8>, start: int)
    requires
        0 <= start <= text.len(),
    ensures
        start <= newline_from(text, start) <= text.len(),
        newline_from(text, start) < text.len() ==> text[newline_from(text, start)] == 10,
        forall|i: int| start <= i < newline_from(text, start) ==> text[i] != 10,
    decreases text.len() - start,
{
    if start < text.len() && text[start] != 10 {
        lemma_newline_from(text, start + 1);
    }
}

/// A line without the carriage return that ends it, if any.
pub open spec fn strip_carriage_return(line: Seq<u8>) -> Seq<u8> {
    if line.len() > 0 && line.last() == 13 {
        line.drop_last()
    } else {
        line
    }
}

/// The lines of `text` from `start` on, as `str::lines` splits them: at each
/// line feed, a carriage return before it dropped; a final line feed opens no
/// empty line.
pub open spec fn lines_from(text: Seq<u8>, start: int) -> Seq<Seq<u8>>
    decreases text.len() - start,
{
    if start < 0 || start >= text.len() {
        seq![]
    } else {
        let end = newline_from(text, start);
        proof {
            lemma_newline_from(text, start);
        }
        if end < text.len() {
            seq![strip_carriage_return(text.subrange(start, end))] + lines_from(text, end + 1)
        } else {
            seq![text.subrange(start, end)]
        }
    }
}

/// The lines of `text`.
pub open spec fn lines(text: Seq<u8>) -> Seq<Seq<u8>> {
    lines_from(text, 0)
}

/// The line that starts at `start`: the index where it ends, and the index
/// where the next line starts.
fn next_line(bytes: &[u8], start: usize) -> (r: (usize, usize))
    requires
        start < bytes@.len(),
    ensures
        start <= r.0 <= bytes@.len(),
        start < r.1 <= bytes@.len(),
        lines_from(bytes@, start as int) == seq![bytes@.subrange(start as int, r.0 as int)] + lines_from(bytes@, r.1 as int),
        r.0 == bytes@.len() || bytes@[r.0 as int] == 10 || bytes@[r.0 as int] == 13,
        r.1 == bytes@.len() || bytes@[r.1 - 1] == 10,
{
    let ghost text = bytes@;
    let mut end = start;
    proof {
        lemma_newline_from(text, start as int);
    }
    while end < bytes.len() && bytes[end] != 10
        invariant
            start <= end <= bytes@.len(),
            text == bytes@,
            newline_from(text, start as int) == newline_from(text, end as int),
        decreases bytes@.len() - end,
    {
        end += 1;
    }
    if end < bytes.len() {
        let line_end = if end > start && bytes[end - 1] == 13 {
            end - 1
        } else {
            end
        };
        if end > start {
            assert(text.subrange(start as int, end as int).drop_last() =~= text.subrange(start as int, end - 1));
        }
        (line_end, end + 1)
    } else {
        assert(lines_from(text, end as int) =~= Seq::<Seq<u8>>::empty());
        assert(lines_from(text, start as int) =~= seq![text.subrange(start as int, end as int)] + lines_from(text, end as int));
        (end, end)
    }
}

// ---------------------------------------------------------------------------
// UTF-8 of a line
// ---------------------------------------------------------------------------

/// In valid UTF-8, the byte after an ASCII byte starts a character.
proof fn lemma_after_ascii(bytes: Seq<u8>, i: int)
    requires
        valid_utf8(bytes),
        0 <= i,
        i + 1 < bytes.len(),
        bytes[i] < 0x80,
    ensures
        !is_continuation_byte(bytes[i + 1]),
{
    is_char_boundary_iff_not_is_continuation_byte(bytes, i);
    valid_utf8_split(bytes, i);
    let suffix = bytes.subrange(i, bytes.len() as int);
    assert(suffix[0] == bytes[i]);
    assert(length_of_first_scalar(suffix) == 1);
    let rest = pop_first_scalar(suffix);
    assert(rest =~= bytes.subrange(i + 1, bytes.len() as int));
    assert(valid_utf8(rest));
    assert(valid_first_scalar(rest));
    assert(rest[0] == bytes[i + 1]);
}

/// In valid UTF-8, the bytes between two ASCII bytes, or the ends, are valid UTF-8.
proof fn lemma_line_is_utf8(bytes: Seq<u8>, start: int, end: int)
    requires
        valid_utf8(bytes),
        0 <= start <= end <= bytes.len(),
        start == 0 || bytes[start - 1] < 0x80,
        end == bytes.len() || bytes[end] < 0x80,
    ensures
        valid_utf8(bytes.subrange(start, end)),
{
    is_char_boundary_start_end_of_seq(bytes);
    if 0 < start < bytes.len() {
        lemma_after_ascii(bytes, start - 1);
        is_char_boundary_iff_not_is_continuation_byte(bytes, start);
    }
    valid_utf8_split(bytes, start);
    let suffix = bytes.subrange(start, bytes.len() as int);
    is_char_boundary_start_end_of_seq(suffix);
    if end < bytes.len() {
        assert(suffix[end - start] == bytes[end]);
        is_char_boundary_iff_not_is_continuation_byte(suffix, end - start);
    }
    valid_utf8_split(suffix, end - start);
    assert(suffix.subrange(0, end - start) =~= bytes.subrange(start, end));
}

// ---------------------------------------------------------------------------
// Lists of TLEs
// ---------------------------------------------------------------------------

/// The elements of a list by their values in contracts.
pub open spec fn elements_view(group: Seq<Elements>) -> Seq<ElementsModel> {
    group.map_values(|elements: Elements| elements@)
}

/// A parse result of a list by its value in contracts.
pub open spec fn group_view(res: Result<Vec<Elements>, Error>) -> Result<Seq<ElementsModel>, Seq<char>> {
    match res {
        Ok(group) => Ok(elements_view(group@)),
        Err(error) => Err(error@),
    }
}

/// The TLEs of the first `k` pairs of `lines`, or the message of the first that fails.
pub open spec fn pairs_model(lines: Seq<Seq<u8>>, k: nat) -> Result<Seq<ElementsModel>, Seq<char>>
    decreases k,
{
    if k == 0 {
        Ok(seq![])
    } else {
        match pairs_model(lines, (k - 1) as nat) {
            Err(message) => Err(message),
            Ok(previous) => match tle_model(None, lines[2 * k - 2], lines[2 * k - 1]) {
                Err(message) => Err(message),
                Ok(elements) => Ok(previous.push(elements)),
            },
        }
    }
}

/// The TLEs of the first `k` triplets of `lines`, each a name line and the
/// two lines of a TLE, or the message of the first that fails.
pub open spec fn triplets_model(lines: Seq<Seq<u8>>, k: nat) -> Result<Seq<ElementsModel>, Seq<char>>
    decreases k,
{
    if k == 0 {
        Ok(seq![])
    } else {
        match triplets_model(lines, (k - 1) as nat) {
            Err(message) => Err(message),
            Ok(previous) => match tle_model(Some(decode_utf8(lines[3 * k - 3])), lines[3 * k - 2], lines[3 * k - 1]) {
                Err(message) => Err(message),
                Ok(elements) => Ok(previous.push(elements)),
            },
        }
    }
}

/// What a TL/2LE text holds: one TLE for each pair of lines; a last line
/// without its pair is ignored.
pub open spec fn two_line_model(text: Seq<u8>) -> Result<Seq<ElementsModel>, Seq<char>> {
    pairs_model(lines(text), lines(text).len() / 2)
}

/// What a TL/3LE text holds: one named TLE for each triplet of lines; one or
/// two last lines without their triplet are ignored.
pub open spec fn three_line_model(text: Seq<u8>) -> Result<Seq<ElementsModel>, Seq<char>> {
    triplets_model(lines(text), lines(text).len() / 3)
}

/// A failing pair fails all the pairs that include it.
proof fn lemma_pairs_error(lines: Seq<Seq<u8>>, k: nat, n: nat)
    requires
        k <= n,
        pairs_model(lines, k) is Err,
    ensures
        pairs_model(lines, n) == pairs_model(lines, k),
    decreases n - k,
{
    if k < n {
        lemma_pairs_error(lines, k, (n - 1) as nat);
    }
}

/// A failing triplet fails all the triplets that include it.
proof fn lemma_triplets_error(lines: Seq<Seq<u8>>, k: nat, n: nat)
    requires
        k <= n,
        triplets_model(lines, k) is Err,
    ensures
        triplets_model(lines, n) == triplets_model(lines, k),
    decreases n - k,
{
    if k < n {
        lemma_triplets_error(lines, k, (n - 1) as nat);
    }
}

/// Parses a multi-line TL/2LE string into a list of `Elements`
///
/// Each pair of lines must represent a TLE, for example as in
/// <https://celestrak.com/NORAD/elements/gp.php?GROUP=stations&FORMAT=2le>.
///
/// # Arguments
///
/// * `tles` - A string containing multiple lines
pub fn parse_2les(tles: &str) -> (res: Result<Vec<Elements>, Error>)
    ensures
        group_view(res) == two_line_model(tles.spec_bytes()),
{
    let bytes = tles.as_bytes();
    let ghost all = lines(bytes@);
    let mut start: usize = 0;
    let mut count: usize = 0;
    let mut first = true;
    let mut buffer_start: usize = 0;
    let mut buffer_end: usize = 0;
    let mut elements_group: Vec<Elements> = Vec::new();
    let ghost mut pairs: nat = 0;
    assert(all.skip(0) =~= all);
    assert(elements_view(elements_group@) =~= Seq::<ElementsModel>::empty());
    while start < bytes.len()
        invariant
            start <= bytes@.len(),
            bytes@ == tles.spec_bytes(),
            all == lines(bytes@),
            count <= all.len(),
            count <= start,
            lines_from(bytes@, start as int) == all.skip(count as int),
            first ==> count == 2 * pairs,
            !first ==> count == 2 * pairs + 1,
            !first ==> buffer_start <= buffer_end <= bytes@.len() && bytes@.subrange(buffer_start as int, buffer_end as int) == all[count - 1],
            pairs_model(all, pairs) == Ok::<Seq<ElementsModel>, Seq<char>>(elements_view(elements_group@)),
        decreases bytes@.len() - start,
    {
        let (line_end, next) = next_line(bytes, start);
        assert(all.skip(count as int)[0] == bytes@.subrange(start as int, line_end as int));
        assert(all.skip(count as int).drop_first() =~= all.skip(count + 1));
        if first {
            buffer_start = start;
            buffer_end = line_end;
        } else {
            let line1 = slice_subrange(bytes, buffer_start, buffer_end);
            let line2 = slice_subrange(bytes, start, line_end);
            match Elements::from_tle(None, line1, line2) {
                Ok(elements) => {
                    let ghost before = elements_group@;
                    elements_group.push(elements);
                    assert(elements_view(elements_group@) =~= elements_view(before).push(elements@));
                    assert(pairs_model(all, pairs + 1) == Ok::<Seq<ElementsModel>, Seq<char>>(elements_view(elements_group@)));
                },
                Err(error) => {
                    proof {
                        assert(pairs_model(all, pairs + 1) == Err::<Seq<ElementsModel>, Seq<char>>(error@));
                        assert((all.len() / 2) as nat >= pairs + 1) by (nonlinear_arith)
                            requires count == 2 * pairs + 1, count < all.len();
                        lemma_pairs_error(all, pairs + 1, (all.len() / 2) as nat);
                    }
                    return Err(error);
                },
            }
            proof {
                pairs = pairs + 1;
            }
        }
        count += 1;
        first = !first;
        start = next;
    }
    assert(all.skip(count as int).len() == 0);
    assert(pairs == (all.len() / 2) as nat) by (nonlinear_arith)
        requires count == all.len(), count == 2 * pairs || count == 2 * pairs + 1;
    Ok(elements_group)
}


/// Parses a multi-line TL/3LE string into a list of `Elements`
///
/// Each triplet of lines must represent a TLE with an object name, for example as in
/// <https://celestrak.com/NORAD/elements/gp.php?GROUP=stations&FORMAT=tle>.
///
/// # Arguments
///
/// * `tles` - A string containing multiple lines
pub fn parse_3les(tles: &str) -> (res: Result<Vec<Elements>, Error>)
    ensures
        group_view(res) == three_line_model(tles.spec_bytes()),
{
    let bytes = tles.as_bytes();
    let ghost all = lines(bytes@);
    let mut start: usize = 0;
    let mut count: usize = 0;
    let mut index: usize = 0;
    let mut name_start: usize = 0;
    let mut name_end: usize = 0;
    let mut line1_start: usize = 0;
    let mut line1_end: usize = 0;
    let mut elements_group: Vec<Elements> = Vec::new();
    let ghost mut triplets: nat = 0;
    assert(all.skip(0) =~= all);
    assert(elements_view(elements_group@) =~= Seq::<ElementsModel>::empty());
    while start < bytes.len()
        invariant
            start <= bytes@.len(),
            bytes@ == tles.spec_bytes(),
            valid_utf8(bytes@),
            all == lines(bytes@),
            count <= all.len(),
            count <= start,
            start == 0 || start == bytes@.len() || bytes@[start - 1] == 10,
            lines_from(bytes@, start as int) == all.skip(count as int),
            index <= 2,
            count == 3 * triplets + index,
            index >= 1 ==> name_start <= name_end <= bytes@.len() && bytes@.subrange(name_start as int, name_end as int) == all[3 * triplets as int],
            index >= 1 ==> name_start == 0 || bytes@[name_start - 1] == 10,
            index >= 1 ==> name_end == bytes@.len() || bytes@[name_end as int] == 10 || bytes@[name_end as int] == 13,
            index == 2 ==> line1_start <= line1_end <= bytes@.len() && bytes@.subrange(line1_start as int, line1_end as int) == all[3 * triplets as int + 1],
            triplets_model(all, triplets) == Ok::<Seq<ElementsModel>, Seq<char>>(elements_view(elements_group@)),
        decreases bytes@.len() - start,
    {
        let (line_end, next) = next_line(bytes, start);
        assert(all.skip(count as int)[0] == bytes@.subrange(start as int, line_end as int));
        assert(all.skip(count as int).drop_first() =~= all.skip(count + 1));
        if index == 0 {
            name_start = start;
            name_end = line_end;
            index = 1;
        } else if index == 1 {
            line1_start = start;
            line1_end = line_end;
            index = 2;
        } else {
            proof {
                lemma_line_is_utf8(bytes@, name_start as int, name_end as int);
            }
            let name = string_from_utf8(slice_subrange(bytes, name_start, name_end));
            let line1 = slice_subrange(bytes, line1_start, line1_end);
            let line2 = slice_subrange(bytes, start, line_end);
            match Elements::from_tle(Some(name), line1, line2) {
                Ok(elements) => {
                    let ghost before = elements_group@;
                    elements_group.push(elements);
                    assert(elements_view(elements_group@) =~= elements_view(before).push(elements@));
                    assert(triplets_model(all, triplets + 1) == Ok::<Seq<ElementsModel>, Seq<char>>(elements_view(elements_group@)));
                },
                Err(error) => {
                    proof {
                        assert(triplets_model(all, triplets + 1) == Err::<Seq<ElementsModel>, Seq<char>>(error@));
                        assert((all.len() / 3) as nat >= triplets + 1) by (nonlinear_arith)
                            requires count == 3 * triplets + 2, count < all.len();
                        lemma_triplets_error(all, triplets + 1, (all.len() / 3) as nat);
                    }
                    return Err(error);
                },
            }
            proof {
                triplets = triplets + 1;
            }
            index = 0;
        }
        count += 1;
        start = next;
    }
    assert(all.skip(count as int).len() == 0);
    assert(triplets == (all.len() / 3) as nat) by (nonlinear_arith)
        requires count == all.len(), count == 3 * triplets + index, index <= 2;
    Ok(elements_group)
}

// ---------------------------------------------------------------------------
// Laws
// ---------------------------------------------------------------------------

/// Lines joined by line feeds.
pub open spec fn join_lines(lines: Seq<Seq<u8>>) -> Seq<u8>
    decreases lines.len(),
{
    if lines.len() == 0 {
        seq![]
    } else if lines.len() == 1 {
        lines[0]
    } else {
        lines[0] + seq![10u8] + join_lines(lines.drop_first())
    }
}

/// Lines that `join_lines` can join and `lines` splits back: none holds a
/// line feed, none but the last ends with a carriage return, and the last is
/// not empty.
pub open spec fn joinable(lines: Seq<Seq<u8>>) -> bool {
    &&& forall|i: int, j: int| 0 <= i < lines.len() && 0 <= j < lines[i].len() ==> lines[i][j] != 10
    &&& forall|i: int| 0 <= i < lines.len() - 1 ==> (lines[i].len() == 0 || lines[i].last() != 13)
    &&& lines.len() > 0 ==> lines.last().len() > 0
}

/// The search for a line feed is the same after a prefix.
proof fn lemma_newline_shift(prefix: Seq<u8>, rest: Seq<u8>, i: int)
    requires
        0 <= i <= rest.len(),
    ensures
        newline_from(prefix + rest, prefix.len() + i) == prefix.len() + newline_from(rest, i),
    decreases rest.len() - i,
{
    let text = prefix + rest;
    if i < rest.len() {
        assert(text[prefix.len() + i] == rest[i]);
        if rest[i] != 10 {
            lemma_newline_shift(prefix, rest, i + 1);
        }
    }
}

/// The lines after a prefix are the lines of the rest.
proof fn lemma_lines_shift(prefix: Seq<u8>, rest: Seq<u8>, i: int)
    requires
        0 <= i,
    ensures
        lines_from(prefix + rest, prefix.len() + i) == lines_from(rest, i),
    decreases rest.len() - i,
{
    let text = prefix + rest;
    if i < rest.len() {
        lemma_newline_shift(prefix, rest, i);
        lemma_newline_from(rest, i);
        let end = newline_from(rest, i);
        assert(text.subrange(prefix.len() + i, prefix.len() + end) =~= rest.subrange(i, end));
        if end < rest.len() {
            lemma_lines_shift(prefix, rest, end + 1);
        }
    }
}

/// A line without a line feed, then a line feed, then the rest: the line
/// comes first.
proof fn lemma_lines_cons(line: Seq<u8>, rest: Seq<u8>)
    requires
        forall|j: int| 0 <= j < line.len() ==> line[j] != 10,
    ensures
        lines(line + seq![10u8] + rest) == seq![strip_carriage_return(line)] + lines(rest),
{
    let text = line + seq![10u8] + rest;
    let head = line + seq![10u8];
    assert(text =~= head + rest);
    assert(forall|j: int| 0 <= j < line.len() ==> text[j] == line[j]);
    assert(text[line.len() as int] == 10);
    lemma_newline_from(text, 0);
    assert(newline_from(text, 0) == line.len()) by {
        if newline_from(text, 0) < line.len() {
            assert(text[newline_from(text, 0)] == line[newline_from(text, 0)]);
        }
    }
    assert(text.subrange(0, line.len() as int) =~= line);
    lemma_lines_shift(head, rest, 0);
}

/// Splitting lines joined by line feeds gives the lines back.
pub proof fn lemma_lines_of_joined(lines_to_join: Seq<Seq<u8>>)
    requires
        joinable(lines_to_join),
    ensures
        lines(join_lines(lines_to_join)) == lines_to_join,
    decreases lines_to_join.len(),
{
    let ls = lines_to_join;
    if ls.len() == 0 {
        assert(lines(join_lines(ls)) =~= ls);
    } else if ls.len() == 1 {
        let text = ls[0];
        lemma_newline_from(text, 0);
        assert(newline_from(text, 0) == text.len());
        assert(text.subrange(0, text.len() as int) =~= text);
        assert(lines(text) =~= ls);
    } else {
        let tail = ls.drop_first();
        assert(joinable(tail)) by {
            assert forall|i: int, j: int| 0 <= i < tail.len() && 0 <= j < tail[i].len() implies tail[i][j] != 10 by {
                assert(tail[i] == ls[i + 1]);
            }
            assert forall|i: int| 0 <= i < tail.len() - 1 implies (tail[i].len() == 0 || tail[i].last() != 13) by {
                assert(tail[i] == ls[i + 1]);
            }
        }
        lemma_lines_of_joined(tail);
        assert(forall|j: int| 0 <= j < ls[0].len() ==> ls[0][j] != 10);
        lemma_lines_cons(ls[0], join_lines(tail));
        assert(strip_carriage_return(ls[0]) == ls[0]);
        assert(lines(join_lines(ls)) =~= seq![ls[0]] + tail);
    }
}

/// No line feed before `k`: the search from `start` goes on from `k`.
proof fn lemma_newline_skip(text: Seq<u8>, start: int, k: int)
    requires
        0 <= start <= k <= text.len(),
        forall|i: int| start <= i < k ==> text[i] != 10,
    ensures
        newline_from(text, start) == newline_from(text, k),
    decreases k - start,
{
    if start < k {
        lemma_newline_skip(text, start + 1, k);
    }
}

/// A final line ending changes nothing from `start` on.
proof fn lemma_final_line_ending_from(text: Seq<u8>, ending: Seq<u8>, start: int)
    requires
        text.len() > 0,
        text.last() != 10,
        text.last() != 13,
        ending == seq![10u8] || ending == seq![13u8, 10u8],
        0 <= start < text.len(),
    ensures
        lines_from(text + ending, start) == lines_from(text, start),
    decreases text.len() - start,
{
    let longer = text + ending;
    if start < text.len() {
        lemma_newline_from(text, start);
        lemma_newline_from(longer, start);
        let end = newline_from(text, start);
        assert(forall|i: int| 0 <= i < text.len() ==> longer[i] == text[i]);
        if end < text.len() {
            assert(newline_from(longer, start) == end) by {
                if newline_from(longer, start) < end {
                    assert(longer[newline_from(longer, start)] == text[newline_from(longer, start)]);
                }
            }
            assert(longer.subrange(start, end) =~= text.subrange(start, end));
            // the line feed at `end` is not the last character
            assert(end + 1 < text.len());
            lemma_final_line_ending_from(text, ending, end + 1);
        } else {
            let e = newline_from(longer, start);
            lemma_newline_skip(longer, start, text.len() as int);
            assert(longer[text.len() as int] == ending[0]);
            if ending.len() == 2 {
                assert(longer[text.len() as int + 1] == 10);
                assert(newline_from(longer, text.len() as int + 1) == text.len() + 1);
            }
            assert(e == text.len() + ending.len() - 1);
            assert(lines_from(longer, e + 1) =~= Seq::<Seq<u8>>::empty());
            assert(strip_carriage_return(longer.subrange(start, e)) =~= text.subrange(start, text.len() as int));
        }
    }
}

/// A text that ends with a final line ending gives the same TLEs as the text
/// without it.
pub proof fn lemma_final_line_ending(text: Seq<u8>, ending: Seq<u8>)
    requires
        text.len() > 0,
        text.last() != 10,
        text.last() != 13,
        ending == seq![10u8] || ending == seq![13u8, 10u8],
    ensures
        lines(text + ending) == lines(text),
        two_line_model(text + ending) == two_line_model(text),
        three_line_model(text + ending) == three_line_model(text),
{
    lemma_final_line_ending_from(text, ending, 0);
}

/// Lines joined by line feeds give one TLE for each pair of lines, as
/// `Elements::from_tle` reads it.
pub proof fn lemma_two_line_model_of_joined(lines_to_join: Seq<Seq<u8>>)
    requires
        joinable(lines_to_join),
    ensures
        two_line_model(join_lines(lines_to_join)) == pairs_model(lines_to_join, lines_to_join.len() / 2),
        three_line_model(join_lines(lines_to_join)) == triplets_model(lines_to_join, lines_to_join.len() / 3),
{
    lemma_lines_of_joined(lines_to_join);
}

/// Two lines joined by a line feed give the one TLE that they make.
pub proof fn lemma_two_line_model_of_one_tle(line1: Seq<u8>, line2: Seq<u8>)
    requires
        joinable(seq![line1, line2]),
    ensures
        two_line_model(line1 + seq![10u8] + line2) == (match tle_model(None, line1, line2) {
            Ok(elements) => Ok(seq![elements]),
            Err(message) => Err(message),
        }),
{
    let ls = seq![line1, line2];
    assert(ls.drop_first() =~= seq![line2]);
    assert(join_lines(ls.drop_first()) == line2);
    assert(join_lines(ls) =~= line1 + seq![10u8] + line2);
    lemma_lines_of_joined(ls);
    assert(pairs_model(ls, 0) == Ok::<Seq<ElementsModel>, Seq<char>>(seq![]));
    assert(seq![].push(tle_model(None, line1, line2)->Ok_0) =~= seq![tle_model(None, line1, line2)->Ok_0]);
}

/// A name line and the two lines of a TLE, joined by line feeds, give the
/// one TLE that they make, under that name.
pub proof fn lemma_three_line_model_of_one_tle(name: Seq<u8>, line1: Seq<u8>, line2: Seq<u8>)
    requires
        joinable(seq![name, line1, line2]),
    ensures
        three_line_model(name + seq![10u8] + line1 + seq![10u8] + line2) == (match tle_model(Some(decode_utf8(name)), line1, line2) {
            Ok(elements) => Ok(seq![elements]),
            Err(message) => Err(message),
        }),
{
    let ls = seq![name, line1, line2];
    assert(ls.drop_first() =~= seq![line1, line2]);
    assert(ls.drop_first().drop_first() =~= seq![line2]);
    assert(join_lines(ls.drop_first().drop_first()) == line2);
    assert(join_lines(ls.drop_first()) =~= line1 + seq![10u8] + line2);
    assert(join_lines(ls) =~= name + seq![10u8] + line1 + seq![10u8] + line2);
    lemma_lines_of_joined(ls);
    assert(triplets_model(ls, 0) == Ok::<Seq<ElementsModel>, Seq<char>>(seq![]));
    assert(seq![].push(tle_model(Some(decode_utf8(name)), line1, line2)->Ok_0) =~= seq![tle_model(Some(decode_utf8(name)), line1, line2)->Ok_0]);
}

/// The `i`-th TLE of a list of triplets and of a list of pairs have the same lines.
pub open spec fn same_tle_lines(named_lines: Seq<Seq<u8>>, tle_lines: Seq<Seq<u8>>, i: int) -> bool {
    tle_lines[2 * i] == named_lines[3 * i + 1] && tle_lines[2 * i + 1] == named_lines[3 * i + 2]
}

/// A TL/3LE list reads as the TL/2LE list without its name lines, each TLE
/// under the name of its triplet: both fail with the same message, or both
/// give the same elements but for the names.
pub proof fn lemma_named_list_is_unnamed_list(named_lines: Seq<Seq<u8>>, tle_lines: Seq<Seq<u8>>, k: nat)
    requires
        3 * k <= named_lines.len(),
        2 * k <= tle_lines.len(),
        forall|i: int| 0 <= i < k ==> #[trigger] same_tle_lines(named_lines, tle_lines, i),
    ensures
        triplets_model(named_lines, k) is Ok <==> pairs_model(tle_lines, k) is Ok,
        pairs_model(tle_lines, k) is Err ==> triplets_model(named_lines, k) == pairs_model(tle_lines, k),
        pairs_model(tle_lines, k) is Ok ==> {
            let named = triplets_model(named_lines, k)->Ok_0;
            let unnamed = pairs_model(tle_lines, k)->Ok_0;
            &&& named.len() == k
            &&& unnamed.len() == k
            &&& forall|i: int| 0 <= i < k ==> #[trigger] named[i] == ElementsModel {
                object_name: Some(decode_utf8(named_lines[3 * i])),
                ..unnamed[i]
            }
        },
    decreases k,
{
    if k > 0 {
        let j: int = k - 1;
        lemma_named_list_is_unnamed_list(named_lines, tle_lines, j as nat);
        assert(same_tle_lines(named_lines, tle_lines, j));
        lemma_object_name_is_handed_through(None, Some(decode_utf8(named_lines[3 * j])), tle_lines[2 * j], tle_lines[2 * j + 1]);
        if pairs_model(tle_lines, k) is Ok {
            let named = triplets_model(named_lines, k)->Ok_0;
            let unnamed = pairs_model(tle_lines, k)->Ok_0;
            assert forall|i: int| 0 <= i < k implies #[trigger] named[i] == ElementsModel {
                object_name: Some(decode_utf8(named_lines[3 * i])),
                ..unnamed[i]
            } by {
                if i < j {
                    assert(named[i] == triplets_model(named_lines, j as nat)->Ok_0[i]);
                    assert(unnamed[i] == pairs_model(tle_lines, j as nat)->Ok_0[i]);
                }
            }
        }
    }
}

/// `text` with a carriage return put before each line feed
/// (`str::replace("\n", "\r\n")`).
pub open spec fn with_crlf(text: Seq<u8>) -> Seq<u8>
    decreases text.len(),
{
    if text.len() == 0 {
        seq![]
    } else if text[0] == 10 {
        seq![13u8, 10u8] + with_crlf(text.drop_first())
    } else {
        seq![text[0]] + with_crlf(text.drop_first())
    }
}

/// Without line feeds, nothing is put in.
proof fn lemma_crlf_no_newline(text: Seq<u8>)
    requires
        forall|j: int| 0 <= j < text.len() ==> text[j] != 10,
    ensures
        with_crlf(text) == text,
    decreases text.len(),
{
    if text.len() > 0 {
        lemma_crlf_no_newline(text.drop_first());
        assert(seq![text[0]] + text.drop_first() =~= text);
    }
}

/// Carriage returns are put in part by part.
proof fn lemma_crlf_concat(x: Seq<u8>, y: Seq<u8>)
    ensures
        with_crlf(x + y) == with_crlf(x) + with_crlf(y),
    decreases x.len(),
{
    if x.len() == 0 {
        assert(x + y =~= y);
        assert(with_crlf(x) + with_crlf(y) =~= with_crlf(y));
    } else {
        assert((x + y).drop_first() =~= x.drop_first() + y);
        assert((x + y)[0] == x[0]);
        lemma_crlf_concat(x.drop_first(), y);
        if x[0] == 10 {
            assert(with_crlf(x + y) =~= seq![13u8, 10u8] + with_crlf(x.drop_first()) + with_crlf(y));
        } else {
            assert(with_crlf(x + y) =~= seq![x[0]] + with_crlf(x.drop_first()) + with_crlf(y));
        }
    }
}

/// Line feeds and carriage-return line feeds end the same lines: a text
/// without carriage returns splits as the same text with each line feed made
/// a carriage return and a line feed.
pub proof fn lemma_crlf_lines(text: Seq<u8>)
    requires
        forall|j: int| 0 <= j < text.len() ==> text[j] != 13,
    ensures
        lines(with_crlf(text)) == lines(text),
    decreases text.len(),
{
    lemma_newline_from(text, 0);
    let e = newline_from(text, 0);
    if e == text.len() {
        lemma_crlf_no_newline(text);
    } else {
        let line = text.take(e);
        let rest = text.skip(e + 1);
        assert(text =~= line + seq![10u8] + rest);
        assert(forall|j: int| 0 <= j < line.len() ==> line[j] != 10);
        lemma_crlf_no_newline(line);
        lemma_crlf_concat(line + seq![10u8], rest);
        lemma_crlf_concat(line, seq![10u8]);
        assert(with_crlf(seq![10u8]) =~= seq![13u8, 10u8]) by {
            assert(seq![10u8].drop_first() =~= Seq::<u8>::empty());
            assert(seq![10u8][0] == 10);
            assert(with_crlf(Seq::<u8>::empty()) == Seq::<u8>::empty());
            assert(seq![13u8, 10u8] + Seq::<u8>::empty() =~= seq![13u8, 10u8]);
        }
        let ended = line + seq![13u8];
        assert(with_crlf(text) =~= ended + seq![10u8] + with_crlf(rest));
        assert(forall|j: int| 0 <= j < ended.len() ==> ended[j] != 10);
        lemma_lines_cons(ended, with_crlf(rest));
        assert(strip_carriage_return(ended) =~= line);
        lemma_lines_cons(line, rest);
        assert(strip_carriage_return(line) == line);
        lemma_crlf_lines(rest);
    }
}

/// CRLF line endings give the same TLEs as LF line endings.
pub proof fn lemma_crlf_models(text: Seq<u8>)
    requires
        forall|j: int| 0 <= j < text.len() ==> text[j] != 13,
    ensures
        two_line_model(with_crlf(text)) == two_line_model(text),
        three_line_model(with_crlf(text)) == three_line_model(text),
{
    lemma_crlf_lines(text);
}

/// A line that ends no line early: no line feed, and no carriage return at its end.
pub open spec fn is_plain_line(line: Seq<u8>) -> bool {
    &&& forall|j: int| 0 <= j < line.len() ==> line[j] != 10
    &&& (line.len() == 0 || line.last() != 13)
}

/// Names and the lines of their TLEs written as a TL/3LE text: each name,
/// then the two lines of its TLE, each line ended by a line feed.
pub open spec fn named_text(names: Seq<Seq<u8>>, tle_lines: Seq<Seq<u8>>) -> Seq<u8>
    decreases names.len(),
{
    if names.len() == 0 {
        seq![]
    } else {
        names[0] + seq![10u8] + tle_lines[0] + seq![10u8] + tle_lines[1] + seq![10u8] + named_text(
            names.drop_first(),
            tle_lines.skip(2),
        )
    }
}

/// The lines of `named_text`: each name followed by the two lines of its TLE.
pub open spec fn named_lines(names: Seq<Seq<u8>>, tle_lines: Seq<Seq<u8>>) -> Seq<Seq<u8>>
    decreases names.len(),
{
    if names.len() == 0 {
        seq![]
    } else {
        seq![names[0], tle_lines[0], tle_lines[1]] + named_lines(names.drop_first(), tle_lines.skip(2))
    }
}

/// `named_text` splits into `named_lines`, and these hold each name and each
/// TLE line where the triplets put them.
proof fn lemma_named_text_lines(names: Seq<Seq<u8>>, tle_lines: Seq<Seq<u8>>)
    requires
        tle_lines.len() == 2 * names.len(),
        forall|i: int| 0 <= i < names.len() ==> is_plain_line(#[trigger] names[i]),
        forall|i: int| 0 <= i < tle_lines.len() ==> is_plain_line(#[trigger] tle_lines[i]),
    ensures
        lines(named_text(names, tle_lines)) == named_lines(names, tle_lines),
        named_lines(names, tle_lines).len() == 3 * names.len(),
        forall|i: int| 0 <= i < names.len() ==> #[trigger] named_lines(names, tle_lines)[3 * i] == names[i],
        forall|i: int| 0 <= i < names.len() ==> #[trigger] same_tle_lines(named_lines(names, tle_lines), tle_lines, i),
    decreases names.len(),
{
    if names.len() == 0 {
        assert(lines(Seq::<u8>::empty()) =~= Seq::<Seq<u8>>::empty());
    } else {
        let names_rest = names.drop_first();
        let tle_rest = tle_lines.skip(2);
        assert forall|i: int| 0 <= i < names_rest.len() implies is_plain_line(#[trigger] names_rest[i]) by {
            assert(names_rest[i] == names[i + 1]);
        }
        assert forall|i: int| 0 <= i < tle_rest.len() implies is_plain_line(#[trigger] tle_rest[i]) by {
            assert(tle_rest[i] == tle_lines[i + 2]);
        }
        lemma_named_text_lines(names_rest, tle_rest);
        let rest = named_text(names_rest, tle_rest);
        let (name, line1, line2) = (names[0], tle_lines[0], tle_lines[1]);
        assert(is_plain_line(name) && is_plain_line(line1) && is_plain_line(line2));
        let after_line1 = line2 + seq![10u8] + rest;
        let after_name = line1 + seq![10u8] + after_line1;
        assert(named_text(names, tle_lines) =~= name + seq![10u8] + after_name);
        lemma_lines_cons(line2, rest);
        lemma_lines_cons(line1, after_line1);
        lemma_lines_cons(name, after_name);
        assert(strip_carriage_return(name) == name);
        assert(strip_carriage_return(line1) == line1);
        assert(strip_carriage_return(line2) == line2);
        let all = named_lines(names, tle_lines);
        let tail = named_lines(names_rest, tle_rest);
        assert(all =~= seq![name, line1, line2] + tail);
        assert(lines(named_text(names, tle_lines)) =~= all);
        assert forall|i: int| 0 <= i < names.len() implies #[trigger] all[3 * i] == names[i] by {
            if i > 0 {
                assert(all[3 * i] == tail[3 * (i - 1)]);
                assert(tail[3 * (i - 1)] == names_rest[i - 1]);
            }
        }
        assert forall|i: int| 0 <= i < names.len() implies #[trigger] same_tle_lines(all, tle_lines, i) by {
            if i > 0 {
                assert(same_tle_lines(tail, tle_rest, i - 1));
                assert(all[3 * i + 1] == tail[3 * (i - 1) + 1]);
                assert(all[3 * i + 2] == tail[3 * (i - 1) + 2]);
                assert(tle_rest[2 * (i - 1)] == tle_lines[2 * i]);
                assert(tle_rest[2 * (i - 1) + 1] == tle_lines[2 * i + 1]);
            }
        }
    }
}

/// A TL/3LE text made of names and TLE lines reads as a TL/2LE text of the
/// same TLE lines: both fail with the same message, or both give the same
/// elements but for the names, each TLE named by its name line.
pub proof fn lemma_named_text_is_unnamed_text(names: Seq<Seq<u8>>, tle_lines: Seq<Seq<u8>>, unnamed_text: Seq<u8>)
    requires
        tle_lines.len() == 2 * names.len(),
        forall|i: int| 0 <= i < names.len() ==> is_plain_line(#[trigger] names[i]),
        forall|i: int| 0 <= i < tle_lines.len() ==> is_plain_line(#[trigger] tle_lines[i]),
        lines(unnamed_text) == tle_lines,
    ensures
        three_line_model(named_text(names, tle_lines)) is Ok <==> two_line_model(unnamed_text) is Ok,
        two_line_model(unnamed_text) is Err ==> three_line_model(named_text(names, tle_lines)) == two_line_model(unnamed_text),
        two_line_model(unnamed_text) is Ok ==> {
            let named = three_line_model(named_text(names, tle_lines))->Ok_0;
            let unnamed = two_line_model(unnamed_text)->Ok_0;
            &&& named.len() == names.len()
            &&& unnamed.len() == names.len()
            &&& forall|i: int| 0 <= i < names.len() ==> #[trigger] named[i] == ElementsModel {
                object_name: Some(decode_utf8(names[i])),
                ..unnamed[i]
            }
        },
{
    lemma_named_text_lines(names, tle_lines);
    let all = named_lines(names, tle_lines);
    let n = names.len();
    assert(all.len() / 3 == n);
    assert(tle_lines.len() / 2 == n);
    lemma_named_list_is_unnamed_list(all, tle_lines, n);
    if two_line_model(unnamed_text) is Ok {
        let named = three_line_model(named_text(names, tle_lines))->Ok_0;
        assert forall|i: int| 0 <= i < n implies #[trigger] named[i] == ElementsModel {
            object_name: Some(decode_utf8(names[i])),
            ..two_line_model(unnamed_text)->Ok_0[i]
        } by {
            assert(all[3 * i] == names[i]);
        }
    }
}

/// The TLE that pair `i` of `lines` makes, read as `Elements::from_tle` reads it.
pub open spec fn pair_tle(lines: Seq<Seq<u8>>, i: int) -> Result<ElementsModel, Seq<char>> {
    tle_model(None, lines[2 * i], lines[2 * i + 1])
}

/// The TLE that triplet `i` of `lines` makes, named by its first line.
pub open spec fn triplet_tle(lines: Seq<Seq<u8>>, i: int) -> Result<ElementsModel, Seq<char>> {
    tle_model(Some(decode_utf8(lines[3 * i])), lines[3 * i + 1], lines[3 * i + 2])
}

/// Each TLE of a list of pairs reads as `Elements::from_tle` reads its two
/// lines: the list is read in full exactly when every pair is, and then its
/// `i`-th element is the `i`-th pair's TLE; otherwise it fails with the
/// message of the first pair that fails.
pub proof fn lemma_pairs_read_as_from_tle(lines: Seq<Seq<u8>>, k: nat)
    ensures
        pairs_model(lines, k) is Ok <==> forall|i: int| 0 <= i < k ==> (#[trigger] pair_tle(lines, i)) is Ok,
        pairs_model(lines, k) is Ok ==> pairs_model(lines, k)->Ok_0.len() == k
            && forall|i: int| 0 <= i < k ==> #[trigger] pair_tle(lines, i) == Ok::<ElementsModel, Seq<char>>(pairs_model(lines, k)->Ok_0[i]),
        pairs_model(lines, k) is Err ==> exists|i: int| 0 <= i < k
            && (forall|j: int| 0 <= j < i ==> (#[trigger] pair_tle(lines, j)) is Ok)
            && #[trigger] pair_tle(lines, i) is Err && pairs_model(lines, k)->Err_0 == pair_tle(lines, i)->Err_0,
    decreases k,
{
    if k > 0 {
        let j = (k - 1) as nat;
        lemma_pairs_read_as_from_tle(lines, j);
        assert(pair_tle(lines, j as int) == tle_model(None, lines[2 * k - 2], lines[2 * k - 1]));
        if pairs_model(lines, k) is Ok {
            let all = pairs_model(lines, k)->Ok_0;
            let before = pairs_model(lines, j)->Ok_0;
            assert forall|i: int| 0 <= i < k implies #[trigger] pair_tle(lines, i) == Ok::<ElementsModel, Seq<char>>(all[i]) by {
                if i < j {
                    assert(all[i] == before[i]);
                }
            }
        }
        if pairs_model(lines, j) is Err {
            let i = choose|i: int| 0 <= i < j
                && (forall|m: int| 0 <= m < i ==> (#[trigger] pair_tle(lines, m)) is Ok)
                && #[trigger] pair_tle(lines, i) is Err && pairs_model(lines, j)->Err_0 == pair_tle(lines, i)->Err_0;
            assert(!(pair_tle(lines, i) is Ok));
        } else if pairs_model(lines, k) is Err {
            assert(pair_tle(lines, j as int) is Err);
        }
    }
}

/// Each TLE of a list of triplets reads as `Elements::from_tle` reads its
/// two lines under the name of its first line: the list is read in full
/// exactly when every triplet is, and then its `i`-th element is the `i`-th
/// triplet's TLE; otherwise it fails with the message of the first triplet
/// that fails.
pub proof fn lemma_triplets_read_as_from_tle(lines: Seq<Seq<u8>>, k: nat)
    ensures
        triplets_model(lines, k) is Ok <==> forall|i: int| 0 <= i < k ==> (#[trigger] triplet_tle(lines, i)) is Ok,
        triplets_model(lines, k) is Ok ==> triplets_model(lines, k)->Ok_0.len() == k
            && forall|i: int| 0 <= i < k ==> #[trigger] triplet_tle(lines, i) == Ok::<ElementsModel, Seq<char>>(triplets_model(lines, k)->Ok_0[i]),
        triplets_model(lines, k) is Err ==> exists|i: int| 0 <= i < k
            && (forall|j: int| 0 <= j < i ==> (#[trigger] triplet_tle(lines, j)) is Ok)
            && #[trigger] triplet_tle(lines, i) is Err && triplets_model(lines, k)->Err_0 == triplet_tle(lines, i)->Err_0,
    decreases k,
{
    if k > 0 {
        let j = (k - 1) as nat;
        lemma_triplets_read_as_from_tle(lines, j);
        assert(triplet_tle(lines, j as int) == tle_model(Some(decode_utf8(lines[3 * k - 3])), lines[3 * k - 2], lines[3 * k - 1]));
        if triplets_model(lines, k) is Ok {
            let all = triplets_model(lines, k)->Ok_0;
            let before = triplets_model(lines, j)->Ok_0;
            assert forall|i: int| 0 <= i < k implies #[trigger] triplet_tle(lines, i) == Ok::<ElementsModel, Seq<char>>(all[i]) by {
                if i < j {
                    assert(all[i] == before[i]);
                }
            }
        }
        if triplets_model(lines, j) is Err {
            let i = choose|i: int| 0 <= i < j
                && (forall|m: int| 0 <= m < i ==> (#[trigger] triplet_tle(lines, m)) is Ok)
                && #[trigger] triplet_tle(lines, i) is Err && triplets_model(lines, j)->Err_0 == triplet_tle(lines, i)->Err_0;
            assert(!(triplet_tle(lines, i) is Ok));
        } else if triplets_model(lines, k) is Err {
            assert(triplet_tle(lines, j as int) is Err);
        }
    }
}

/// Each TLE of a TL/2LE text reads as `Elements::from_tle` reads its pair of
/// lines, and each TLE of a TL/3LE text as it reads the two lines after a
/// name line, under that name.
pub proof fn lemma_texts_read_as_from_tle(text: Seq<u8>)
    ensures
        two_line_model(text) is Ok ==> two_line_model(text)->Ok_0.len() == lines(text).len() / 2
            && forall|i: int| 0 <= i < lines(text).len() / 2 ==> #[trigger] pair_tle(lines(text), i) == Ok::<ElementsModel, Seq<char>>(two_line_model(text)->Ok_0[i]),
        three_line_model(text) is Ok ==> three_line_model(text)->Ok_0.len() == lines(text).len() / 3
            && forall|i: int| 0 <= i < lines(text).len() / 3 ==> #[trigger] triplet_tle(lines(text), i) == Ok::<ElementsModel, Seq<char>>(three_line_model(text)->Ok_0[i]),
{
    lemma_pairs_read_as_from_tle(lines(text), (lines(text).len() / 2) as nat);
    lemma_triplets_read_as_from_tle(lines(text), (lines(text).len() / 3) as nat);
}

} // verus!
