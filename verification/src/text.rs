//! UTF-16-aware mapping between byte offsets and editor positions.
//!
//! An editor position is a 0-based line and a 0-based **UTF-16** column within
//! it; syntax nodes and string slices count **bytes**. `LineIndex` is the single
//! place that converts between the two.

use vstd::prelude::*;
use vstd::string::*;
use vstd::utf8::encode_utf8;

use crate::strings::{
    at_char, byte_len, byte_slice, lemma_byte_len_add, lemma_byte_len_take, lemma_encode_len,
    lemma_slice_take, lemma_unit_len_add, lemma_unit_len_bound, slice_bytes, str_len, unit_len,
    utf16_len, utf8_len,
};

verus! {

/// Byte offsets at which the lines of `t` start; the first line starts at 0.
pub open spec fn line_starts(t: Seq<char>) -> Seq<int>
    decreases t.len(),
{
    if t.len() == 0 {
        seq![0]
    } else {
        let before = line_starts(t.drop_last());
        if t.last() == '\n' {
            before.push(byte_len(t) as int)
        } else {
            before
        }
    }
}

/// The end of line `line`: the offset of its line break, or the end of the text
/// for the last line.
pub open spec fn line_end(t: Seq<char>, line: int) -> int {
    if line + 1 < line_starts(t).len() {
        line_starts(t)[line + 1] - 1
    } else {
        byte_len(t) as int
    }
}

/// The characters of line `line`, its line break left out.
pub open spec fn line_text(t: Seq<char>, line: int) -> Seq<char> {
    slice_bytes(t, line_starts(t)[line], line_end(t, line))
}

/// The first index from `k` on before which `l` has at least `units` UTF-16
/// units, or the length of `l`.
pub open spec fn chars_to_units(l: Seq<char>, units: int, k: int) -> int
    decreases l.len() - k,
{
    if k >= l.len() || unit_len(l.take(k)) >= units {
        k
    } else {
        chars_to_units(l, units, k + 1)
    }
}

/// The first index from `k` on before which `l` has at least `bytes` bytes, or
/// the length of `l`.
pub open spec fn chars_to_bytes(l: Seq<char>, bytes: int, k: int) -> int
    decreases l.len() - k,
{
    if k >= l.len() || byte_len(l.take(k)) >= bytes {
        k
    } else {
        chars_to_bytes(l, bytes, k + 1)
    }
}

/// The byte offset of an editor position. A line past the last one gives the
/// end of the text, a column past its line the end of that line.
pub open spec fn offset_of(t: Seq<char>, line: int, character: int) -> int {
    if line >= line_starts(t).len() {
        byte_len(t) as int
    } else {
        let l = line_text(t, line);
        line_starts(t)[line] + byte_len(l.take(chars_to_units(l, character, 0)))
    }
}

/// The last of the rows up to `row` that starts at or before `byte`.
pub open spec fn row_from(starts: Seq<int>, byte: int, row: int) -> int
    decreases row,
{
    if row <= 0 {
        0
    } else if starts[row] <= byte {
        row
    } else {
        row_from(starts, byte, row - 1)
    }
}

/// The row that holds the offset `byte`.
pub open spec fn row_of(starts: Seq<int>, byte: int) -> int {
    row_from(starts, byte, starts.len() - 1)
}

pub open spec fn clamp(byte: int, len: int) -> int {
    if byte < len {
        byte
    } else {
        len
    }
}

/// The editor position of a byte offset: its row, and the UTF-16 units of the
/// characters that start on that row before the offset. An offset past the end
/// counts as the end.
pub open spec fn position_of(t: Seq<char>, offset: int) -> (int, int) {
    let byte = clamp(offset, byte_len(t) as int);
    let row = row_of(line_starts(t), byte);
    let start = line_starts(t)[row];
    let tail = slice_bytes(t, start, byte_len(t) as int);
    (row, unit_len(tail.take(chars_to_bytes(tail, byte - start, 0))) as int)
}

/// Starts of rows: 0 first, then ever greater.
pub open spec fn proper_starts(starts: Seq<int>) -> bool {
    &&& starts.len() > 0
    &&& starts[0] == 0
    &&& forall|i: int, j: int| 0 <= i < j < starts.len() ==> starts[i] < starts[j]
}

pub proof fn lemma_line_starts(t: Seq<char>)
    ensures
        proper_starts(line_starts(t)),
        forall|r: int|
            #![trigger line_starts(t)[r]]
            0 <= r < line_starts(t).len() ==> 0 <= line_starts(t)[r] <= byte_len(t) && at_char(
                t,
                line_starts(t)[r],
            ),
        line_starts(t).len() <= byte_len(t) + 1,
    decreases t.len(),
{
    assert(t.take(t.len() as int) =~= t);
    if t.len() == 0 {
        assert(t.take(0) =~= t);
        assert(byte_len(t.take(0)) == 0);
    } else {
        let p = t.drop_last();
        lemma_line_starts(p);
        let before = line_starts(p);
        assert forall|r: int|
            #![trigger line_starts(t)[r]]
            0 <= r < line_starts(t).len() implies 0 <= line_starts(t)[r] <= byte_len(t) && at_char(
            t,
            line_starts(t)[r],
        ) by {
            if r < before.len() {
                assert(at_char(p, before[r]));
                let k = choose|k: int| 0 <= k <= p.len() && before[r] == #[trigger] byte_len(
                    p.take(k),
                );
                assert(t.take(k) =~= p.take(k));
                assert(before[r] == byte_len(t.take(k)));
            } else {
                assert(line_starts(t)[r] == byte_len(t.take(t.len() as int)));
            }
        }
        assert forall|i: int, j: int| 0 <= i < j < line_starts(t).len() implies line_starts(t)[i]
            < line_starts(t)[j] by {
            assert(before[i] <= byte_len(p));
        }
    }
}

/// Every line but the first starts after a line break.
proof fn lemma_break_before(t: Seq<char>, row: int) -> (k: int)
    requires
        0 < row < line_starts(t).len(),
    ensures
        0 <= k < t.len(),
        t[k] == '\n',
        byte_len(t.take(k)) == line_starts(t)[row] - 1,
        byte_len(t.take(k + 1)) == line_starts(t)[row],
    decreases t.len(),
{
    let p = t.drop_last();
    if row < line_starts(p).len() {
        let k = lemma_break_before(p, row);
        assert(t.take(k) =~= p.take(k));
        assert(t.take(k + 1) =~= p.take(k + 1));
        k
    } else {
        let k = t.len() - 1;
        assert(t.take(k) =~= p);
        assert(t.take(k + 1) =~= t);
        k
    }
}

pub proof fn lemma_row(starts: Seq<int>, byte: int, row: int)
    requires
        proper_starts(starts),
        0 <= byte,
        0 <= row < starts.len(),
        row + 1 < starts.len() ==> byte < starts[row + 1],
    ensures
        0 <= row_from(starts, byte, row) <= row,
        starts[row_from(starts, byte, row)] <= byte,
        row_from(starts, byte, row) + 1 < starts.len() ==> byte < starts[row_from(starts, byte, row)
            + 1],
    decreases row,
{
    if row > 0 && starts[row] > byte {
        lemma_row(starts, byte, row - 1);
    }
}

/// The row of an offset is the only one that starts at or before it while the
/// next one starts after it.
pub proof fn lemma_row_unique(starts: Seq<int>, byte: int, row: int)
    requires
        proper_starts(starts),
        0 <= row < starts.len(),
        starts[row] <= byte,
        row + 1 < starts.len() ==> byte < starts[row + 1],
    ensures
        row_of(starts, byte) == row,
{
    lemma_row(starts, byte, starts.len() - 1);
    let r = row_of(starts, byte);
    if r < row {
        assert(starts[r + 1] <= starts[row]);
    } else if row < r {
        assert(starts[row + 1] <= starts[r]);
    }
}

pub proof fn lemma_chars_to_units(l: Seq<char>, units: int, k: int)
    requires
        0 <= k <= l.len(),
        forall|i: int| 0 <= i < k ==> unit_len(#[trigger] l.take(i)) < units,
    ensures
        k <= chars_to_units(l, units, k) <= l.len(),
        chars_to_units(l, units, k) < l.len() ==> unit_len(l.take(chars_to_units(l, units, k)))
            >= units,
        forall|i: int|
            0 <= i < chars_to_units(l, units, k) ==> unit_len(#[trigger] l.take(i)) < units,
    decreases l.len() - k,
{
    if k < l.len() && unit_len(l.take(k)) < units {
        lemma_chars_to_units(l, units, k + 1);
    }
}

pub proof fn lemma_chars_to_bytes(l: Seq<char>, bytes: int, k: int)
    requires
        0 <= k <= l.len(),
        forall|i: int| 0 <= i < k ==> byte_len(#[trigger] l.take(i)) < bytes,
    ensures
        k <= chars_to_bytes(l, bytes, k) <= l.len(),
        chars_to_bytes(l, bytes, k) < l.len() ==> byte_len(l.take(chars_to_bytes(l, bytes, k)))
            >= bytes,
        forall|i: int|
            0 <= i < chars_to_bytes(l, bytes, k) ==> byte_len(#[trigger] l.take(i)) < bytes,
    decreases l.len() - k,
{
    if k < l.len() && byte_len(l.take(k)) < bytes {
        lemma_chars_to_bytes(l, bytes, k + 1);
    }
}

/// The ends of a line, as indices of characters.
proof fn lemma_line_chars(t: Seq<char>, line: int) -> (ends: (int, int))
    requires
        0 <= line < line_starts(t).len(),
    ensures
        0 <= ends.0 <= ends.1 <= t.len(),
        line_starts(t)[line] == byte_len(t.take(ends.0)),
        line_end(t, line) == byte_len(t.take(ends.1)),
        line_text(t, line) == t.subrange(ends.0, ends.1),
        slice_bytes(t, line_starts(t)[line], byte_len(t) as int) == t.subrange(
            ends.0,
            t.len() as int,
        ),
{
    lemma_line_starts(t);
    let starts = line_starts(t);
    assert(t.take(t.len() as int) =~= t);
    assert(at_char(t, starts[line]));
    let a = choose|k: int| 0 <= k <= t.len() && starts[line] == #[trigger] byte_len(t.take(k));
    let b = if line + 1 < starts.len() {
        lemma_break_before(t, line + 1)
    } else {
        t.len() as int
    };
    if b < a {
        lemma_byte_len_take(t, b, a);
    }
    lemma_slice_take(t, a, b);
    lemma_slice_take(t, a, t.len() as int);
    (a, b)
}

/// Every position gives the offset of a character.
pub proof fn lemma_offset_at_char(t: Seq<char>, line: int, character: int)
    requires
        0 <= line,
    ensures
        at_char(t, offset_of(t, line, character)),
        0 <= offset_of(t, line, character) <= byte_len(t),
        line < line_starts(t).len() ==> line_starts(t)[line] <= offset_of(t, line, character)
            <= line_end(t, line),
{
    lemma_line_starts(t);
    assert(t.take(t.len() as int) =~= t);
    if line >= line_starts(t).len() {
        assert(byte_len(t) == byte_len(t.take(t.len() as int)));
    } else {
        let (a, b) = lemma_line_chars(t, line);
        let l = line_text(t, line);
        lemma_chars_to_units(l, character, 0);
        let k = chars_to_units(l, character, 0);
        assert(l.take(k) =~= t.subrange(a, a + k));
        lemma_byte_len_take(t, a, a + k);
        lemma_byte_len_take(t, a + k, b);
        lemma_byte_len_take(t, b, t.len() as int);
        assert(offset_of(t, line, character) == byte_len(t.take(a + k)));
    }
}

// ---------------------------------------------------------------------------
// Laws
// ---------------------------------------------------------------------------

/// The position of a character's offset leads back to that offset.
pub proof fn law_offset_of_position(t: Seq<char>, offset: int)
    requires
        at_char(t, offset),
    ensures
        offset_of(t, position_of(t, offset).0, position_of(t, offset).1) == offset,
{
    lemma_line_starts(t);
    assert(t.take(t.len() as int) =~= t);
    let k = choose|k: int| 0 <= k <= t.len() && offset == #[trigger] byte_len(t.take(k));
    lemma_byte_len_take(t, k, t.len() as int);
    let starts = line_starts(t);
    lemma_row(starts, offset, starts.len() - 1);
    let row = row_of(starts, offset);
    let (a, b) = lemma_line_chars(t, row);
    if k < a {
        lemma_byte_len_take(t, k, a);
    }
    if b < k {
        lemma_byte_len_take(t, b, k);
    }
    let tail = t.subrange(a, t.len() as int);
    lemma_chars_to_bytes(tail, offset - starts[row], 0);
    let c = chars_to_bytes(tail, offset - starts[row], 0);
    assert(tail.take(c) =~= t.subrange(a, a + c));
    assert(tail.take(k - a) =~= t.subrange(a, k));
    lemma_byte_len_take(t, a, a + c);
    lemma_byte_len_take(t, a, k);
    if c < k - a {
        lemma_byte_len_take(t, a + c, k);
    } else if k - a < c {
        assert(byte_len(tail.take(k - a)) < offset - starts[row]);
    }
    let l = line_text(t, row);
    let units = unit_len(tail.take(c)) as int;
    lemma_chars_to_units(l, units, 0);
    let d = chars_to_units(l, units, 0);
    assert(l.take(d) =~= t.subrange(a, a + d));
    assert(l.take(k - a) =~= t.subrange(a, k));
    lemma_byte_len_take(t, a, a + d);
    if d < k - a {
        lemma_byte_len_take(t, a + d, k);
    } else if k - a < d {
        assert(unit_len(l.take(k - a)) < units);
    }
}

/// The row of an offset is less than one past its byte, and so is its column.
pub proof fn lemma_position_bound(t: Seq<char>, offset: int)
    requires
        0 <= offset,
    ensures
        0 <= position_of(t, offset).0 <= byte_len(t),
        0 <= position_of(t, offset).1 <= byte_len(t),
{
    lemma_line_starts(t);
    let starts = line_starts(t);
    let byte = clamp(offset, byte_len(t) as int);
    lemma_row(starts, byte, starts.len() - 1);
    let row = row_of(starts, byte);
    let (a, b) = lemma_line_chars(t, row);
    let tail = t.subrange(a, t.len() as int);
    lemma_chars_to_bytes(tail, byte - starts[row], 0);
    let c = chars_to_bytes(tail, byte - starts[row], 0);
    assert(tail.take(c) =~= t.subrange(a, a + c));
    assert(t.take(t.len() as int) =~= t);
    lemma_byte_len_take(t, a, a + c);
    lemma_byte_len_take(t, a + c, t.len() as int);
    lemma_unit_len_bound(tail.take(c));
}

/// A position that lies on a character of its line, or at the end of the line, is
/// the position of its own offset.
pub proof fn law_position_of_offset(t: Seq<char>, line: int, k: int)
    requires
        0 <= line < line_starts(t).len(),
        0 <= k <= line_text(t, line).len(),
    ensures
        ({
            let character = unit_len(line_text(t, line).take(k)) as int;
            position_of(t, offset_of(t, line, character)) == (line, character)
        }),
{
    lemma_line_starts(t);
    assert(t.take(t.len() as int) =~= t);
    let l = line_text(t, line);
    let starts = line_starts(t);
    let units = unit_len(l.take(k)) as int;
    let (a, b) = lemma_line_chars(t, line);
    lemma_chars_to_units(l, units, 0);
    let d = chars_to_units(l, units, 0);
    assert(l.take(d) =~= t.subrange(a, a + d));
    assert(l.take(k) =~= t.subrange(a, a + k));
    lemma_byte_len_take(t, a, a + d);
    lemma_byte_len_take(t, a, a + k);
    if d < k {
        lemma_byte_len_take(t, a + d, a + k);
    } else if k < d {
        assert(unit_len(l.take(k)) < units);
    }
    let offset = offset_of(t, line, units);
    assert(offset == byte_len(t.take(a + k)));
    lemma_byte_len_take(t, a + k, b);
    lemma_byte_len_take(t, b, t.len() as int);
    lemma_row_unique(starts, offset, line);
    let tail = t.subrange(a, t.len() as int);
    lemma_chars_to_bytes(tail, offset - starts[line], 0);
    let c = chars_to_bytes(tail, offset - starts[line], 0);
    assert(tail.take(c) =~= t.subrange(a, a + c));
    assert(tail.take(k) =~= t.subrange(a, a + k));
    lemma_byte_len_take(t, a, a + c);
    if c < k {
        lemma_byte_len_take(t, a + c, a + k);
    } else if k < c {
        assert(byte_len(tail.take(k)) < offset - starts[line]);
    }
}

/// A position on one of the lines of the text has an offset on that line, however
/// great its column is.
pub proof fn law_offset_stays_on_its_line(t: Seq<char>, line: int, character: int)
    requires
        0 <= line < line_starts(t).len(),
    ensures
        position_of(t, offset_of(t, line, character)).0 == line,
{
    lemma_line_starts(t);
    lemma_offset_at_char(t, line, character);
    lemma_row_unique(line_starts(t), offset_of(t, line, character), line);
}

/// Every column past the end of a line has the offset of that end.
pub proof fn law_column_clamps(t: Seq<char>, line: int, character: int)
    requires
        0 <= line < line_starts(t).len(),
        character >= unit_len(line_text(t, line)),
    ensures
        offset_of(t, line, character) == line_end(t, line),
{
    let (a, b) = lemma_line_chars(t, line);
    let l = line_text(t, line);
    lemma_chars_to_units(l, character, 0);
    let k = chars_to_units(l, character, 0);
    assert(l.take(l.len() as int) =~= l);
    lemma_byte_len_take(t, a, b);
    if k < l.len() {
        lemma_byte_len_take(l, k, l.len() as int);
    }
}

/// Every offset past the end of the text has the position of that end.
pub proof fn law_position_clamps(t: Seq<char>, offset: int)
    requires
        offset >= byte_len(t),
    ensures
        position_of(t, offset) == position_of(t, byte_len(t) as int),
{
}

/// The start of the text is the start of its first line.
pub proof fn law_position_of_start(t: Seq<char>)
    ensures
        position_of(t, 0) == (0int, 0int),
        offset_of(t, 0, 0) == 0,
{
    lemma_line_starts(t);
    let starts = line_starts(t);
    lemma_row_unique(starts, 0, 0);
    let (a, b) = lemma_line_chars(t, 0);
    let tail = t.subrange(a, t.len() as int);
    assert(tail.take(0) =~= Seq::<char>::empty());
    let l = line_text(t, 0);
    assert(l.take(0) =~= Seq::<char>::empty());
}

/// A later position never has an earlier offset.
pub proof fn law_offset_monotone(t: Seq<char>, line1: int, char1: int, line2: int, char2: int)
    requires
        0 <= line1,
        line1 < line2 || (line1 == line2 && char1 <= char2),
    ensures
        offset_of(t, line1, char1) <= offset_of(t, line2, char2),
{
    lemma_line_starts(t);
    lemma_offset_at_char(t, line1, char1);
    lemma_offset_at_char(t, line2, char2);
    let starts = line_starts(t);
    if line2 < starts.len() {
        if line1 < line2 {
            assert(starts[line1] < starts[line1 + 1] <= starts[line2]);
        } else {
            let (a, b) = lemma_line_chars(t, line1);
            let l = line_text(t, line1);
            lemma_chars_to_units(l, char1, 0);
            lemma_chars_to_units(l, char2, 0);
            let x = chars_to_units(l, char1, 0);
            let y = chars_to_units(l, char2, 0);
            if y < x {
                assert(unit_len(l.take(y)) < char1);
            }
            lemma_byte_len_take(l, x, y);
        }
    }
}

proof fn lemma_starts_of_parts(t: Seq<char>, l: Seq<char>)
    requires
        !l.contains('\n'),
    ensures
        line_starts(t + l) == line_starts(t),
    decreases l.len(),
{
    if l.len() == 0 {
        assert(t + l =~= t);
    } else {
        let init = l.drop_last();
        assert(!init.contains('\n')) by {
            if init.contains('\n') {
                let k = choose|k: int| 0 <= k < init.len() && init[k] == '\n';
                assert(l[k] == '\n');
            }
        }
        lemma_starts_of_parts(t, init);
        assert(l[l.len() - 1] != '\n');
        assert((t + l).drop_last() =~= t + init);
        assert((t + l).last() == l.last());
    }
}

proof fn lemma_starts_extend(t: Seq<char>, more: Seq<char>)
    ensures
        line_starts(t).len() <= line_starts(t + more).len(),
        line_starts(t + more).take(line_starts(t).len() as int) == line_starts(t),
        forall|r: int|
            line_starts(t).len() <= r < line_starts(t + more).len() ==> #[trigger] line_starts(
                t + more,
            )[r] > byte_len(t),
    decreases more.len(),
{
    if more.len() == 0 {
        assert(t + more =~= t);
        assert(line_starts(t).take(line_starts(t).len() as int) =~= line_starts(t));
    } else {
        let init = more.drop_last();
        lemma_starts_extend(t, init);
        assert((t + more).drop_last() =~= t + init);
        assert((t + more).last() == more.last());
        lemma_byte_len_add(t, more);
        assert(byte_len(more) >= 1);
        assert(line_starts(t + more).take(line_starts(t).len() as int) =~= line_starts(t));
    }
}

/// The number of line breaks in a text.
pub open spec fn breaks(t: Seq<char>) -> int {
    t.filter(|c: char| c == '\n').len() as int
}

proof fn lemma_breaks(t: Seq<char>)
    ensures
        line_starts(t).len() == breaks(t) + 1,
        t.len() > 0 && t.last() == '\n' ==> line_starts(t).last() == byte_len(t),
    decreases t.len(),
{
    reveal(Seq::filter);
    if t.len() > 0 {
        lemma_breaks(t.drop_last());
    }
}

/// A position counts: its line is the number of line breaks before it, its column the
/// UTF-16 units between the last of them and it.
pub proof fn law_position_counts(before: Seq<char>, l: Seq<char>, behind: Seq<char>)
    requires
        before.len() > 0 ==> before.last() == '\n',
        !l.contains('\n'),
    ensures
        position_of(before + l + behind, byte_len(before + l) as int) == (
            breaks(before),
            unit_len(l) as int,
        ),
{
    let t = before + l + behind;
    let a = before.len() as int;
    let k = a + l.len();
    let n = t.len() as int;
    let starts = line_starts(t);
    assert(t.take(a) =~= before);
    assert(t.take(k) =~= before + l);
    assert(t.take(n) =~= t);
    lemma_byte_len_take(t, a, k);
    lemma_byte_len_take(t, k, n);
    lemma_line_starts(t);
    lemma_breaks(before);
    lemma_starts_of_parts(before, l);
    lemma_starts_extend(before + l, behind);
    let row = breaks(before);
    assert(starts[row] == starts.take(row + 1)[row]);
    assert(starts[row] == line_starts(before)[row]);
    if a == 0 {
        assert(before =~= Seq::<char>::empty());
    }
    assert(starts[row] == byte_len(before));
    let byte = byte_len(before + l) as int;
    lemma_row_unique(starts, byte, row);
    assert(row_of(starts, byte) == row);
    lemma_slice_take(t, a, n);
    let tail = t.subrange(a, n);
    assert(slice_bytes(t, starts[row], byte_len(t) as int) == tail);
    lemma_chars_to_bytes(tail, byte - starts[row], 0);
    let c = chars_to_bytes(tail, byte - starts[row], 0);
    assert(tail.take(l.len() as int) =~= l);
    assert(t.subrange(a, k) =~= l);
    if c < l.len() {
        lemma_byte_len_take(tail, c, l.len() as int);
    } else if c > l.len() {
        assert(byte_len(tail.take(l.len() as int)) < byte - starts[row]);
    }
}

/// The row of an offset starts behind the last line break before it.
pub proof fn law_row_starts_behind_the_break(before: Seq<char>, l: Seq<char>, behind: Seq<char>)
    requires
        before.len() > 0 ==> before.last() == '\n',
        !l.contains('\n'),
    ensures
        ({
            let starts = line_starts(before + l + behind);
            let row = row_of(starts, byte_len(before + l) as int);
            row == breaks(before) && starts[row] == byte_len(before)
        }),
{
    let t = before + l + behind;
    let starts = line_starts(t);
    assert(t.take((before + l).len() as int) =~= before + l);
    assert(t.take(t.len() as int) =~= t);
    lemma_byte_len_take(t, (before + l).len() as int, t.len() as int);
    law_position_counts(before, l, behind);
    lemma_breaks(before);
    lemma_starts_of_parts(before, l);
    lemma_starts_extend(before + l, behind);
    let row = breaks(before);
    assert(starts[row] == starts.take(row + 1)[row]);
    if before.len() == 0 {
        assert(before =~= Seq::<char>::empty());
    }
}

/// A position that lies on the line holds the offset of its characters: that many
/// UTF-16 units behind the line's start.
pub proof fn law_offset_counts(before: Seq<char>, l: Seq<char>, behind: Seq<char>)
    requires
        before.len() > 0 ==> before.last() == '\n',
        !l.contains('\n'),
    ensures
        offset_of(before + l + behind, breaks(before), unit_len(l) as int) == byte_len(before + l),
{
    let t = before + l + behind;
    let k = (before + l).len() as int;
    law_position_counts(before, l, behind);
    assert(t.take(k) =~= before + l);
    assert(byte_len(before + l) == byte_len(t.take(k)));
    law_offset_of_position(t, byte_len(before + l) as int);
}

/// A character counts one UTF-16 unit up to U+FFFF and two beyond, and as many bytes as
/// its UTF-8 encoding has; texts one after the other count together.
pub proof fn law_lengths_count_the_encodings(a: Seq<char>, b: Seq<char>, c: char)
    ensures
        unit_len(seq![c]) == if c as u32 <= 0xffff {
            1nat
        } else {
            2nat
        },
        unit_len(a + b) == unit_len(a) + unit_len(b),
        byte_len(a) == encode_utf8(a).len(),
{
    lemma_unit_len_add(a, b);
    lemma_encode_len(a);
    assert(seq![c].drop_last() =~= Seq::<char>::empty());
    reveal_with_fuel(unit_len, 2);
}

// ---------------------------------------------------------------------------
// The index
// ---------------------------------------------------------------------------

/// Precomputed line-start byte offsets for a source string.
pub struct LineIndex {
    /// Byte offset of the start of each line (index 0 is always 0).
    line_starts: Vec<usize>,
    len: usize,
}

impl LineIndex {
    /// The starts that the index holds.
    pub closed spec fn starts(&self) -> Seq<int> {
        self.line_starts@.map_values(|b: usize| b as int)
    }

    /// The length of the text that the index was made for.
    pub closed spec fn size(&self) -> int {
        self.len as int
    }

    /// The starts are in order and lie within the text.
    pub open spec fn wf(&self) -> bool {
        &&& proper_starts(self.starts())
        &&& forall|r: int| 0 <= r < self.starts().len() ==> #[trigger] self.starts()[r]
            <= self.size()
    }

    /// The index is that of the text `t`.
    pub open spec fn indexes(&self, t: Seq<char>) -> bool {
        &&& self.starts() == line_starts(t)
        &&& self.size() == byte_len(t)
    }

    /// The index of a text.
    pub fn new(text: &str) -> (r: Self)
        ensures
            r.indexes(text@),
            r.wf(),
    {
        let mut line_starts: Vec<usize> = Vec::new();
        line_starts.push(0);
        let len: usize = str_len(text);
        let mut byte: usize = 0;
        let ghost mut k: int = 0;
        proof {
            assert(text@.take(0) =~= Seq::<char>::empty());
            assert(line_starts@.map_values(|b: usize| b as int) =~= seq![0int]);
            assert(text@.take(text@.len() as int) =~= text@);
        }
        for c in it: text.chars()
            invariant
                it.seq() == text@,
                len == byte_len(text@),
                k == it.index(),
                byte == byte_len(text@.take(k)),
                line_starts@.map_values(|b: usize| b as int) == self::line_starts(text@.take(k)),
        {
            let ghost t1 = text@.take(k + 1);
            proof {
                assert(t1.drop_last() =~= text@.take(k));
                lemma_byte_len_take(text@, k + 1, text@.len() as int);
                assert(text@.take(text@.len() as int) =~= text@);
            }
            byte = byte + utf8_len(c);
            if c == '\n' {
                let ghost before = line_starts@;
                line_starts.push(byte);
                proof {
                    assert(line_starts@.map_values(|b: usize| b as int) =~= before.map_values(
                        |b: usize| b as int,
                    ).push(byte as int));
                }
            }
            proof {
                k = k + 1;
            }
        }
        proof {
            lemma_line_starts(text@);
        }
        let r = Self { line_starts, len };
        proof {
            assert(r.starts() == self::line_starts(text@));
        }
        r
    }

    /// LSP position (0-based line, 0-based UTF-16 character) -> byte offset into
    /// `text`. Out-of-range lines clamp to end-of-text; an out-of-range column
    /// clamps to end-of-line.
    pub fn offset_at(&self, text: &str, line: u32, character_utf16: u32) -> (r: usize)
        requires
            self.indexes(text@),
            byte_len(text@) <= u32::MAX,
        ensures
            r == offset_of(text@, line as int, character_utf16 as int),
            at_char(text@, r as int),
            r <= byte_len(text@),
    {
        proof {
            lemma_line_starts(text@);
            lemma_offset_at_char(text@, line as int, character_utf16 as int);
        }
        let row: usize = line as usize;
        if row >= self.line_starts.len() {
            return self.len;
        }
        let start: usize = self.line_starts[row];
        let end: usize = if row + 1 < self.line_starts.len() {
            proof {
                assert(self.starts()[row + 1] == self.line_starts@[row + 1]);
                assert(line_starts(text@)[0] < line_starts(text@)[row + 1]);
            }
            self.line_starts[row + 1] - 1
        } else {
            self.len
        };
        let ghost t = text@;
        let ghost l = line_text(t, row as int);
        proof {
            assert(start == line_starts(t)[row as int]);
            assert(end == line_end(t, row as int));
            let (a, b) = lemma_line_chars(t, row as int);
            assert(at_char(t, start as int));
            assert(at_char(t, end as int));
            lemma_byte_len_take(t, a, b);
            lemma_byte_len_take(t, b, t.len() as int);
            assert(t.take(t.len() as int) =~= t);
            lemma_unit_len_bound(l);
            assert(l.take(0) =~= Seq::<char>::empty());
            assert(l.take(l.len() as int) =~= l);
        }
        let part = byte_slice(text, start, end);
        let mut units: u32 = 0;
        let mut byte: usize = 0;
        let ghost mut k: int = 0;
        for c in it: part.chars()
            invariant
                it.seq() == l,
                k == it.index(),
                l == line_text(t, row as int),
                t == text@,
                row == line,
                row < line_starts(t).len(),
                start == line_starts(t)[row as int],
                start + byte_len(l) <= byte_len(t) <= u32::MAX,
                unit_len(l) <= byte_len(l),
                byte == byte_len(l.take(k)),
                units == unit_len(l.take(k)),
                chars_to_units(l, character_utf16 as int, 0) == chars_to_units(
                    l,
                    character_utf16 as int,
                    k,
                ),
                at_char(t, offset_of(t, line as int, character_utf16 as int)),
                offset_of(t, line as int, character_utf16 as int) <= byte_len(t),
        {
            if units >= character_utf16 {
                return start + byte;
            }
            proof {
                assert(l.take(k + 1).drop_last() =~= l.take(k));
                lemma_byte_len_take(l, k + 1, l.len() as int);
                assert(l.take(l.len() as int) =~= l);
            }
            units = units + utf16_len(c);
            byte = byte + utf8_len(c);
            proof {
                k = k + 1;
            }
        }
        end
    }

    /// The last row that starts at or before `byte`.
    fn row_at(&self, byte: usize) -> (row: usize)
        requires
            self.wf(),
        ensures
            row == row_of(self.starts(), byte as int),
            row < self.starts().len(),
            self.line_starts@[row as int] <= byte,
            self.starts()[row as int] == self.line_starts@[row as int],
    {
        let mut lo: usize = 0;
        let mut hi: usize = self.line_starts.len();
        proof {
            assert(self.starts()[0] == self.line_starts@[0]);
        }
        while hi - lo > 1
            invariant
                self.wf(),
                lo < hi <= self.line_starts@.len(),
                self.starts()[lo as int] <= byte,
                hi < self.line_starts@.len() ==> byte < self.starts()[hi as int],
            decreases hi - lo,
        {
            let mid: usize = lo + (hi - lo) / 2;
            proof {
                assert(self.starts()[mid as int] == self.line_starts@[mid as int]);
            }
            if self.line_starts[mid] <= byte {
                lo = mid;
            } else {
                hi = mid;
            }
        }
        proof {
            lemma_row_unique(self.starts(), byte as int, lo as int);
            assert(self.starts()[lo as int] == self.line_starts@[lo as int]);
        }
        lo
    }

    /// Byte offset -> LSP position (0-based line, 0-based UTF-16 character).
    pub fn position_at(&self, text: &str, offset: usize) -> (r: (u32, u32))
        requires
            self.indexes(text@),
            byte_len(text@) <= u32::MAX,
        ensures
            (r.0 as int, r.1 as int) == position_of(text@, offset as int),
    {
        let ghost t = text@;
        proof {
            lemma_line_starts(t);
        }
        let byte: usize = if offset < self.len {
            offset
        } else {
            self.len
        };
        let row: usize = self.row_at(byte);
        let start: usize = self.line_starts[row];
        let ghost tail = slice_bytes(t, start as int, byte_len(t) as int);
        proof {
            let (a, b) = lemma_line_chars(t, row as int);
            assert(t.take(t.len() as int) =~= t);
            assert(at_char(t, start as int));
            assert(byte_len(t) == byte_len(t.take(t.len() as int)));
            assert(at_char(t, byte_len(t) as int));
            lemma_byte_len_take(t, a, t.len() as int);
            lemma_unit_len_bound(tail);
            assert(tail.take(0) =~= Seq::<char>::empty());
            assert(tail.take(tail.len() as int) =~= tail);
        }
        let part = byte_slice(text, start, self.len);
        let mut units: u32 = 0;
        let mut at: usize = start;
        let ghost mut k: int = 0;
        let ghost full = chars_to_bytes(tail, byte - start, 0);
        for c in it: part.chars()
            invariant
                it.seq() == tail,
                k == it.index(),
                start <= byte,
                start + byte_len(tail) <= u32::MAX,
                unit_len(tail) <= byte_len(tail),
                at == start + byte_len(tail.take(k)),
                units == unit_len(tail.take(k)),
                full == chars_to_bytes(tail, byte - start, k),
                row == row_of(line_starts(t), byte as int),
                row < line_starts(t).len() <= byte_len(t) + 1,
                start == line_starts(t)[row as int],
                byte == clamp(offset as int, byte_len(t) as int),
                tail == slice_bytes(t, start as int, byte_len(t) as int),
                full == chars_to_bytes(tail, byte - start, 0),
                byte_len(t) <= u32::MAX,
                t == text@,
        {
            if at >= byte {
                return (row as u32, units);
            }
            proof {
                assert(tail.take(k + 1).drop_last() =~= tail.take(k));
                lemma_byte_len_take(tail, k + 1, tail.len() as int);
                assert(tail.take(tail.len() as int) =~= tail);
            }
            units = units + utf16_len(c);
            at = at + utf8_len(c);
            proof {
                k = k + 1;
            }
        }
        (row as u32, units)
    }

    /// Number of lines (>= 1).
    pub fn line_count(&self) -> (n: usize)
        ensures
            n == self.starts().len(),
            self.wf() ==> n >= 1,
    {
        self.line_starts.len()
    }

    /// Byte offset -> syntax point `(row, byte_column)`. Columns of points are
    /// **byte** offsets within the line, not UTF-16 units. An offset past the
    /// end counts as the end.
    pub fn byte_to_point(&self, byte: usize) -> (r: (usize, usize))
        requires
            self.wf(),
        ensures
            ({
                let b = clamp(byte as int, self.size());
                &&& r.0 == row_of(self.starts(), b)
                &&& r.1 == b - self.starts()[r.0 as int]
            }),
    {
        let b: usize = if byte < self.len {
            byte
        } else {
            self.len
        };
        let row: usize = self.row_at(b);
        (row, b - self.line_starts[row])
    }
}

}
