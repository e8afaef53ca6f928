//! Records: one line of the text each, `name;temperature` and a line
//! terminator.

use vstd::prelude::*;
use vstd::slice::slice_subrange;
use crate::readings::{bounded, Reading};
use crate::scan::{
    find,
    find_from,
    lemma_find_from,
    lemma_find_from_later,
    lemma_find_from_unique,
    NEWLINE,
    SEMICOLON,
};
use crate::temperature::{
    custom_parse_float,
    is_temperature,
    lemma_temperature_bound,
    lemma_temperature_prefix,
    literal_len,
    starts_with_temperature,
    temperature_tenths,
    MAX_TENTHS,
};

verus! {

/// Where the delimiter stands: the first one in the record.
pub open spec fn delimiter_index(record: Seq<u8>) -> int {
    find_from(record, SEMICOLON, 0)
}

/// The station's name: what stands before the delimiter.
pub open spec fn name_of(record: Seq<u8>) -> Seq<u8> {
    record.subrange(0, delimiter_index(record))
}

/// The temperature field: what stands between the delimiter and the record's
/// last byte.
pub open spec fn temperature_field(record: Seq<u8>) -> Seq<u8> {
    record.subrange(delimiter_index(record) + 1, record.len() - 1)
}

/// The record can be taken apart: it has a delimiter before its last byte, and
/// a temperature literal opens the field behind the delimiter.
pub open spec fn is_entry(record: Seq<u8>) -> bool {
    &&& delimiter_index(record) < record.len() - 1
    &&& starts_with_temperature(temperature_field(record))
}

/// What the record says.
pub open spec fn reading_of(record: Seq<u8>) -> Reading {
    Reading {
        name: name_of(record),
        tenths: temperature_tenths(temperature_field(record)),
    }
}

/// The record is one line of the grammar: a name, a delimiter, a temperature
/// literal and the line terminator, with no other terminator in it.
pub open spec fn is_record(record: Seq<u8>) -> bool {
    &&& record.len() > 0
    &&& find_from(record, NEWLINE, 0) == record.len() - 1
    &&& delimiter_index(record) < record.len() - 1
    &&& is_temperature(temperature_field(record))
}

/// Where the line that holds `from` ends: just behind the next terminator, or
/// at the end of the text where none follows.
pub open spec fn line_end(data: Seq<u8>, from: int) -> int {
    let at = find_from(data, NEWLINE, from);
    if at < data.len() {
        at + 1
    } else {
        data.len() as int
    }
}

/// The bytes from `at` to the end of its line.
pub open spec fn line_at(data: Seq<u8>, at: int) -> Seq<u8> {
    data.subrange(at, line_end(data, at))
}

/// A place where a line can begin: the start of the text, its end, or just
/// behind a terminator.
pub open spec fn is_cursor(data: Seq<u8>, at: int) -> bool {
    0 <= at <= data.len() && (at == 0 || at == data.len() || data[at - 1] == NEWLINE)
}

/// Every line of the text is a record of the grammar.
pub open spec fn well_formed(data: Seq<u8>) -> bool {
    forall|at: int| 0 <= at < data.len() && is_cursor(data, at) ==> is_record(#[trigger] line_at(data, at))
}

/// The readings of the lines that begin at `from` or later and before `to`.
pub open spec fn readings_between(data: Seq<u8>, from: int, to: int) -> Seq<Reading>
    decreases data.len() - from,
{
    if from < 0 || from >= to || from >= data.len() {
        Seq::empty()
    } else {
        proof {
            lemma_find_from(data, NEWLINE, from);
        }
        seq![reading_of(line_at(data, from))] + readings_between(data, line_end(data, from), to)
    }
}

/// The readings of all lines of the text.
pub open spec fn file_readings(data: Seq<u8>) -> Seq<Reading> {
    readings_between(data, 0, data.len() as int)
}

/// A line ends behind where it begins, within the text, and where the next
/// line can begin.
pub proof fn lemma_line_end(data: Seq<u8>, from: int)
    requires
        0 <= from <= data.len(),
    ensures
        from <= line_end(data, from) <= data.len(),
        from < data.len() ==> from < line_end(data, from),
        is_cursor(data, line_end(data, from)),
        forall|k: int| from <= k < line_end(data, from) - 1 ==> data[k] != NEWLINE,
{
    lemma_find_from(data, NEWLINE, from);
}

/// A line that begins later ends no earlier.
pub proof fn lemma_line_end_monotonic(data: Seq<u8>, a: int, b: int)
    requires
        0 <= a <= b <= data.len(),
    ensures
        line_end(data, a) <= line_end(data, b),
{
    lemma_find_from(data, NEWLINE, a);
    lemma_find_from(data, NEWLINE, b);
}

/// All places within one line share its end.
pub proof fn lemma_line_end_same(data: Seq<u8>, a: int, b: int)
    requires
        0 <= a <= b < line_end(data, a),
    ensures
        line_end(data, b) == line_end(data, a),
{
    lemma_find_from_later(data, NEWLINE, a, b);
}

/// A line ends no later than the next place where a line can begin.
pub proof fn lemma_line_end_before_cursor(data: Seq<u8>, from: int, cursor: int)
    requires
        0 <= from < cursor,
        is_cursor(data, cursor),
    ensures
        line_end(data, from) <= cursor,
{
    lemma_find_from(data, NEWLINE, from);
}

/// The readings up to `to` are those up to a place between, where a line can
/// begin, and those from there.
pub proof fn lemma_readings_split(data: Seq<u8>, from: int, mid: int, to: int)
    requires
        0 <= from <= mid <= to,
        is_cursor(data, mid),
    ensures
        readings_between(data, from, to) == readings_between(data, from, mid) + readings_between(
            data,
            mid,
            to,
        ),
    decreases mid - from,
{
    if from < mid {
        lemma_line_end(data, from);
        lemma_readings_split(data, line_end(data, from), mid, to);
    }
}

/// One line holds one reading.
pub proof fn lemma_readings_one_line(data: Seq<u8>, at: int)
    requires
        0 <= at < data.len(),
    ensures
        readings_between(data, at, line_end(data, at)) == seq![reading_of(line_at(data, at))],
{
    lemma_line_end(data, at);
    let end = line_end(data, at);
    assert(readings_between(data, end, end) =~= Seq::<Reading>::empty());
}

/// Reading one more line adds its reading.
pub proof fn lemma_readings_step(data: Seq<u8>, from: int, at: int)
    requires
        0 <= from <= at < data.len(),
        is_cursor(data, at),
    ensures
        readings_between(data, from, line_end(data, at)) == readings_between(data, from, at).push(
            reading_of(line_at(data, at)),
        ),
{
    lemma_line_end(data, at);
    lemma_readings_split(data, from, at, line_end(data, at));
    lemma_readings_one_line(data, at);
}

/// There are no more readings than bytes to read them from.
pub proof fn lemma_readings_len(data: Seq<u8>, from: int, to: int)
    requires
        0 <= from <= to,
    ensures
        readings_between(data, from, to).len() <= to - from,
    decreases data.len() - from,
{
    if from < to && from < data.len() {
        lemma_line_end(data, from);
        if line_end(data, from) <= to {
            lemma_readings_len(data, line_end(data, from), to);
        } else {
            assert(readings_between(data, line_end(data, from), to) =~= Seq::<Reading>::empty());
        }
    }
}

/// A record of the grammar can be taken apart, and its temperature lies within
/// `MAX_TENTHS` of zero.
pub proof fn lemma_record_is_entry(record: Seq<u8>)
    requires
        is_record(record),
    ensures
        is_entry(record),
        -MAX_TENTHS <= reading_of(record).tenths <= MAX_TENTHS,
{
    lemma_temperature_bound(temperature_field(record));
}

/// Bytes that begin with a record of the grammar can be taken apart as one
/// record, and say what that first record says.
pub proof fn lemma_entry_extends(record: Seq<u8>, longer: Seq<u8>)
    requires
        is_record(record),
        record.len() <= longer.len(),
        longer.subrange(0, record.len() as int) == record,
    ensures
        is_entry(longer),
        reading_of(longer) == reading_of(record),
{
    let d = delimiter_index(record);
    lemma_find_from(record, SEMICOLON, 0);
    assert forall|k: int| 0 <= k < record.len() implies longer[k] == record[k] by {
        assert(longer.subrange(0, record.len() as int)[k] == longer[k]);
    }
    lemma_find_from_unique(longer, SEMICOLON, 0, d);
    let short_field = temperature_field(record);
    let long_field = temperature_field(longer);
    assert(long_field.subrange(0, short_field.len() as int) =~= short_field);
    lemma_temperature_prefix(short_field, long_field);
    assert(name_of(longer) =~= name_of(record));
}

/// In a well-formed text the lines read from a place where a line can begin
/// hold temperatures within `MAX_TENTHS` of zero.
pub proof fn lemma_readings_bounded(data: Seq<u8>, from: int, to: int)
    requires
        well_formed(data),
        is_cursor(data, from),
    ensures
        bounded(readings_between(data, from, to)),
    decreases data.len() - from,
{
    if !(from < 0 || from >= to || from >= data.len()) {
        lemma_line_end(data, from);
        lemma_readings_bounded(data, line_end(data, from), to);
        lemma_record_is_entry(line_at(data, from));
        let rest = readings_between(data, line_end(data, from), to);
        let all = readings_between(data, from, to);
        assert forall|i: int| 0 <= i < all.len() implies -MAX_TENTHS <= (#[trigger] all[i]).tenths
            <= MAX_TENTHS by {
            if i > 0 {
                assert(all[i] == rest[i - 1]);
            }
        }
    }
}

/// The end of the line that holds `from`.
pub fn next_line_end(data: &[u8], from: usize) -> (end: usize)
    requires
        from <= data@.len(),
    ensures
        end == line_end(data@, from as int),
        from <= end <= data@.len(),
{
    proof {
        lemma_find_from(data@, NEWLINE, from as int);
    }
    let at = find(data, NEWLINE, from);
    if at < data.len() {
        at + 1
    } else {
        at
    }
}

/// Takes one record apart: the station's name, and the temperature in tenths of
/// a degree. The record is the first `bytes_read` bytes of `buf`, its
/// terminator included.
pub fn parse_entry<'a>(buf: &'a [u8], bytes_read: usize) -> (entry: (&'a [u8], i64))
    requires
        bytes_read <= buf@.len(),
        is_entry(buf@.take(bytes_read as int)),
    ensures
        entry.0@ == name_of(buf@.take(bytes_read as int)),
        entry.1 == reading_of(buf@.take(bytes_read as int)).tenths,
        -MAX_TENTHS <= entry.1 <= MAX_TENTHS,
{
    let record = slice_subrange(buf, 0, bytes_read);
    let split_idx = find(record, SEMICOLON, 0);
    let name = slice_subrange(record, 0, split_idx);
    let temp = custom_parse_float(slice_subrange(record, split_idx + 1, bytes_read - 1));
    (name, temp)
}

/// Whether `parse_entry` can take the first `bytes_read` bytes of `buf` apart.
pub fn has_entry(buf: &[u8], bytes_read: usize) -> (ok: bool)
    requires
        bytes_read <= buf@.len(),
    ensures
        ok == is_entry(buf@.take(bytes_read as int)),
{
    let record = slice_subrange(buf, 0, bytes_read);
    let split_idx = find(record, SEMICOLON, 0);
    if bytes_read == 0 || split_idx >= bytes_read - 1 {
        return false;
    }
    literal_len(slice_subrange(record, split_idx + 1, bytes_read - 1)).is_some()
}

/// Whether `line` is one record of the grammar.
pub fn check_record(line: &[u8]) -> (ok: bool)
    ensures
        ok == is_record(line@),
{
    let n = line.len();
    if n == 0 {
        return false;
    }
    if find(line, NEWLINE, 0) != n - 1 {
        return false;
    }
    let split_idx = find(line, SEMICOLON, 0);
    if split_idx >= n - 1 {
        return false;
    }
    let field = slice_subrange(line, split_idx + 1, n - 1);
    match literal_len(field) {
        Some(len) => len == field.len(),
        None => false,
    }
}

/// Whether every line of `data` is a record of the grammar.
pub fn check_text(data: &[u8]) -> (ok: bool)
    ensures
        ok == well_formed(data@),
{
    let mut cursor: usize = 0;
    while cursor < data.len()
        invariant
            is_cursor(data@, cursor as int),
            forall|at: int|
                0 <= at < cursor && is_cursor(data@, at) ==> is_record(#[trigger] line_at(data@, at)),
        decreases data@.len() - cursor,
    {
        proof {
            lemma_line_end(data@, cursor as int);
        }
        let end = next_line_end(data, cursor);
        if !check_record(slice_subrange(data, cursor, end)) {
            assert(!is_record(line_at(data@, cursor as int)));
            return false;
        }
        cursor = end;
    }
    true
}

} // verus!
