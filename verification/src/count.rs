//! Counting the lines of a text, as a whole and section by section.

use vstd::prelude::*;
use vstd::slice::slice_subrange;
use crate::scan::{count, count_of, lemma_count_of_bound, lemma_count_of_concat, NEWLINE};

verus! {

/// The number of bytes counted in one go.
pub const BLOCK_SIZE: usize = 3072;

/// The number of line terminators in `data`.
pub open spec fn line_count(data: Seq<u8>) -> nat {
    count_of(data, NEWLINE)
}

/// The number of lines in `data` when a last line without a terminator counts
/// too.
pub open spec fn line_count_with_tail(data: Seq<u8>) -> nat {
    if data.len() > 0 && data.last() != NEWLINE {
        line_count(data) + 1
    } else {
        line_count(data)
    }
}

/// The terminators up to `to` are those up to `mid` and those from there.
pub proof fn lemma_line_count_split(data: Seq<u8>, mid: int, to: int)
    requires
        0 <= mid <= to <= data.len(),
    ensures
        line_count(data.subrange(0, to)) == line_count(data.subrange(0, mid)) + line_count(
            data.subrange(mid, to),
        ),
        line_count(data.subrange(0, to)) <= to,
{
    assert(data.subrange(0, to) =~= data.subrange(0, mid) + data.subrange(mid, to));
    lemma_count_of_concat(data.subrange(0, mid), data.subrange(mid, to), NEWLINE);
    lemma_count_of_bound(data.subrange(0, to), NEWLINE);
}

/// Counts the line terminators of `data`, one block of `BLOCK_SIZE` bytes
/// after the other.
pub fn count_lines_read_to_buf(data: &[u8]) -> (lines: usize)
    ensures
        lines == line_count(data@),
{
    let size = data.len();
    let mut lines: usize = 0;
    let mut done: usize = 0;
    while done < size
        invariant
            done <= size,
            size == data@.len(),
            lines == line_count(data@.subrange(0, done as int)),
            lines <= done,
        decreases size - done,
    {
        let read = if size - done < BLOCK_SIZE {
            size - done
        } else {
            BLOCK_SIZE
        };
        proof {
            lemma_line_count_split(data@, done as int, done + read);
        }
        lines += count(slice_subrange(data, done, done + read), NEWLINE);
        done += read;
    }
    proof {
        assert(data@.subrange(0, size as int) =~= data@);
    }
    lines
}

/// Counts the lines of `data`; a last line without a terminator counts too.
pub fn count_lines_read_line(data: &[u8]) -> (lines: usize)
    ensures
        lines == line_count_with_tail(data@),
{
    proof {
        if data@.len() > 0 && data@.last() != NEWLINE {
            lemma_count_of_bound(data@.drop_last(), NEWLINE);
        }
    }
    let lines = count(data, NEWLINE);
    if data.len() > 0 && data[data.len() - 1] != NEWLINE {
        lines + 1
    } else {
        lines
    }
}

/// Counts the line terminators of `data` section by section: `threads` equal
/// sections, then the bytes that are left over behind the last of them.
pub fn count_lines_concurrent(data: &[u8], threads: usize) -> (lines: usize)
    requires
        threads >= 1,
    ensures
        lines == line_count(data@),
{
    let file_size = data.len();
    let section_size = file_size / threads;
    let remaining = file_size % threads;
    let mut lines: usize = 0;
    let mut i: usize = 0;
    proof {
        assert(threads * section_size + remaining == file_size) by (nonlinear_arith)
            requires
                threads >= 1,
                section_size == file_size / threads,
                remaining == file_size % threads,
        ;
    }
    while i < threads
        invariant
            i <= threads,
            file_size == data@.len(),
            section_size == file_size / threads,
            threads * section_size + remaining == file_size,
            lines == line_count(data@.subrange(0, i * section_size)),
            lines <= i * section_size <= threads * section_size,
        decreases threads - i,
    {
        proof {
            assert((i + 1) * section_size == i * section_size + section_size
                && (i + 1) * section_size <= threads * section_size) by (nonlinear_arith)
                requires
                    i < threads,
            ;
            lemma_line_count_split(data@, i * section_size, (i + 1) * section_size);
        }
        let start = i * section_size;
        lines += count(slice_subrange(data, start, start + section_size), NEWLINE);
        i += 1;
    }
    let counted = section_size * threads;
    proof {
        lemma_line_count_split(data@, counted as int, file_size as int);
        assert(data@.subrange(0, file_size as int) =~= data@);
    }
    let rest = if remaining > 0 {
        count(slice_subrange(data, counted, file_size), NEWLINE)
    } else {
        0
    };
    lines + rest
}

} // verus!
