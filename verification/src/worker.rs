//! One worker: it reads the lines of its range and leaves out the line that
//! reaches into the next range.

use vstd::prelude::*;
use vstd::slice::slice_subrange;
use crate::partition::{lemma_partition_bounds, nominal_end, nominal_start, partition};
use crate::readings::{lemma_tallies_push, lemma_tally_of_wf, tallies, Reading};
use crate::record::{
    is_cursor,
    lemma_line_end,
    lemma_line_end_monotonic,
    lemma_readings_bounded,
    lemma_readings_len,
    lemma_readings_step,
    line_at,
    line_end,
    next_line_end,
    parse_entry,
    reading_of,
    readings_between,
    well_formed,
};
use crate::table::StationTable;

verus! {

/// Where worker `index` begins to read whole lines: the first worker at the
/// start of the text, every other behind the line that holds the start of its
/// range.
pub open spec fn worker_start(data: Seq<u8>, workers: int, index: int) -> int {
    if index == 0 {
        0
    } else {
        line_end(data, nominal_start(data.len() as int, workers, index))
    }
}

/// Where a worker that reads on from `cursor` stops: at the first line that
/// ends at `limit` or behind it, or at the end of the text.
pub open spec fn stop_from(data: Seq<u8>, cursor: int, limit: int) -> int
    decreases data.len() - cursor,
{
    if cursor < 0 || cursor >= data.len() {
        data.len() as int
    } else if line_end(data, cursor) >= limit {
        cursor
    } else {
        proof {
            lemma_line_end(data, cursor);
        }
        stop_from(data, line_end(data, cursor), limit)
    }
}

/// Where worker `index` stops: the last worker at the end of the text, every
/// other at the line that reaches the end of its range.
pub open spec fn worker_stop(data: Seq<u8>, workers: int, index: int) -> int {
    if index == workers - 1 {
        data.len() as int
    } else {
        stop_from(
            data,
            worker_start(data, workers, index),
            nominal_end(data.len() as int, workers, index),
        )
    }
}

/// The readings that worker `index` takes in.
pub open spec fn worker_readings(data: Seq<u8>, workers: int, index: int) -> Seq<Reading> {
    readings_between(data, worker_start(data, workers, index), worker_stop(data, workers, index))
}

/// A worker stops at or behind its cursor, where a line can begin, and if not
/// at the end of the text then at a line that reaches the limit.
pub proof fn lemma_stop_from(data: Seq<u8>, cursor: int, limit: int)
    requires
        is_cursor(data, cursor),
    ensures
        cursor <= stop_from(data, cursor, limit) <= data.len(),
        is_cursor(data, stop_from(data, cursor, limit)),
        stop_from(data, cursor, limit) < data.len() ==> line_end(
            data,
            stop_from(data, cursor, limit),
        ) >= limit,
        stop_from(data, cursor, limit) == cursor || stop_from(data, cursor, limit) < limit
            || stop_from(data, cursor, limit) == data.len(),
    decreases data.len() - cursor,
{
    if cursor < data.len() && line_end(data, cursor) < limit {
        lemma_line_end(data, cursor);
        lemma_stop_from(data, line_end(data, cursor), limit);
    }
}

/// A worker whose cursor is not behind the end of the line that holds the
/// limit stops no later than that line ends.
pub proof fn lemma_stop_before_next_start(data: Seq<u8>, cursor: int, limit: int)
    requires
        0 <= cursor <= line_end(data, limit),
        0 <= limit <= data.len(),
    ensures
        stop_from(data, cursor, limit) <= line_end(data, limit),
    decreases data.len() - cursor,
{
    lemma_line_end(data, limit);
    if cursor < data.len() && line_end(data, cursor) < limit {
        lemma_line_end(data, cursor);
        lemma_stop_before_next_start(data, line_end(data, cursor), limit);
    }
}

/// Every worker begins where a line can begin.
pub proof fn lemma_worker_start(data: Seq<u8>, workers: int, index: int)
    requires
        0 <= index < workers,
    ensures
        is_cursor(data, worker_start(data, workers, index)),
        index > 0 ==> nominal_start(data.len() as int, workers, index) <= worker_start(
            data,
            workers,
            index,
        ),
{
    lemma_partition_bounds(data.len() as int, workers, index);
    if index > 0 {
        lemma_line_end(data, nominal_start(data.len() as int, workers, index));
    }
}

/// No byte is read twice: each worker stops at or behind the place where it
/// began, and no later than the next worker begins.
pub proof fn lemma_worker_order(data: Seq<u8>, workers: int, index: int)
    requires
        0 <= index < workers,
    ensures
        0 <= worker_start(data, workers, index) <= worker_stop(data, workers, index) <= data.len(),
        is_cursor(data, worker_start(data, workers, index)),
        is_cursor(data, worker_stop(data, workers, index)),
        index < workers - 1 ==> worker_stop(data, workers, index) <= worker_start(
            data,
            workers,
            index + 1,
        ),
{
    let size = data.len() as int;
    let start = worker_start(data, workers, index);
    lemma_worker_start(data, workers, index);
    lemma_partition_bounds(size, workers, index);
    if index < workers - 1 {
        let limit = nominal_end(size, workers, index);
        lemma_stop_from(data, start, limit);
        lemma_line_end(data, limit);
        if index > 0 {
            lemma_line_end_monotonic(data, nominal_start(size, workers, index), limit);
        }
        lemma_stop_before_next_start(data, start, limit);
    }
}

/// What one worker hands back.
pub struct WorkerOutcome {
    /// The aggregates of the lines that the worker took in.
    pub table: StationTable,
    /// Behind which byte the worker began to take lines in, having skipped the
    /// line that holds the start of its range; the first worker skips nothing.
    pub skipped_to: Option<usize>,
    /// Where the line begins that the worker left out, because it reaches the
    /// end of the worker's range; the last worker leaves nothing out.
    pub stopped_at: Option<usize>,
}

/// `outcome` is what worker `index` of `workers` hands back on `data`.
pub open spec fn is_outcome(outcome: WorkerOutcome, data: Seq<u8>, workers: int, index: int) -> bool {
    &&& outcome.table.wf()
    &&& outcome.table@ == tallies(worker_readings(data, workers, index))
    &&& outcome.skipped_to == (if index > 0 {
        Some(worker_start(data, workers, index) as usize)
    } else {
        None
    })
    &&& outcome.stopped_at == (if index < workers - 1 && worker_stop(data, workers, index)
        < data.len() {
        Some(worker_stop(data, workers, index) as usize)
    } else {
        None
    })
}

/// Runs worker `index` of `workers` over `data`.
///
/// Every worker but the first skips the line that holds the start of its
/// range. It then takes in line after line. Every worker but the last stops
/// before the first line that ends at the end of its range or behind it, and
/// reports where that line begins; the last reads to the end of the text.
pub fn run_worker(data: &[u8], workers: usize, index: usize) -> (outcome: WorkerOutcome)
    requires
        index < workers,
        well_formed(data@),
    ensures
        is_outcome(outcome, data@, workers as int, index as int),
{
    let part = partition(data.len(), workers, index);
    let last = index == workers - 1;
    let mut cursor: usize = part.start;
    let mut skipped_to: Option<usize> = None;
    if index > 0 {
        cursor = next_line_end(data, cursor);
        skipped_to = Some(cursor);
    }
    let ghost start = cursor as int;
    let ghost limit = part.end as int;
    let mut stopped_at: Option<usize> = None;
    let mut table = StationTable::new();
    proof {
        lemma_worker_start(data@, workers as int, index as int);
    }
    loop
        invariant_except_break
            stopped_at.is_none(),
            !last ==> stop_from(data@, cursor as int, limit) == stop_from(data@, start, limit),
        invariant
            well_formed(data@),
            is_cursor(data@, start),
            is_cursor(data@, cursor as int),
            start <= cursor <= data@.len(),
            limit == part.end,
            table.wf(),
            table@ == tallies(readings_between(data@, start, cursor as int)),
        ensures
            last ==> cursor == data@.len() && stopped_at.is_none(),
            !last ==> cursor == stop_from(data@, start, limit),
            !last ==> stopped_at == (if cursor < data@.len() {
                Some(cursor)
            } else {
                None
            }),
        decreases data@.len() - cursor,
    {
        proof {
            lemma_line_end(data@, cursor as int);
        }
        let next = next_line_end(data, cursor);
        let bytes_read = next - cursor;
        if bytes_read == 0 {
            break ;
        }
        if next >= part.end && !last {
            stopped_at = Some(cursor);
            break ;
        }
        let ghost seen = readings_between(data@, start, cursor as int);
        let line = slice_subrange(data, cursor, next);
        proof {
            assert(line@ == line_at(data@, cursor as int));
            assert(line@.take(bytes_read as int) =~= line@);
            lemma_readings_bounded(data@, start, cursor as int);
            lemma_readings_len(data@, start, cursor as int);
        }
        let (name, temp) = parse_entry(line, bytes_read);
        proof {
            lemma_tally_of_wf(seen, name@);
            lemma_tallies_push(seen, reading_of(line@));
            lemma_readings_step(data@, start, cursor as int);
        }
        table.record(name, temp);
        cursor = next;
    }
    WorkerOutcome { table, skipped_to, stopped_at }
}

} // verus!
