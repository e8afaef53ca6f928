//! The whole computation: the workers one after the other, their tables
//! merged, the lines between them reconciled, the result in order.

use vstd::prelude::*;
use vstd::slice::slice_subrange;
use crate::laws::{boundaries_clear, lemma_chunking_complete};
use crate::readings::{
    bounded,
    lemma_bounded_concat,
    lemma_tallies_concat,
    lemma_tallies_push,
    lemma_tally_of_concat,
    lemma_tally_of_wf,
    tallies,
    Reading,
};
use crate::reconcile::{
    interval_readings,
    pair_intervals,
    reconcile,
    slot_ok,
    slot_readings,
    slots_ok,
    BoundaryInterval,
};
use crate::record::{
    file_readings,
    is_cursor,
    lemma_entry_extends,
    lemma_line_end,
    lemma_readings_bounded,
    lemma_readings_len,
    lemma_readings_step,
    lemma_record_is_entry,
    line_at,
    next_line_end,
    parse_entry,
    reading_of,
    readings_between,
    well_formed,
};
use crate::table::{reports, tally_in, StationAggregate, StationTable};
use crate::worker::{
    is_outcome,
    lemma_worker_order,
    run_worker,
    worker_readings,
    worker_start,
    worker_stop,
    WorkerOutcome,
};

verus! {

/// The readings that the first `upto` workers take in, worker by worker.
pub open spec fn workers_readings(data: Seq<u8>, workers: int, upto: int) -> Seq<Reading>
    decreases upto,
{
    if upto <= 0 {
        Seq::empty()
    } else {
        workers_readings(data, workers, upto - 1) + worker_readings(data, workers, upto - 1)
    }
}

/// The interval between worker `index` and the next: from where the one
/// stopped to where the other began. There is none where the one read to the
/// end of the text.
pub open spec fn boundary_slot(data: Seq<u8>, workers: int, index: int) -> Option<
    BoundaryInterval,
> {
    if worker_stop(data, workers, index) < data.len() {
        Some(
            BoundaryInterval {
                start: worker_stop(data, workers, index) as usize,
                end: worker_start(data, workers, index + 1) as usize,
            },
        )
    } else {
        None
    }
}

/// The intervals between the workers: one slot less than there are workers.
pub open spec fn boundary_slots(data: Seq<u8>, workers: int) -> Seq<Option<BoundaryInterval>> {
    Seq::new((workers - 1) as nat, |index: int| boundary_slot(data, workers, index))
}

/// All the readings that the chunked computation takes in: those of the
/// workers, then those of the reconciling pass.
pub open spec fn chunked_readings(data: Seq<u8>, workers: int) -> Seq<Reading> {
    workers_readings(data, workers, workers) + interval_readings(
        data,
        boundary_slots(data, workers),
    )
}

/// The interval between two workers begins with a whole line, which is what
/// the reconciling pass reads from it; it holds nothing where the one worker
/// stopped just where the other began.
pub proof fn lemma_boundary_slot(data: Seq<u8>, workers: int, index: int)
    requires
        well_formed(data),
        data.len() <= usize::MAX,
        0 <= index < workers - 1,
    ensures
        slot_ok(data, boundary_slot(data, workers, index)),
        worker_stop(data, workers, index) < worker_start(data, workers, index + 1)
            ==> slot_readings(data, boundary_slot(data, workers, index)) == seq![
            reading_of(line_at(data, worker_stop(data, workers, index))),
        ],
        worker_stop(data, workers, index) == worker_start(data, workers, index + 1)
            ==> slot_readings(data, boundary_slot(data, workers, index)) == Seq::<
            Reading,
        >::empty(),
        bounded(slot_readings(data, boundary_slot(data, workers, index))),
        slot_readings(data, boundary_slot(data, workers, index)).len() <= worker_start(
            data,
            workers,
            index + 1,
        ) - worker_stop(data, workers, index),
{
    let stop = worker_stop(data, workers, index);
    let next = worker_start(data, workers, index + 1);
    lemma_worker_order(data, workers, index);
    lemma_worker_order(data, workers, index + 1);
    if stop < next {
        let line = line_at(data, stop);
        let interval = data.subrange(stop, next);
        lemma_line_end(data, stop);
        assert(interval.subrange(0, line.len() as int) =~= line);
        lemma_entry_extends(line, interval);
        lemma_record_is_entry(line);
    }
}

/// The first workers and the intervals between them account for no more
/// readings than there are bytes up to where the last of them stopped, and
/// all these readings are bounded.
pub proof fn lemma_workers_account(data: Seq<u8>, workers: int, upto: int)
    requires
        well_formed(data),
        data.len() <= usize::MAX,
        1 <= upto <= workers,
    ensures
        bounded(workers_readings(data, workers, upto)),
        slots_ok(data, boundary_slots(data, workers).take(upto - 1)),
        bounded(interval_readings(data, boundary_slots(data, workers).take(upto - 1))),
        workers_readings(data, workers, upto).len() + interval_readings(
            data,
            boundary_slots(data, workers).take(upto - 1),
        ).len() <= worker_stop(data, workers, upto - 1),
    decreases upto,
{
    let slots = boundary_slots(data, workers);
    let index = upto - 1;
    lemma_worker_order(data, workers, index);
    lemma_readings_bounded(
        data,
        worker_start(data, workers, index),
        worker_stop(data, workers, index),
    );
    lemma_readings_len(data, worker_start(data, workers, index), worker_stop(data, workers, index));
    if upto == 1 {
        assert(workers_readings(data, workers, 0) =~= Seq::<Reading>::empty());
    } else {
        lemma_workers_account(data, workers, upto - 1);
        lemma_boundary_slot(data, workers, index - 1);
        lemma_bounded_concat(
            workers_readings(data, workers, upto - 1),
            worker_readings(data, workers, index),
        );
        assert(slots.take(upto - 1).drop_last() =~= slots.take(upto - 2));
        lemma_bounded_concat(
            interval_readings(data, slots.take(upto - 2)),
            slot_readings(data, boundary_slot(data, workers, index - 1)),
        );
    }
}

/// All that the chunked computation takes in is bounded, and no more than the
/// text has bytes.
pub proof fn lemma_chunked_readings(data: Seq<u8>, workers: int)
    requires
        well_formed(data),
        data.len() <= usize::MAX,
        1 <= workers,
    ensures
        bounded(workers_readings(data, workers, workers)),
        bounded(interval_readings(data, boundary_slots(data, workers))),
        bounded(chunked_readings(data, workers)),
        slots_ok(data, boundary_slots(data, workers)),
        chunked_readings(data, workers).len() <= data.len(),
{
    lemma_workers_account(data, workers, workers);
    assert(boundary_slots(data, workers).take(workers - 1) =~= boundary_slots(data, workers));
    lemma_bounded_concat(
        workers_readings(data, workers, workers),
        interval_readings(data, boundary_slots(data, workers)),
    );
}

/// Merges what the workers handed back, takes in the lines between their
/// ranges, and lists the stations in the order of their names.
pub fn combine(data: &[u8], outcomes: Vec<WorkerOutcome>) -> (out: Vec<StationAggregate>)
    requires
        well_formed(data@),
        outcomes@.len() >= 1,
        forall|i: int|
            0 <= i < outcomes@.len() ==> is_outcome(
                #[trigger] outcomes@[i],
                data@,
                outcomes@.len() as int,
                i,
            ),
    ensures
        reports(out@, tallies(chunked_readings(data@, outcomes@.len() as int))),
{
    let workers = outcomes.len();
    let size = data.len();
    let ghost count = workers as int;
    let mut table = StationTable::new();
    proof {
        lemma_chunked_readings(data@, count);
    }
    let mut i: usize = 0;
    while i < workers
        invariant
            i <= workers,
            workers == outcomes@.len(),
            count == workers,
            size == data@.len(),
            well_formed(data@),
            table.wf(),
            table@ == tallies(workers_readings(data@, count, i as int)),
            i > 0 ==> bounded(workers_readings(data@, count, i as int)),
            forall|k: int|
                0 <= k < outcomes@.len() ==> is_outcome(#[trigger] outcomes@[k], data@, count, k),
        decreases workers - i,
    {
        let ghost before = workers_readings(data@, count, i as int);
        let ghost own = worker_readings(data@, count, i as int);
        proof {
            lemma_workers_account(data@, count, i + 1);
            lemma_worker_order(data@, count, i as int);
            lemma_readings_bounded(
                data@,
                worker_start(data@, count, i as int),
                worker_stop(data@, count, i as int),
            );
            assert forall|name: Seq<u8>|
                (#[trigger] tally_in(table@, name)).count + tally_in(
                    outcomes@[i as int].table@,
                    name,
                ).count <= u64::MAX by {
                lemma_tally_of_concat(before, own, name);
                lemma_tally_of_wf(before + own, name);
            }
            lemma_tallies_concat(before, own);
        }
        table.merge(&outcomes[i].table);
        i += 1;
    }
    let slots = pair_intervals(&outcomes);
    proof {
        assert(slots@ =~= boundary_slots(data@, count));
        let seen = workers_readings(data@, count, count);
        let between = interval_readings(data@, slots@);
        assert forall|name: Seq<u8>|
            (#[trigger] tally_in(table@, name)).count + between.len()
                <= u64::MAX by {
            lemma_tally_of_wf(seen, name);
        }
        lemma_tallies_concat(seen, between);
    }
    reconcile(&mut table, data, &slots);
    table.finalize()
}

/// Computes the aggregates of all stations of `data` with `workers` workers,
/// each on its own range of the text.
///
/// The result is that of reading the text line after line, unless a line that
/// a worker takes up ends exactly where the worker's range ends: the line
/// behind it is then left out.
pub fn process(data: &[u8], workers: usize) -> (out: Vec<StationAggregate>)
    requires
        workers >= 1,
        well_formed(data@),
    ensures
        reports(out@, tallies(chunked_readings(data@, workers as int))),
        boundaries_clear(data@, workers as int) ==> reports(out@, tallies(file_readings(data@))),
{
    proof {
        if boundaries_clear(data@, workers as int) {
            assert(data@.len() == data.len());
            lemma_chunking_complete(data@, workers as int);
        }
    }
    let mut outcomes: Vec<WorkerOutcome> = Vec::new();
    let mut index: usize = 0;
    while index < workers
        invariant
            index <= workers,
            well_formed(data@),
            outcomes@.len() == index,
            forall|k: int|
                0 <= k < index ==> is_outcome(#[trigger] outcomes@[k], data@, workers as int, k),
        decreases workers - index,
    {
        let outcome = run_worker(data, workers, index);
        outcomes.push(outcome);
        index += 1;
    }
    combine(data, outcomes)
}

/// Computes the aggregates of all stations of `data`, line after line.
pub fn parse_lines(data: &[u8]) -> (out: Vec<StationAggregate>)
    requires
        well_formed(data@),
    ensures
        reports(out@, tallies(file_readings(data@))),
{
    let mut results = StationTable::new();
    let mut cursor: usize = 0;
    loop
        invariant
            well_formed(data@),
            is_cursor(data@, cursor as int),
            cursor <= data@.len(),
            results.wf(),
            results@ == tallies(readings_between(data@, 0, cursor as int)),
        ensures
            cursor == data@.len(),
        decreases data@.len() - cursor,
    {
        proof {
            lemma_line_end(data@, cursor as int);
        }
        let next = next_line_end(data, cursor);
        let bytes_read = next - cursor;
        if bytes_read == 0 {
            break ;
        }
        let ghost seen = readings_between(data@, 0, cursor as int);
        let line = slice_subrange(data, cursor, next);
        proof {
            assert(line@ == line_at(data@, cursor as int));
            assert(line@.take(bytes_read as int) =~= line@);
            lemma_readings_bounded(data@, 0, cursor as int);
            lemma_readings_len(data@, 0, cursor as int);
        }
        let (name, temp) = parse_entry(line, bytes_read);
        proof {
            lemma_tally_of_wf(seen, name@);
            lemma_tallies_push(seen, reading_of(line@));
            lemma_readings_step(data@, 0, cursor as int);
        }
        results.record(name, temp);
        cursor = next;
    }
    results.finalize()
}

} // verus!
