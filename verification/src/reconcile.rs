//! The lines that lie across two workers' ranges, and the pass that takes them
//! in once all workers are done.

use vstd::prelude::*;
use vstd::slice::slice_subrange;
use crate::aggregate::Tally;
use crate::readings::{bounded, lemma_tallies_push, lemma_tally_of_wf, tallies, Reading};
use crate::record::{is_entry, parse_entry, reading_of, temperature_field};
use crate::table::{merged, tally_in, StationTable};
use crate::temperature::{lemma_temperature_bound, MAX_TENTHS};
use crate::worker::WorkerOutcome;

verus! {

/// The bytes of a line that neither of two neighbouring workers took in: from
/// `start` up to, not including, `end`.
#[derive(Clone, Copy, Debug, PartialEq, Eq, Structural)]
pub struct BoundaryInterval {
    pub start: usize,
    pub end: usize,
}

/// The interval between two workers, where the earlier one has left a line out
/// and the later one has skipped to a line's end.
pub open spec fn paired_slot(stopped_at: Option<usize>, skipped_to: Option<usize>) -> Option<
    BoundaryInterval,
> {
    match (stopped_at, skipped_to) {
        (Some(start), Some(end)) => Some(BoundaryInterval { start, end }),
        _ => None,
    }
}

/// The reading that the reconciling pass takes from one slot: none from an
/// empty slot or from an interval without bytes, else what the interval's
/// bytes say when taken apart as one record.
pub open spec fn slot_readings(data: Seq<u8>, slot: Option<BoundaryInterval>) -> Seq<Reading> {
    match slot {
        Some(interval) => if interval.start < interval.end {
            seq![reading_of(data.subrange(interval.start as int, interval.end as int))]
        } else {
            Seq::empty()
        },
        None => Seq::empty(),
    }
}

/// The readings that the reconciling pass takes from `slots`, in their order.
pub open spec fn interval_readings(data: Seq<u8>, slots: Seq<Option<BoundaryInterval>>) -> Seq<
    Reading,
>
    decreases slots.len(),
{
    if slots.len() == 0 {
        Seq::empty()
    } else {
        interval_readings(data, slots.drop_last()) + slot_readings(data, slots.last())
    }
}

/// The slot's interval, where it has bytes, lies within the text and can be
/// taken apart as one record.
pub open spec fn slot_ok(data: Seq<u8>, slot: Option<BoundaryInterval>) -> bool {
    match slot {
        Some(interval) => interval.start < interval.end ==> interval.end <= data.len() && is_entry(
            data.subrange(interval.start as int, interval.end as int),
        ),
        None => true,
    }
}

/// Every slot's interval can be taken apart.
pub open spec fn slots_ok(data: Seq<u8>, slots: Seq<Option<BoundaryInterval>>) -> bool {
    forall|i: int| 0 <= i < slots.len() ==> slot_ok(data, #[trigger] slots[i])
}

/// The readings of slots that can be taken apart are bounded, and no more
/// than the slots.
pub proof fn lemma_interval_readings(data: Seq<u8>, slots: Seq<Option<BoundaryInterval>>)
    requires
        slots_ok(data, slots),
    ensures
        bounded(interval_readings(data, slots)),
        interval_readings(data, slots).len() <= slots.len(),
    decreases slots.len(),
{
    if slots.len() > 0 {
        let front = slots.drop_last();
        assert forall|i: int| 0 <= i < front.len() implies slot_ok(data, #[trigger] front[i]) by {
            assert(front[i] == slots[i]);
        }
        lemma_interval_readings(data, front);
        assert(slot_ok(data, slots[slots.len() - 1]));
        let head = interval_readings(data, front);
        let tail = slot_readings(data, slots.last());
        let all = interval_readings(data, slots);
        assert forall|i: int| 0 <= i < all.len() implies -MAX_TENTHS <= (#[trigger] all[i]).tenths
            <= MAX_TENTHS by {
            if i < head.len() {
                assert(all[i] == head[i]);
            } else {
                let interval = slots.last().unwrap();
                let record = data.subrange(interval.start as int, interval.end as int);
                assert(all[i] == tail[0]);
                lemma_temperature_bound(temperature_field(record));
            }
        }
    }
}

/// The first slots hold no more readings than all of them.
pub proof fn lemma_interval_readings_grow(
    data: Seq<u8>,
    slots: Seq<Option<BoundaryInterval>>,
    upto: int,
)
    requires
        0 <= upto <= slots.len(),
    ensures
        interval_readings(data, slots.take(upto)).len() <= interval_readings(data, slots).len(),
    decreases slots.len() - upto,
{
    if upto < slots.len() {
        lemma_interval_readings_grow(data, slots, upto + 1);
        assert(slots.take(upto + 1).drop_last() =~= slots.take(upto));
    } else {
        assert(slots.take(upto) =~= slots);
    }
}

/// Taking in one more reading after a merge is merging with that reading
/// taken in.
pub proof fn lemma_merged_push(base: Map<Seq<u8>, Tally>, readings: Seq<Reading>, reading: Reading)
    requires
        bounded(readings),
    ensures
        merged(base, tallies(readings.push(reading))) == merged(base, tallies(readings)).insert(
            reading.name,
            tally_in(merged(base, tallies(readings)), reading.name).observe(reading.tenths),
        ),
{
    let before = merged(base, tallies(readings));
    let after = merged(base, tallies(readings.push(reading)));
    let expected = before.insert(
        reading.name,
        tally_in(before, reading.name).observe(reading.tenths),
    );
    lemma_tallies_push(readings, reading);
    assert forall|name: Seq<u8>| #[trigger] after.dom().contains(name) == expected.dom().contains(
        name,
    ) by {
        lemma_tally_of_wf(readings, name);
    }
    assert forall|name: Seq<u8>| after.dom().contains(name) implies #[trigger] after[name]
        == expected[name] by {
        lemma_tally_of_wf(readings, name);
    }
    assert(after =~= expected);
}

/// Pairs what neighbouring workers handed back: slot `i` holds the interval
/// from where worker `i` stopped to where worker `i + 1` began, if both have
/// said so.
pub fn pair_intervals(outcomes: &Vec<WorkerOutcome>) -> (slots: Vec<Option<BoundaryInterval>>)
    ensures
        outcomes@.len() == 0 ==> slots@.len() == 0,
        outcomes@.len() > 0 ==> slots@.len() == outcomes@.len() - 1,
        forall|i: int|
            0 <= i < slots@.len() ==> #[trigger] slots@[i] == paired_slot(
                outcomes@[i].stopped_at,
                outcomes@[i + 1].skipped_to,
            ),
{
    let mut slots: Vec<Option<BoundaryInterval>> = Vec::new();
    let mut i: usize = 1;
    while i < outcomes.len()
        invariant
            1 <= i,
            outcomes@.len() > 0 ==> i <= outcomes@.len(),
            outcomes@.len() == 0 ==> slots@.len() == 0,
            outcomes@.len() > 0 ==> slots@.len() == i - 1,
            forall|k: int|
                0 <= k < slots@.len() ==> #[trigger] slots@[k] == paired_slot(
                    outcomes@[k].stopped_at,
                    outcomes@[k + 1].skipped_to,
                ),
        decreases outcomes@.len() - i,
    {
        let slot = match (outcomes[i - 1].stopped_at, outcomes[i].skipped_to) {
            (Some(start), Some(end)) => Some(BoundaryInterval { start, end }),
            _ => None,
        };
        slots.push(slot);
        i += 1;
    }
    slots
}

/// Takes in the lines that lie across the workers' ranges: for each slot that
/// holds an interval with bytes, takes those bytes apart as one record and
/// takes its reading in.
pub fn reconcile(table: &mut StationTable, data: &[u8], slots: &Vec<Option<BoundaryInterval>>)
    requires
        old(table).wf(),
        slots_ok(data@, slots@),
        forall|name: Seq<u8>|
            (#[trigger] tally_in(old(table)@, name)).count + interval_readings(
                data@,
                slots@,
            ).len() <= u64::MAX,
    ensures
        final(table).wf(),
        final(table)@ == merged(old(table)@, tallies(interval_readings(data@, slots@))),
{
    let ghost base = table@;
    proof {
        table.lemma_view_wf();
    }
    let mut i: usize = 0;
    while i < slots.len()
        invariant
            i <= slots@.len(),
            table.wf(),
            slots_ok(data@, slots@),
            table@ == merged(base, tallies(interval_readings(data@, slots@.take(i as int)))),
            forall|name: Seq<u8>|
                (#[trigger] tally_in(base, name)).count + interval_readings(data@, slots@).len()
                    <= u64::MAX,
        decreases slots@.len() - i,
    {
        let ghost seen = interval_readings(data@, slots@.take(i as int));
        proof {
            assert(slots@.take(i + 1).drop_last() =~= slots@.take(i as int));
            lemma_interval_readings(data@, slots@.take(i as int));
            lemma_interval_readings_grow(data@, slots@, i + 1);
        }
        if let Some(interval) = slots[i] {
            if interval.start < interval.end {
                let record = slice_subrange(data, interval.start, interval.end);
                let bytes_read = interval.end - interval.start;
                proof {
                    assert(record@.take(bytes_read as int) =~= record@);
                }
                let (name, temp) = parse_entry(record, bytes_read);
                proof {
                    lemma_merged_push(base, seen, reading_of(record@));
                    lemma_tally_of_wf(seen, name@);
                    assert(seen.push(reading_of(record@)) =~= seen + slot_readings(
                        data@,
                        slots@[i as int],
                    ));
                }
                table.record(name, temp);
            }
        }
        i += 1;
    }
    proof {
        assert(slots@.take(slots@.len() as int) =~= slots@);
    }
}

} // verus!
