//! What holds of the computation as a whole.

use vstd::prelude::*;
use crate::aggregate::Tally;
use crate::engine::{
    boundary_slot,
    boundary_slots,
    chunked_readings,
    lemma_boundary_slot,
    lemma_chunked_readings,
    lemma_workers_account,
    workers_readings,
};
use crate::names::lemma_name_lt_transitive;
use crate::partition::{lemma_partition_bounds, nominal_end, nominal_start};
use crate::readings::{
    lemma_tally_of_concat,
    lemma_tally_of_wf,
    tallies,
    tally_of,
    Reading,
};
use crate::reconcile::{interval_readings, slot_readings};
use crate::record::{
    file_readings,
    is_cursor,
    lemma_line_end,
    lemma_line_end_same,
    lemma_readings_bounded,
    lemma_readings_one_line,
    lemma_readings_split,
    line_at,
    line_end,
    readings_between,
    well_formed,
};
use crate::count::line_count;
use crate::scan::{lemma_count_of_concat, lemma_count_of_none, lemma_find_from, NEWLINE};
use crate::table::{ascending, listed, merged, place_of, reports, tallies_wf, StationAggregate};
use crate::worker::{
    lemma_stop_from,
    lemma_worker_order,
    stop_from,
    worker_readings,
    worker_start,
    worker_stop,
};

verus! {

/// Merging two tables gives the same whichever of them comes first.
pub proof fn lemma_merged_commutative(a: Map<Seq<u8>, Tally>, b: Map<Seq<u8>, Tally>)
    ensures
        merged(a, b) == merged(b, a),
{
}

/// Merging three tables gives the same however they are grouped.
pub proof fn lemma_merged_associative(
    a: Map<Seq<u8>, Tally>,
    b: Map<Seq<u8>, Tally>,
    c: Map<Seq<u8>, Tally>,
)
    ensures
        merged(merged(a, b), c) == merged(a, merged(b, c)),
{
}

/// Folding two workers' tables into a table gives the same in either order.
pub proof fn lemma_fold_order(
    base: Map<Seq<u8>, Tally>,
    a: Map<Seq<u8>, Tally>,
    b: Map<Seq<u8>, Tally>,
)
    ensures
        merged(merged(base, a), b) == merged(merged(base, b), a),
{
}

/// The tables of a list folded into one, in the list's order.
pub open spec fn folded(tables: Seq<Map<Seq<u8>, Tally>>) -> Map<Seq<u8>, Tally>
    decreases tables.len(),
{
    if tables.len() == 0 {
        Map::empty()
    } else {
        merged(folded(tables.drop_last()), tables.last())
    }
}

/// Every table of the list is well formed.
pub open spec fn all_wf(tables: Seq<Map<Seq<u8>, Tally>>) -> bool {
    forall|i: int| 0 <= i < tables.len() ==> tallies_wf(#[trigger] tables[i])
}

/// Merging well-formed tables gives a well-formed table.
pub proof fn lemma_merged_wf(a: Map<Seq<u8>, Tally>, b: Map<Seq<u8>, Tally>)
    requires
        tallies_wf(a),
        tallies_wf(b),
    ensures
        tallies_wf(merged(a, b)),
{
}

/// Folding well-formed tables gives a well-formed table.
pub proof fn lemma_folded_wf(tables: Seq<Map<Seq<u8>, Tally>>)
    requires
        all_wf(tables),
    ensures
        tallies_wf(folded(tables)),
    decreases tables.len(),
{
    if tables.len() > 0 {
        let front = tables.drop_last();
        lemma_folded_wf(front);
    }
}

/// Folding two lists, one behind the other, is merging what each folds to.
pub proof fn lemma_folded_concat(a: Seq<Map<Seq<u8>, Tally>>, b: Seq<Map<Seq<u8>, Tally>>)
    requires
        all_wf(a),
        all_wf(b),
    ensures
        folded(a + b) == merged(folded(a), folded(b)),
    decreases b.len(),
{
    if b.len() > 0 {
        let front = b.drop_last();
        assert((a + b).drop_last() =~= a + front);
        lemma_folded_concat(a, front);
    }
}

/// Folding the workers' tables in any order yields the same table: two lists
/// that hold the same tables, each as often, fold to the same.
pub proof fn lemma_fold_any_order(a: Seq<Map<Seq<u8>, Tally>>, b: Seq<Map<Seq<u8>, Tally>>)
    requires
        all_wf(a),
        a.to_multiset() == b.to_multiset(),
    ensures
        folded(a) == folded(b),
    decreases a.len(),
{
    a.to_multiset_ensures();
    b.to_multiset_ensures();
    if a.len() > 0 {
        let last = a.last();
        assert(a.to_multiset().count(last) > 0);
        let j = choose|j: int| 0 <= j < b.len() && b[j] == last;
        let rest = b.remove(j);
        let front = a.drop_last();
        assert(front =~= a.remove(a.len() - 1));
        assert forall|i: int| 0 <= i < b.len() implies tallies_wf(#[trigger] b[i]) by {
            assert(b.to_multiset().count(b[i]) > 0);
        }
        lemma_fold_any_order(front, rest);
        let head = b.take(j);
        let tail = b.skip(j + 1);
        assert(b =~= head.push(last) + tail);
        assert(head.push(last).drop_last() =~= head);
        lemma_folded_concat(head.push(last), tail);
        lemma_folded_concat(head, tail);
    }
}

/// No byte is taken in twice. Of two workers the earlier stops before the
/// later begins, and the interval behind the earlier one, from where it
/// stopped to where its neighbour began, ends before the later worker begins
/// too: the workers' stretches and the intervals between them lie one behind
/// the other.
pub proof fn lemma_no_byte_twice(data: Seq<u8>, workers: int, earlier: int, later: int)
    requires
        0 <= earlier < later < workers,
    ensures
        0 <= worker_start(data, workers, earlier) <= worker_stop(data, workers, earlier),
        worker_stop(data, workers, earlier) <= worker_start(data, workers, earlier + 1),
        worker_start(data, workers, earlier + 1) <= worker_start(data, workers, later),
        worker_start(data, workers, later) <= worker_stop(data, workers, later) <= data.len(),
    decreases later - earlier,
{
    lemma_worker_order(data, workers, earlier);
    lemma_worker_order(data, workers, later);
    if earlier + 1 < later {
        lemma_no_byte_twice(data, workers, earlier + 1, later);
    }
}

/// The names of a list of stations, in its order.
pub open spec fn names_of(out: Seq<StationAggregate>) -> Seq<Seq<u8>> {
    Seq::new(out.len(), |i: int| out[i]@.name)
}

/// Where each name of one ascending list is found in another that holds them
/// all: no earlier than where it stands in its own.
proof fn lemma_place_at_least(a: Seq<Seq<u8>>, b: Seq<Seq<u8>>, i: int)
    requires
        ascending(a),
        ascending(b),
        forall|k: int| 0 <= k < a.len() ==> listed(b, #[trigger] a[k]),
        0 <= i < a.len(),
    ensures
        i <= place_of(b, a[i]) < b.len(),
        b[place_of(b, a[i])] == a[i],
    decreases i,
{
    let here = place_of(b, a[i]);
    if i > 0 {
        lemma_place_at_least(a, b, i - 1);
        let before = place_of(b, a[i - 1]);
        if here < before {
            lemma_name_lt_transitive(a[i], a[i - 1], a[i]);
        }
    }
}

/// Two lists that report the same tallies are the same list: the result is
/// fixed by what was read, not by how the reading was shared out.
pub proof fn lemma_reports_unique(
    a: Seq<StationAggregate>,
    b: Seq<StationAggregate>,
    tallies: Map<Seq<u8>, Tally>,
)
    requires
        reports(a, tallies),
        reports(b, tallies),
    ensures
        a.len() == b.len(),
        forall|i: int| 0 <= i < a.len() ==> (#[trigger] a[i])@ == b[i]@,
{
    let an = names_of(a);
    let bn = names_of(b);
    assert forall|k: int| 0 <= k < an.len() implies listed(bn, #[trigger] an[k]) by {
        let j = choose|j: int| 0 <= j < b.len() && #[trigger] b[j]@.name == a[k]@.name;
        assert(bn[j] == an[k]);
    }
    assert forall|k: int| 0 <= k < bn.len() implies listed(an, #[trigger] bn[k]) by {
        let j = choose|j: int| 0 <= j < a.len() && #[trigger] a[j]@.name == b[k]@.name;
        assert(an[j] == bn[k]);
    }
    if a.len() > 0 {
        lemma_place_at_least(an, bn, a.len() - 1);
    }
    if b.len() > 0 {
        lemma_place_at_least(bn, an, b.len() - 1);
    }
    assert forall|i: int| 0 <= i < a.len() implies (#[trigger] a[i])@ == b[i]@ by {
        lemma_place_at_least(an, bn, i);
        let j = place_of(bn, an[i]);
        lemma_place_at_least(bn, an, j);
    }
}

/// A line that worker `index` takes up ends exactly where the worker's range
/// ends, and the text goes on behind it. The worker then leaves that line out,
/// its neighbour skips the line behind it, and the reconciling pass, which
/// takes one record from the interval, leaves the second line out.
pub open spec fn line_ends_at_boundary(data: Seq<u8>, workers: int, index: int) -> bool {
    let end = nominal_end(data.len() as int, workers, index);
    worker_start(data, workers, index) < end < data.len() && data[end - 1] == NEWLINE
}

/// No worker but the last takes up a line that ends exactly where its range
/// ends.
pub open spec fn boundaries_clear(data: Seq<u8>, workers: int) -> bool {
    forall|index: int|
        0 <= index < workers - 1 ==> !#[trigger] line_ends_at_boundary(data, workers, index)
}

/// Where no line ends at the boundary, the interval behind a worker holds one
/// line and no more.
pub proof fn lemma_interval_is_line(data: Seq<u8>, workers: int, index: int)
    requires
        0 <= index < workers - 1,
        !line_ends_at_boundary(data, workers, index),
        worker_stop(data, workers, index) < worker_start(data, workers, index + 1),
    ensures
        line_end(data, worker_stop(data, workers, index)) == worker_start(
            data,
            workers,
            index + 1,
        ),
{
    let size = data.len() as int;
    let begin = nominal_start(size, workers, index);
    let end = nominal_end(size, workers, index);
    let start = worker_start(data, workers, index);
    let stop = worker_stop(data, workers, index);
    lemma_worker_order(data, workers, index);
    lemma_stop_from(data, start, end);
    lemma_line_end(data, stop);
    lemma_line_end(data, end);
    if stop > end {
        lemma_line_end_same(data, begin, end);
    } else if line_end(data, stop) > end {
        lemma_line_end_same(data, stop, end);
    }
}

/// Where no line ends at the boundary, the reconciling pass takes from the
/// interval behind a worker just the lines that lie in it.
pub proof fn lemma_interval_readings_exact(data: Seq<u8>, workers: int, index: int)
    requires
        well_formed(data),
        data.len() <= usize::MAX,
        0 <= index < workers - 1,
        !line_ends_at_boundary(data, workers, index),
    ensures
        slot_readings(data, boundary_slot(data, workers, index)) == readings_between(
            data,
            worker_stop(data, workers, index),
            worker_start(data, workers, index + 1),
        ),
{
    let stop = worker_stop(data, workers, index);
    let next = worker_start(data, workers, index + 1);
    lemma_worker_order(data, workers, index);
    if stop < next {
        lemma_interval_is_line(data, workers, index);
        lemma_readings_one_line(data, stop);
    }
}

/// Where no line ends at a boundary, the first workers and the reconciling
/// pass between them take in just the lines up to where the last of these
/// workers stopped.
pub proof fn lemma_prefix_complete(data: Seq<u8>, workers: int, upto: int, name: Seq<u8>)
    requires
        well_formed(data),
        data.len() <= usize::MAX,
        1 <= upto <= workers,
        boundaries_clear(data, workers),
    ensures
        tally_of(workers_readings(data, workers, upto), name).merge(
            tally_of(interval_readings(data, boundary_slots(data, workers).take(upto - 1)), name),
        ) == tally_of(readings_between(data, 0, worker_stop(data, workers, upto - 1)), name),
        workers_readings(data, workers, upto).len() + interval_readings(
            data,
            boundary_slots(data, workers).take(upto - 1),
        ).len() == readings_between(data, 0, worker_stop(data, workers, upto - 1)).len(),
    decreases upto,
{
    let slots = boundary_slots(data, workers);
    let index = upto - 1;
    let start = worker_start(data, workers, index);
    let stop = worker_stop(data, workers, index);
    let own = worker_readings(data, workers, index);
    lemma_worker_order(data, workers, index);
    if upto == 1 {
        lemma_readings_bounded(data, 0, stop);
        lemma_tally_of_wf(own, name);
    } else {
        let before_stop = worker_stop(data, workers, index - 1);
        let seen = workers_readings(data, workers, upto - 1);
        let between = interval_readings(data, slots.take(upto - 2));
        let gap = slot_readings(data, boundary_slot(data, workers, index - 1));
        let prefix = readings_between(data, 0, before_stop);
        lemma_prefix_complete(data, workers, upto - 1, name);
        lemma_workers_account(data, workers, upto - 1);
        lemma_worker_order(data, workers, index - 1);
        lemma_interval_readings_exact(data, workers, index - 1);
        assert(slots.take(upto - 1).drop_last() =~= slots.take(upto - 2));
        lemma_readings_split(data, 0, before_stop, start);
        lemma_readings_split(data, 0, start, stop);
        lemma_readings_bounded(data, 0, before_stop);
        lemma_readings_bounded(data, 0, start);
        lemma_tally_of_concat(prefix, gap, name);
        lemma_tally_of_concat(prefix + gap, own, name);
        lemma_tally_of_concat(seen, own, name);
        lemma_tally_of_concat(between, gap, name);
    }
}

/// Completeness: where no line ends at a boundary, the workers and the
/// reconciling pass together take in as many readings as the text has lines,
/// and for every station they arrive at the tally of all its lines.
pub proof fn lemma_chunking_complete(data: Seq<u8>, workers: int)
    requires
        well_formed(data),
        data.len() <= usize::MAX,
        1 <= workers,
        boundaries_clear(data, workers),
    ensures
        chunked_readings(data, workers).len() == file_readings(data).len(),
        tallies(chunked_readings(data, workers)) == tallies(file_readings(data)),
{
    let seen = workers_readings(data, workers, workers);
    let between = interval_readings(data, boundary_slots(data, workers));
    let chunked = tallies(chunked_readings(data, workers));
    let whole = tallies(file_readings(data));
    lemma_chunked_readings(data, workers);
    assert(boundary_slots(data, workers).take(workers - 1) =~= boundary_slots(data, workers));
    lemma_prefix_complete(data, workers, workers, Seq::<u8>::empty());
    assert forall|name: Seq<u8>| #[trigger]
        tally_of(chunked_readings(data, workers), name) == tally_of(file_readings(data), name) by {
        lemma_prefix_complete(data, workers, workers, name);
        lemma_tally_of_concat(seen, between, name);
    }
    assert forall|name: Seq<u8>| #[trigger] chunked.dom().contains(name) == whole.dom().contains(
        name,
    ) by {
        assert(tally_of(chunked_readings(data, workers), name) == tally_of(
            file_readings(data),
            name,
        ));
    }
    assert forall|name: Seq<u8>| chunked.dom().contains(name) implies #[trigger] chunked[name]
        == whole[name] by {
        assert(tally_of(chunked_readings(data, workers), name) == tally_of(
            file_readings(data),
            name,
        ));
    }
    assert(chunked =~= whole);
}

/// The number of boundaries among the first `upto` at which a line ends.
pub open spec fn lines_lost(data: Seq<u8>, workers: int, upto: int) -> nat
    decreases upto,
{
    if upto <= 0 {
        0
    } else if line_ends_at_boundary(data, workers, upto - 1) {
        lines_lost(data, workers, upto - 1) + 1
    } else {
        lines_lost(data, workers, upto - 1)
    }
}

/// A worker that begins before a limit where a line can begin stops at the
/// line that ends at that limit.
pub proof fn lemma_stop_at_line_before(data: Seq<u8>, cursor: int, limit: int)
    requires
        is_cursor(data, cursor),
        is_cursor(data, limit),
        cursor < limit,
    ensures
        stop_from(data, cursor, limit) < limit,
        line_end(data, stop_from(data, cursor, limit)) == limit,
    decreases limit - cursor,
{
    lemma_line_end(data, cursor);
    if line_end(data, cursor) < limit {
        lemma_stop_at_line_before(data, line_end(data, cursor), limit);
    }
}

/// Where a line ends at the boundary, the interval behind the worker holds
/// two lines, of which the reconciling pass takes one.
pub proof fn lemma_interval_two_lines(data: Seq<u8>, workers: int, index: int)
    requires
        well_formed(data),
        data.len() <= usize::MAX,
        0 <= index < workers - 1,
        line_ends_at_boundary(data, workers, index),
    ensures
        readings_between(
            data,
            worker_stop(data, workers, index),
            worker_start(data, workers, index + 1),
        ).len() == 2,
        slot_readings(data, boundary_slot(data, workers, index)).len() == 1,
{
    let size = data.len() as int;
    let end = nominal_end(size, workers, index);
    let start = worker_start(data, workers, index);
    let stop = worker_stop(data, workers, index);
    let next = worker_start(data, workers, index + 1);
    lemma_partition_bounds(size, workers, index);
    lemma_partition_bounds(size, workers, index + 1);
    lemma_worker_order(data, workers, index);
    lemma_worker_order(data, workers, index + 1);
    lemma_stop_at_line_before(data, start, end);
    lemma_line_end(data, end);
    lemma_boundary_slot(data, workers, index);
    lemma_readings_split(data, stop, end, next);
    lemma_readings_one_line(data, stop);
    lemma_readings_one_line(data, end);
}

/// The first workers and the reconciling pass between them take in the lines
/// up to where the last of these workers stopped, but for one line for each
/// boundary at which a line ends.
pub proof fn lemma_prefix_count(data: Seq<u8>, workers: int, upto: int)
    requires
        well_formed(data),
        data.len() <= usize::MAX,
        1 <= upto <= workers,
    ensures
        workers_readings(data, workers, upto).len() + interval_readings(
            data,
            boundary_slots(data, workers).take(upto - 1),
        ).len() + lines_lost(data, workers, upto - 1) == readings_between(
            data,
            0,
            worker_stop(data, workers, upto - 1),
        ).len(),
    decreases upto,
{
    let slots = boundary_slots(data, workers);
    let index = upto - 1;
    let start = worker_start(data, workers, index);
    let stop = worker_stop(data, workers, index);
    lemma_worker_order(data, workers, index);
    if upto > 1 {
        let before_stop = worker_stop(data, workers, index - 1);
        lemma_prefix_count(data, workers, upto - 1);
        lemma_worker_order(data, workers, index - 1);
        if line_ends_at_boundary(data, workers, index - 1) {
            lemma_interval_two_lines(data, workers, index - 1);
        } else {
            lemma_interval_readings_exact(data, workers, index - 1);
        }
        assert(slots.take(upto - 1).drop_last() =~= slots.take(upto - 2));
        lemma_readings_split(data, 0, before_stop, start);
        lemma_readings_split(data, 0, start, stop);
    }
}

/// The chunked computation takes in every line of the text once, but for one
/// line for each boundary at which a line ends: that many it misses.
pub proof fn lemma_chunking_count(data: Seq<u8>, workers: int)
    requires
        well_formed(data),
        data.len() <= usize::MAX,
        1 <= workers,
    ensures
        chunked_readings(data, workers).len() + lines_lost(data, workers, workers - 1)
            == file_readings(data).len(),
{
    lemma_prefix_count(data, workers, workers);
    assert(boundary_slots(data, workers).take(workers - 1) =~= boundary_slots(data, workers));
}

/// A boundary at which a line ends is counted among the lines lost.
pub proof fn lemma_lines_lost_at(data: Seq<u8>, workers: int, upto: int, index: int)
    requires
        0 <= index < upto,
        line_ends_at_boundary(data, workers, index),
    ensures
        lines_lost(data, workers, upto) >= 1,
    decreases upto,
{
    if index < upto - 1 {
        lemma_lines_lost_at(data, workers, upto - 1, index);
    }
}

/// Where a line ends at a boundary, the chunked computation takes in fewer
/// readings than the text has lines.
pub proof fn lemma_boundary_loses_line(data: Seq<u8>, workers: int, index: int)
    requires
        well_formed(data),
        data.len() <= usize::MAX,
        0 <= index < workers - 1,
        line_ends_at_boundary(data, workers, index),
    ensures
        chunked_readings(data, workers).len() < file_readings(data).len(),
{
    lemma_chunking_count(data, workers);
    lemma_lines_lost_at(data, workers, workers - 1, index);
}

/// A well-formed text has as many readings, from any place where a line can
/// begin, as it has line terminators from there.
pub proof fn lemma_readings_count_lines(data: Seq<u8>, from: int)
    requires
        well_formed(data),
        is_cursor(data, from),
    ensures
        readings_between(data, from, data.len() as int).len() == line_count(
            data.subrange(from, data.len() as int),
        ),
    decreases data.len() - from,
{
    let size = data.len() as int;
    if from < size {
        let end = line_end(data, from);
        let line = line_at(data, from);
        lemma_line_end(data, from);
        lemma_readings_count_lines(data, end);
        lemma_find_from(line, NEWLINE, 0);
        lemma_count_of_none(line.drop_last(), NEWLINE);
        assert(data.subrange(from, size) =~= line + data.subrange(end, size));
        lemma_count_of_concat(line, data.subrange(end, size), NEWLINE);
    }
}

/// A well-formed text has as many readings as lines.
pub proof fn lemma_file_readings_count(data: Seq<u8>)
    requires
        well_formed(data),
    ensures
        file_readings(data).len() == line_count(data),
{
    lemma_readings_count_lines(data, 0);
    assert(data.subrange(0, data.len() as int) =~= data);
}

/// With one worker there is no boundary and no interval to reconcile: the
/// worker takes in the whole text.
pub proof fn lemma_single_worker(data: Seq<u8>)
    ensures
        boundaries_clear(data, 1),
        boundary_slots(data, 1).len() == 0,
        chunked_readings(data, 1) == file_readings(data),
{
    assert(workers_readings(data, 1, 0) =~= Seq::<Reading>::empty());
}

/// With more workers than bytes every range is empty, and no line ends at a
/// boundary.
pub proof fn lemma_more_workers_than_bytes(data: Seq<u8>, workers: int)
    requires
        data.len() < workers,
    ensures
        boundaries_clear(data, workers),
{
    assert forall|index: int| 0 <= index < workers - 1 implies !#[trigger] line_ends_at_boundary(
        data,
        workers,
        index,
    ) by {
        lemma_partition_bounds(data.len() as int, workers, index);
        lemma_worker_order(data, workers, index);
    }
}

} // verus!
