//! The partition planner: equal byte ranges, one per worker.

use vstd::prelude::*;

verus! {

/// The nominal byte range of one worker: from `start` up to, not including,
/// `end`.
#[derive(Clone, Copy, Debug, PartialEq, Eq, Structural)]
pub struct Partition {
    pub start: usize,
    pub end: usize,
}

/// The length of each worker's range: the size shared out evenly, the
/// remainder left over.
pub open spec fn section_len(size: int, workers: int) -> int {
    size / workers
}

/// Where the range of worker `index` begins.
pub open spec fn nominal_start(size: int, workers: int, index: int) -> int {
    index * section_len(size, workers)
}

/// Where the range of worker `index` ends.
pub open spec fn nominal_end(size: int, workers: int, index: int) -> int {
    (index + 1) * section_len(size, workers)
}

/// The ranges lie within the text, one behind the other.
pub proof fn lemma_partition_bounds(size: int, workers: int, index: int)
    requires
        0 <= size,
        0 <= index < workers,
    ensures
        0 <= section_len(size, workers),
        0 <= nominal_start(size, workers, index) <= nominal_end(size, workers, index) <= size,
        nominal_end(size, workers, index) - nominal_start(size, workers, index) == section_len(
            size,
            workers,
        ),
        nominal_end(size, workers, index) == nominal_start(size, workers, index + 1),
        size < workers ==> nominal_end(size, workers, index) == 0,
{
    let section = size / workers;
    assert(0 <= section && workers * section <= size && (size < workers ==> section == 0))
        by (nonlinear_arith)
        requires
            0 <= size,
            0 < workers,
            section == size / workers,
    ;
    assert(0 <= index * section <= (index + 1) * section <= workers * section && (index + 1)
        * section - index * section == section && (section == 0 ==> (index + 1) * section == 0))
        by (nonlinear_arith)
        requires
            0 <= index < workers,
            0 <= section,
    ;
}

/// The length of each worker's range.
pub fn section_size(size: usize, workers: usize) -> (section: usize)
    requires
        workers >= 1,
    ensures
        section == section_len(size as int, workers as int),
{
    size / workers
}

/// The nominal range of worker `index` among `workers`, over a text of `size`
/// bytes.
pub fn partition(size: usize, workers: usize, index: usize) -> (out: Partition)
    requires
        index < workers,
    ensures
        out.start == nominal_start(size as int, workers as int, index as int),
        out.end == nominal_end(size as int, workers as int, index as int),
        out.start <= out.end <= size,
{
    proof {
        lemma_partition_bounds(size as int, workers as int, index as int);
    }
    let section = size / workers;
    let start = index * section;
    Partition { start, end: start + section }
}

/// The nominal ranges of all workers, in their order.
pub fn plan_partitions(size: usize, workers: usize) -> (plan: Vec<Partition>)
    requires
        workers >= 1,
    ensures
        plan@.len() == workers,
        forall|i: int|
            0 <= i < workers ==> (#[trigger] plan@[i]).start == nominal_start(
                size as int,
                workers as int,
                i,
            ) && plan@[i].end == nominal_end(size as int, workers as int, i),
{
    let mut plan: Vec<Partition> = Vec::new();
    let mut index: usize = 0;
    while index < workers
        invariant
            index <= workers,
            plan@.len() == index,
            forall|i: int|
                0 <= i < index ==> (#[trigger] plan@[i]).start == nominal_start(
                    size as int,
                    workers as int,
                    i,
                ) && plan@[i].end == nominal_end(size as int, workers as int, i),
        decreases workers - index,
    {
        plan.push(partition(size, workers, index));
        index += 1;
    }
    plan
}

} // verus!
