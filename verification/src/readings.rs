//! Readings and the tallies they add up to.

use vstd::prelude::*;
use crate::aggregate::Tally;
use crate::table::{merged, tally_in};
use crate::temperature::MAX_TENTHS;

verus! {

/// One record of the text: a station's name and a temperature in tenths of a
/// degree.
pub struct Reading {
    pub name: Seq<u8>,
    pub tenths: int,
}

/// Every temperature lies within `MAX_TENTHS` of zero.
pub open spec fn bounded(readings: Seq<Reading>) -> bool {
    forall|i: int|
        0 <= i < readings.len() ==> -MAX_TENTHS <= (#[trigger] readings[i]).tenths <= MAX_TENTHS
}

/// The tally of the station `name` over `readings`.
pub open spec fn tally_of(readings: Seq<Reading>, name: Seq<u8>) -> Tally
    decreases readings.len(),
{
    if readings.len() == 0 {
        Tally::identity()
    } else if readings.last().name == name {
        tally_of(readings.drop_last(), name).observe(readings.last().tenths)
    } else {
        tally_of(readings.drop_last(), name)
    }
}

/// The tallies of all stations that occur in `readings`.
pub open spec fn tallies(readings: Seq<Reading>) -> Map<Seq<u8>, Tally> {
    Map::new(
        |name: Seq<u8>| tally_of(readings, name).count > 0,
        |name: Seq<u8>| tally_of(readings, name),
    )
}

/// The tally of bounded readings is well formed and counts no more readings
/// than there are.
pub proof fn lemma_tally_of_wf(readings: Seq<Reading>, name: Seq<u8>)
    requires
        bounded(readings),
    ensures
        tally_of(readings, name).wf(),
        tally_of(readings, name).within_limits(),
        tally_of(readings, name).count <= readings.len(),
    decreases readings.len(),
{
    if readings.len() > 0 {
        let front = readings.drop_last();
        assert forall|i: int| 0 <= i < front.len() implies -MAX_TENTHS <= (
        #[trigger] front[i]).tenths <= MAX_TENTHS by {
            assert(front[i] == readings[i]);
        }
        lemma_tally_of_wf(front, name);
        let before = tally_of(front, name);
        let last = readings.last();
        assert(-MAX_TENTHS <= last.tenths <= MAX_TENTHS);
        assert((before.count + 1) * MAX_TENTHS == before.count * MAX_TENTHS + MAX_TENTHS)
            by (nonlinear_arith);
        assert(-(before.count + 1) * MAX_TENTHS == -before.count * MAX_TENTHS - MAX_TENTHS)
            by (nonlinear_arith);
    }
}

/// A station's tally in the map of tallies is its tally over the readings.
pub proof fn lemma_tally_in_tallies(readings: Seq<Reading>, name: Seq<u8>)
    requires
        bounded(readings),
    ensures
        tally_in(tallies(readings), name) == tally_of(readings, name),
{
    lemma_tally_of_wf(readings, name);
}

/// Two runs of bounded readings, one after the other, are bounded.
pub proof fn lemma_bounded_concat(a: Seq<Reading>, b: Seq<Reading>)
    requires
        bounded(a),
        bounded(b),
    ensures
        bounded(a + b),
{
}

/// The tally over two runs of readings is the merge of the tallies over each.
pub proof fn lemma_tally_of_concat(a: Seq<Reading>, b: Seq<Reading>, name: Seq<u8>)
    requires
        bounded(a),
    ensures
        tally_of(a + b, name) == tally_of(a, name).merge(tally_of(b, name)),
    decreases b.len(),
{
    if b.len() == 0 {
        lemma_tally_of_wf(a, name);
    } else {
        assert((a + b).drop_last() =~= a + b.drop_last());
        lemma_tally_of_concat(a, b.drop_last(), name);
    }
}

/// The tallies of two runs of readings, one after the other, are the merged
/// tallies of each.
pub proof fn lemma_tallies_concat(a: Seq<Reading>, b: Seq<Reading>)
    requires
        bounded(a),
        bounded(b),
    ensures
        tallies(a + b) == merged(tallies(a), tallies(b)),
{
    let whole = tallies(a + b);
    let parts = merged(tallies(a), tallies(b));
    assert forall|name: Seq<u8>| #[trigger] whole.dom().contains(name) == parts.dom().contains(
        name,
    ) by {
        lemma_tally_of_concat(a, b, name);
    }
    assert forall|name: Seq<u8>| whole.dom().contains(name) implies #[trigger] whole[name]
        == parts[name] by {
        lemma_tally_of_concat(a, b, name);
        lemma_tally_of_wf(a, name);
        lemma_tally_of_wf(b, name);
    }
}

/// One more reading changes the tally of its station alone, by that reading.
pub proof fn lemma_tallies_push(readings: Seq<Reading>, reading: Reading)
    requires
        bounded(readings),
    ensures
        tallies(readings.push(reading)) == tallies(readings).insert(
            reading.name,
            tally_in(tallies(readings), reading.name).observe(reading.tenths),
        ),
{
    let longer = readings.push(reading);
    assert(longer.drop_last() =~= readings);
    let expected = tallies(readings).insert(
        reading.name,
        tally_in(tallies(readings), reading.name).observe(reading.tenths),
    );
    let after = tallies(longer);
    assert forall|name: Seq<u8>| after.dom().contains(name) implies #[trigger] after[name]
        == expected[name] by {
        lemma_tally_of_wf(readings, name);
    }
}

/// The tallies of no reading: no station at all.
pub proof fn lemma_tallies_empty()
    ensures
        tallies(Seq::<Reading>::empty()) == Map::<Seq<u8>, Tally>::empty(),
{
}

} // verus!
