//! The table of stations: one aggregate per name, kept in the order of the
//! names.

use vstd::prelude::*;
use vstd::slice::slice_to_vec;
use crate::aggregate::{StationAggregateTmp, Tally};
use crate::names::{
    lemma_name_lt_irreflexive,
    lemma_name_lt_total,
    lemma_name_lt_transitive,
    name_before,
    name_lt,
};
use crate::temperature::MAX_TENTHS;

verus! {

/// The tally of `name` in `tallies`: the identity where the station is absent.
pub open spec fn tally_in(tallies: Map<Seq<u8>, Tally>, name: Seq<u8>) -> Tally {
    if tallies.dom().contains(name) {
        tallies[name]
    } else {
        Tally::identity()
    }
}

/// The tallies of two tables taken together: a station that either holds, with
/// both its tallies merged.
pub open spec fn merged(a: Map<Seq<u8>, Tally>, b: Map<Seq<u8>, Tally>) -> Map<Seq<u8>, Tally> {
    Map::new(
        |name: Seq<u8>| a.dom().contains(name) || b.dom().contains(name),
        |name: Seq<u8>| tally_in(a, name).merge(tally_in(b, name)),
    )
}

/// Every station listed has a well-formed tally of at least one reading.
pub open spec fn tallies_wf(tallies: Map<Seq<u8>, Tally>) -> bool {
    forall|name: Seq<u8>| #[trigger]
        tallies.dom().contains(name) ==> tallies[name].wf() && tallies[name].count > 0
}

/// Each name comes strictly before those after it.
pub open spec fn ascending(names: Seq<Seq<u8>>) -> bool {
    forall|i: int, j: int|
        0 <= i < j < names.len() ==> name_lt(#[trigger] names[i], #[trigger] names[j])
}

/// Whether `name` stands in `names`.
pub open spec fn listed(names: Seq<Seq<u8>>, name: Seq<u8>) -> bool {
    exists|i: int| 0 <= i < names.len() && #[trigger] names[i] == name
}

/// A place at which `name` stands in `names`.
pub open spec fn place_of(names: Seq<Seq<u8>>, name: Seq<u8>) -> int {
    choose|i: int| 0 <= i < names.len() && #[trigger] names[i] == name
}

/// The map that sends each listed name to the tally at its place.
pub open spec fn paired(names: Seq<Seq<u8>>, tallies: Seq<Tally>) -> Map<Seq<u8>, Tally> {
    Map::new(|name: Seq<u8>| listed(names, name), |name: Seq<u8>| tallies[place_of(names, name)])
}

/// In an ascending list a name stands at one place only.
pub proof fn lemma_place(names: Seq<Seq<u8>>, i: int)
    requires
        ascending(names),
        0 <= i < names.len(),
    ensures
        listed(names, names[i]),
        place_of(names, names[i]) == i,
{
    let p = place_of(names, names[i]);
    assert(p < i ==> name_lt(names[p], names[i]));
    assert(p > i ==> name_lt(names[i], names[p]));
}

/// A name that is not before itself is listed nowhere among names that all
/// come before it or after it.
proof fn lemma_gap(names: Seq<Seq<u8>>, pos: int, name: Seq<u8>)
    requires
        ascending(names),
        0 <= pos <= names.len(),
        forall|i: int| 0 <= i < pos ==> name_lt(#[trigger] names[i], name),
        pos < names.len() ==> name_lt(name, names[pos]),
    ensures
        !listed(names, name),
        ascending(names.insert(pos, name)),
{
    lemma_name_lt_irreflexive(name);
    assert forall|j: int| pos <= j < names.len() implies name_lt(name, #[trigger] names[j]) by {
        if j > pos {
            assert(name_lt(names[pos], names[j]));
            lemma_name_lt_transitive(name, names[pos], names[j]);
        }
    }
    let longer = names.insert(pos, name);
    assert forall|i: int, j: int| 0 <= i < j < longer.len() implies name_lt(
        #[trigger] longer[i],
        #[trigger] longer[j],
    ) by {
        if i < pos && j > pos {
            assert(name_lt(names[i], names[j - 1]));
        } else if i < pos && j < pos {
            assert(name_lt(names[i], names[j]));
        } else if i > pos {
            assert(name_lt(names[i - 1], names[j - 1]));
        } else if i == pos {
            assert(name_lt(name, names[j - 1]));
        } else {
            assert(name_lt(names[i], name));
        }
    }
}

/// Putting a new name with its tally into both lists puts the pair into the
/// map.
proof fn lemma_paired_insert(
    names: Seq<Seq<u8>>,
    tallies: Seq<Tally>,
    pos: int,
    name: Seq<u8>,
    tally: Tally,
)
    requires
        ascending(names),
        ascending(names.insert(pos, name)),
        names.len() == tallies.len(),
        0 <= pos <= names.len(),
        !listed(names, name),
    ensures
        paired(names.insert(pos, name), tallies.insert(pos, tally)) == paired(
            names,
            tallies,
        ).insert(name, tally),
{
    let longer = names.insert(pos, name);
    let wider = tallies.insert(pos, tally);
    let before = paired(names, tallies);
    let after = paired(longer, wider);
    assert forall|n: Seq<u8>| after.dom().contains(n) <==> before.insert(name, tally).dom().contains(
        n,
    ) by {
        if listed(longer, n) {
            let i = place_of(longer, n);
            if i < pos {
                assert(names[i] == n);
            } else if i > pos {
                assert(names[i - 1] == n);
            }
        }
        if listed(names, n) {
            let j = place_of(names, n);
            if j < pos {
                assert(longer[j] == n);
            } else {
                assert(longer[j + 1] == n);
            }
        }
        if n == name {
            assert(longer[pos] == n);
        }
    }
    assert forall|n: Seq<u8>| after.dom().contains(n) implies #[trigger] after[n] == before.insert(
        name,
        tally,
    )[n] by {
        if n == name {
            lemma_place(longer, pos);
        } else {
            let j = place_of(names, n);
            if j < pos {
                lemma_place(longer, j);
            } else {
                lemma_place(longer, j + 1);
            }
        }
    }
    assert(after =~= before.insert(name, tally));
}

/// Replacing the tally at a place replaces the tally of the name at that
/// place.
proof fn lemma_paired_update(names: Seq<Seq<u8>>, tallies: Seq<Tally>, pos: int, tally: Tally)
    requires
        ascending(names),
        names.len() == tallies.len(),
        0 <= pos < names.len(),
    ensures
        paired(names, tallies.update(pos, tally)) == paired(names, tallies).insert(
            names[pos],
            tally,
        ),
{
    let before = paired(names, tallies);
    let after = paired(names, tallies.update(pos, tally));
    lemma_place(names, pos);
    assert forall|n: Seq<u8>| after.dom().contains(n) implies #[trigger] after[n] == before.insert(
        names[pos],
        tally,
    )[n] by {
        let p = place_of(names, n);
        assert(names[p] == n);
    }
    assert(after =~= before.insert(names[pos], tally));
}

/// One station of the result: its name and what was measured there, in tenths
/// of a degree. The mean temperature is `total` divided by `count`.
#[derive(Debug, PartialEq, Eq)]
pub struct StationAggregate {
    pub name: Vec<u8>,
    pub min: i64,
    pub max: i64,
    pub total: i128,
    pub count: u64,
}

/// A station's name with its tally.
pub struct Summary {
    pub name: Seq<u8>,
    pub tally: Tally,
}

impl View for StationAggregate {
    type V = Summary;

    /// The station as a name and plain numbers.
    open spec fn view(&self) -> Summary {
        Summary {
            name: self.name@,
            tally: Tally {
                min: self.min as int,
                max: self.max as int,
                total: self.total as int,
                count: self.count as nat,
            },
        }
    }
}

/// `out` lists the stations of `tallies`, each once with its tally, in the
/// order of their names.
pub open spec fn reports(out: Seq<StationAggregate>, tallies: Map<Seq<u8>, Tally>) -> bool {
    &&& forall|i: int, j: int|
        0 <= i < j < out.len() ==> name_lt(#[trigger] out[i]@.name, #[trigger] out[j]@.name)
    &&& forall|i: int|
        0 <= i < out.len() ==> tallies.dom().contains(#[trigger] out[i]@.name) && tallies[out[i]@.name]
            == out[i]@.tally
    &&& forall|name: Seq<u8>| #[trigger]
        tallies.dom().contains(name) ==> exists|i: int|
            0 <= i < out.len() && #[trigger] out[i]@.name == name
}

/// The aggregates of all stations seen so far.
pub struct StationTable {
    names: Vec<Vec<u8>>,
    tallies: Vec<StationAggregateTmp>,
}

impl View for StationTable {
    type V = Map<Seq<u8>, Tally>;

    /// The stations of the table, each with its tally.
    closed spec fn view(&self) -> Map<Seq<u8>, Tally> {
        paired(self.name_seq(), self.tally_seq())
    }
}

impl StationTable {
    /// The names in the table, in its order.
    closed spec fn name_seq(&self) -> Seq<Seq<u8>> {
        Seq::new(self.names@.len(), |i: int| self.names@[i]@)
    }

    /// The tallies in the table, each at the place of its name.
    closed spec fn tally_seq(&self) -> Seq<Tally> {
        Seq::new(self.tallies@.len(), |i: int| self.tallies@[i]@)
    }

    /// The names ascend, and each has a well-formed tally of at least one
    /// reading.
    pub closed spec fn wf(&self) -> bool {
        &&& self.names@.len() == self.tallies@.len()
        &&& ascending(self.name_seq())
        &&& forall|i: int|
            0 <= i < self.tallies@.len() ==> (#[trigger] self.tallies@[i])@.wf()
                && self.tallies@[i]@.count > 0
    }

    /// What a well-formed table holds is well formed, and within what its
    /// fields can hold.
    pub proof fn lemma_view_wf(&self)
        requires
            self.wf(),
        ensures
            tallies_wf(self@),
            forall|name: Seq<u8>|
                (#[trigger] tally_in(self@, name)).within_limits() && tally_in(self@, name).count
                    <= u64::MAX,
    {
        let names = self.name_seq();
        assert forall|name: Seq<u8>|
            (#[trigger] tally_in(self@, name)).within_limits() && tally_in(self@, name).count
                <= u64::MAX by {
            if self@.dom().contains(name) {
                let p = place_of(names, name);
                self.tallies@[p].lemma_view_limits();
            }
        }
    }

    /// A table without stations.
    pub fn new() -> (out: StationTable)
        ensures
            out.wf(),
            out@ == Map::<Seq<u8>, Tally>::empty(),
    {
        StationTable { names: Vec::new(), tallies: Vec::new() }
    }

    /// The first place whose name does not come before `name`.
    fn lower_bound(&self, name: &[u8]) -> (pos: usize)
        requires
            self.wf(),
        ensures
            pos <= self.name_seq().len(),
            forall|i: int| 0 <= i < pos ==> name_lt(#[trigger] self.name_seq()[i], name@),
            forall|i: int|
                pos <= i < self.name_seq().len() ==> !name_lt(#[trigger] self.name_seq()[i], name@),
    {
        let ghost names = self.name_seq();
        let mut lo: usize = 0;
        let mut hi: usize = self.names.len();
        while lo < hi
            invariant
                names == self.name_seq(),
                names.len() == self.names@.len(),
                ascending(names),
                lo <= hi <= names.len(),
                forall|i: int| 0 <= i < lo ==> name_lt(#[trigger] names[i], name@),
                forall|i: int| hi <= i < names.len() ==> !name_lt(#[trigger] names[i], name@),
            decreases hi - lo,
        {
            let mid: usize = lo + (hi - lo) / 2;
            if name_before(self.names[mid].as_slice(), name) {
                proof {
                    assert forall|i: int| 0 <= i < mid + 1 implies name_lt(
                        #[trigger] names[i],
                        name@,
                    ) by {
                        if i < mid {
                            lemma_name_lt_transitive(names[i], names[mid as int], name@);
                        }
                    }
                }
                lo = mid + 1;
            } else {
                proof {
                    assert forall|i: int| mid <= i < names.len() implies !name_lt(
                        #[trigger] names[i],
                        name@,
                    ) by {
                        if i > mid && name_lt(names[i], name@) {
                            lemma_name_lt_transitive(names[mid as int], names[i], name@);
                        }
                    }
                }
                hi = mid;
            }
        }
        lo
    }

    /// The aggregate of the station `name`, if the table has it.
    pub fn get(&self, name: &[u8]) -> (out: Option<StationAggregateTmp>)
        requires
            self.wf(),
        ensures
            out.is_some() == self@.dom().contains(name@),
            out.is_some() ==> out.unwrap()@ == self@[name@],
    {
        let pos = self.lower_bound(name);
        let ghost names = self.name_seq();
        if pos < self.names.len() && !name_before(name, self.names[pos].as_slice()) {
            proof {
                lemma_name_lt_total(name@, names[pos as int]);
            }
            Some(self.tallies[pos])
        } else {
            proof {
                lemma_gap(names, pos as int, name@);
            }
            None
        }
    }

    /// Merges `tally` into the aggregate of the station `name`, which enters
    /// the table if it is new.
    pub fn fold_in(&mut self, name: &[u8], tally: &StationAggregateTmp)
        requires
            old(self).wf(),
            tally@.wf(),
            tally@.count > 0,
            tally_in(old(self)@, name@).count + tally@.count <= u64::MAX,
        ensures
            final(self).wf(),
            final(self)@ == old(self)@.insert(name@, tally_in(old(self)@, name@).merge(tally@)),
    {
        let pos = self.lower_bound(name);
        let ghost names = self.name_seq();
        let ghost tallies = self.tally_seq();
        if pos < self.names.len() && !name_before(name, self.names[pos].as_slice()) {
            proof {
                lemma_name_lt_total(name@, names[pos as int]);
            }
            let mut merged_tally = self.tallies[pos];
            merged_tally.merge(tally);
            self.tallies[pos] = merged_tally;
        } else {
            proof {
                lemma_gap(names, pos as int, name@);
                lemma_paired_insert(names, tallies, pos as int, name@, tally@);
            }
            self.names.insert(pos, slice_to_vec(name));
            self.tallies.insert(pos, *tally);
            proof {
                assert(self.name_seq() =~= names.insert(pos as int, name@));
            }
        }
    }

    /// Takes in one reading of the station `name`.
    pub fn record(&mut self, name: &[u8], tenths: i64)
        requires
            old(self).wf(),
            tally_in(old(self)@, name@).count < u64::MAX,
            -MAX_TENTHS <= tenths <= MAX_TENTHS,
        ensures
            final(self).wf(),
            final(self)@ == old(self)@.insert(
                name@,
                tally_in(old(self)@, name@).observe(tenths as int),
            ),
    {
        let mut single = StationAggregateTmp::default();
        single.observe(tenths);
        self.fold_in(name, &single);
    }

    /// Takes in all the readings of `other`.
    pub fn merge(&mut self, other: &StationTable)
        requires
            old(self).wf(),
            other.wf(),
            forall|name: Seq<u8>|
                (#[trigger] tally_in(old(self)@, name)).count + tally_in(other@, name).count
                    <= u64::MAX,
        ensures
            final(self).wf(),
            final(self)@ == merged(old(self)@, other@),
    {
        let ghost names = other.name_seq();
        let ghost tallies = other.tally_seq();
        let n = other.names.len();
        let mut i: usize = 0;
        while i < n
            invariant
                i <= n,
                n == names.len(),
                n == other.names@.len(),
                other.wf(),
                names == other.name_seq(),
                tallies == other.tally_seq(),
                self.wf(),
                self@ == merged(old(self)@, paired(names.take(i as int), tallies.take(i as int))),
                forall|name: Seq<u8>|
                    (#[trigger] tally_in(old(self)@, name)).count + tally_in(other@, name).count
                        <= u64::MAX,
                forall|name: Seq<u8>| (#[trigger] tally_in(old(self)@, name)).within_limits(),
            decreases n - i,
        {
            let ghost name = names[i as int];
            let ghost tally = tallies[i as int];
            proof {
                assert(names.take(i + 1) =~= names.take(i as int).insert(i as int, name));
                assert(tallies.take(i + 1) =~= tallies.take(i as int).insert(i as int, tally));
                lemma_paired_insert(
                    names.take(i as int),
                    tallies.take(i as int),
                    i as int,
                    name,
                    tally,
                );
                assert(tally_in(old(self)@, name).count + tally_in(other@, name).count
                    <= u64::MAX);
            }
            self.fold_in(other.names[i].as_slice(), &other.tallies[i]);
            i += 1;
        }
        proof {
            assert(names.take(n as int) =~= names);
        }
    }

    /// The stations with their aggregates, in the order of their names.
    pub fn finalize(&self) -> (out: Vec<StationAggregate>)
        requires
            self.wf(),
        ensures
            reports(out@, self@),
    {
        let ghost names = self.name_seq();
        let n = self.names.len();
        let mut out: Vec<StationAggregate> = Vec::with_capacity(n);
        let mut i: usize = 0;
        while i < n
            invariant
                i <= n,
                n == self.names@.len(),
                self.wf(),
                names == self.name_seq(),
                out@.len() == i,
                forall|k: int|
                    0 <= k < i ==> (#[trigger] out@[k])@ == (Summary {
                        name: names[k],
                        tally: self.tally_seq()[k],
                    }),
            decreases n - i,
        {
            let tally = self.tallies[i];
            out.push(
                StationAggregate {
                    name: slice_to_vec(self.names[i].as_slice()),
                    min: tally.min(),
                    max: tally.max(),
                    total: tally.total(),
                    count: tally.count(),
                },
            );
            i += 1;
        }
        proof {
            assert forall|name: Seq<u8>| #[trigger] self@.dom().contains(name) implies exists|
                k: int,
            |
                0 <= k < out@.len() && #[trigger] out@[k]@.name == name by {
                let p = place_of(names, name);
                assert(out@[p]@.name == name);
            }
        }
        out
    }
}

} // verus!
