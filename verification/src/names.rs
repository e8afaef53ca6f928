//! The order of station names: byte by byte, a proper prefix first.

use vstd::prelude::*;

verus! {

/// The first index at or after `from` where `a` and `b` differ or one of them
/// ends.
pub open spec fn mismatch_from(a: Seq<u8>, b: Seq<u8>, from: int) -> int
    decreases a.len() - from,
{
    if from >= a.len() || from >= b.len() || a[from] != b[from] {
        from
    } else {
        mismatch_from(a, b, from + 1)
    }
}

/// The length of the longest common prefix of `a` and `b`.
pub open spec fn mismatch(a: Seq<u8>, b: Seq<u8>) -> int {
    mismatch_from(a, b, 0)
}

/// `a` comes strictly before `b`: at the first place where they part, `a` has
/// ended or holds the smaller byte.
pub open spec fn name_lt(a: Seq<u8>, b: Seq<u8>) -> bool {
    let k = mismatch(a, b);
    k < b.len() && (k == a.len() || a[k] < b[k])
}

/// Up to where two names part they agree byte by byte, and where they part
/// they differ unless one of them has ended.
pub proof fn lemma_mismatch_from(a: Seq<u8>, b: Seq<u8>, from: int)
    requires
        0 <= from <= a.len(),
        from <= b.len(),
    ensures
        from <= mismatch_from(a, b, from) <= a.len(),
        mismatch_from(a, b, from) <= b.len(),
        forall|k: int| from <= k < mismatch_from(a, b, from) ==> a[k] == b[k],
        mismatch_from(a, b, from) < a.len() && mismatch_from(a, b, from) < b.len() ==> a[mismatch_from(
            a,
            b,
            from,
        )] != b[mismatch_from(a, b, from)],
    decreases a.len() - from,
{
    if !(from >= a.len() || from >= b.len() || a[from] != b[from]) {
        lemma_mismatch_from(a, b, from + 1);
    }
}

/// A place up to which two names agree, and where they differ or one of them
/// ends, is where they part.
pub proof fn lemma_mismatch_unique(a: Seq<u8>, b: Seq<u8>, from: int, at: int)
    requires
        0 <= from <= at <= a.len(),
        at <= b.len(),
        forall|k: int| from <= k < at ==> a[k] == b[k],
        at < a.len() && at < b.len() ==> a[at] != b[at],
    ensures
        mismatch_from(a, b, from) == at,
    decreases at - from,
{
    if from < at {
        lemma_mismatch_unique(a, b, from + 1, at);
    }
}

/// No name comes before itself.
pub proof fn lemma_name_lt_irreflexive(a: Seq<u8>)
    ensures
        !name_lt(a, a),
{
}

/// Of two different names, one comes before the other.
pub proof fn lemma_name_lt_total(a: Seq<u8>, b: Seq<u8>)
    ensures
        name_lt(a, b) || name_lt(b, a) || a == b,
        !(name_lt(a, b) && name_lt(b, a)),
{
    lemma_mismatch_from(a, b, 0);
    let k = mismatch(a, b);
    lemma_mismatch_unique(b, a, 0, k);
    if !name_lt(a, b) && !name_lt(b, a) {
        assert(a =~= b);
    }
}

/// What comes before a name comes before all that the name comes before.
pub proof fn lemma_name_lt_transitive(a: Seq<u8>, b: Seq<u8>, c: Seq<u8>)
    requires
        name_lt(a, b),
        name_lt(b, c),
    ensures
        name_lt(a, c),
{
    lemma_mismatch_from(a, b, 0);
    lemma_mismatch_from(b, c, 0);
    let k1 = mismatch(a, b);
    let k2 = mismatch(b, c);
    let k = if k1 <= k2 {
        k1
    } else {
        k2
    };
    lemma_mismatch_unique(a, c, 0, k);
}

/// Whether `a` comes strictly before `b`.
pub fn name_before(a: &[u8], b: &[u8]) -> (before: bool)
    ensures
        before == name_lt(a@, b@),
{
    let mut i: usize = 0;
    while i < a.len() && i < b.len() && a[i] == b[i]
        invariant
            i <= a@.len(),
            i <= b@.len(),
            forall|k: int| 0 <= k < i ==> a@[k] == b@[k],
        decreases a@.len() - i,
    {
        i += 1;
    }
    proof {
        lemma_mismatch_unique(a@, b@, 0, i as int);
    }
    i < b.len() && (i == a.len() || a[i] < b[i])
}

} // verus!
