//! Scanning a byte text for a delimiter.

use vstd::prelude::*;

verus! {

/// The byte that ends a record.
pub const NEWLINE: u8 = 10;

/// The byte between a station's name and its temperature.
pub const SEMICOLON: u8 = 59;

/// Index of the first `byte` in `bytes` at or after `from`; `bytes.len()` where
/// there is none.
pub open spec fn find_from(bytes: Seq<u8>, byte: u8, from: int) -> int
    decreases bytes.len() - from,
{
    if from >= bytes.len() {
        bytes.len() as int
    } else if bytes[from] == byte {
        from
    } else {
        find_from(bytes, byte, from + 1)
    }
}

/// `find_from` returns the least index at or after `from` that holds `byte`.
pub proof fn lemma_find_from(bytes: Seq<u8>, byte: u8, from: int)
    requires
        0 <= from <= bytes.len(),
    ensures
        from <= find_from(bytes, byte, from) <= bytes.len(),
        find_from(bytes, byte, from) < bytes.len() ==> bytes[find_from(bytes, byte, from)] == byte,
        forall|k: int| from <= k < find_from(bytes, byte, from) ==> bytes[k] != byte,
    decreases bytes.len() - from,
{
    if from < bytes.len() && bytes[from] != byte {
        lemma_find_from(bytes, byte, from + 1);
    }
}

/// Any index that is preceded by no `byte` since `from`, and that holds one or
/// is the end of the text, is the one `find_from` returns.
pub proof fn lemma_find_from_unique(bytes: Seq<u8>, byte: u8, from: int, at: int)
    requires
        0 <= from <= at <= bytes.len(),
        forall|k: int| from <= k < at ==> bytes[k] != byte,
        at < bytes.len() ==> bytes[at] == byte,
    ensures
        find_from(bytes, byte, from) == at,
    decreases at - from,
{
    if from < at {
        lemma_find_from_unique(bytes, byte, from + 1, at);
    }
}

/// A search that starts inside a stretch free of `byte` ends where the search
/// from the stretch's start ends.
pub proof fn lemma_find_from_later(bytes: Seq<u8>, byte: u8, from: int, later: int)
    requires
        0 <= from <= later <= find_from(bytes, byte, from),
    ensures
        find_from(bytes, byte, later) == find_from(bytes, byte, from),
{
    lemma_find_from(bytes, byte, from);
    lemma_find_from_unique(bytes, byte, later, find_from(bytes, byte, from));
}

/// Searches `bytes` for `byte`, starting at `from`.
pub fn find(bytes: &[u8], byte: u8, from: usize) -> (at: usize)
    requires
        from <= bytes@.len(),
    ensures
        at == find_from(bytes@, byte, from as int),
{
    let mut at: usize = from;
    while at < bytes.len() && bytes[at] != byte
        invariant
            from <= at <= bytes@.len(),
            forall|k: int| from <= k < at ==> bytes@[k] != byte,
        decreases bytes@.len() - at,
    {
        at += 1;
    }
    proof {
        lemma_find_from_unique(bytes@, byte, from as int, at as int);
    }
    at
}

/// How often `byte` occurs in `bytes`.
pub open spec fn count_of(bytes: Seq<u8>, byte: u8) -> nat
    decreases bytes.len(),
{
    if bytes.len() == 0 {
        0
    } else if bytes.last() == byte {
        count_of(bytes.drop_last(), byte) + 1
    } else {
        count_of(bytes.drop_last(), byte)
    }
}

/// A byte occurs no more often than there are bytes.
pub proof fn lemma_count_of_bound(bytes: Seq<u8>, byte: u8)
    ensures
        count_of(bytes, byte) <= bytes.len(),
    decreases bytes.len(),
{
    if bytes.len() > 0 {
        lemma_count_of_bound(bytes.drop_last(), byte);
    }
}

/// What occurs in two texts, one behind the other, occurs as often as in both
/// together.
pub proof fn lemma_count_of_concat(a: Seq<u8>, b: Seq<u8>, byte: u8)
    ensures
        count_of(a + b, byte) == count_of(a, byte) + count_of(b, byte),
    decreases b.len(),
{
    if b.len() > 0 {
        assert((a + b).drop_last() =~= a + b.drop_last());
        lemma_count_of_concat(a, b.drop_last(), byte);
    }
}

/// A byte that stands nowhere occurs no times.
pub proof fn lemma_count_of_none(bytes: Seq<u8>, byte: u8)
    requires
        forall|k: int| 0 <= k < bytes.len() ==> bytes[k] != byte,
    ensures
        count_of(bytes, byte) == 0,
    decreases bytes.len(),
{
    if bytes.len() > 0 {
        lemma_count_of_none(bytes.drop_last(), byte);
    }
}

/// Counts how often `byte` occurs in `bytes`.
pub fn count(bytes: &[u8], byte: u8) -> (n: usize)
    ensures
        n == count_of(bytes@, byte),
{
    let mut n: usize = 0;
    let mut i: usize = 0;
    while i < bytes.len()
        invariant
            i <= bytes@.len(),
            n == count_of(bytes@.take(i as int), byte),
            n <= i,
        decreases bytes@.len() - i,
    {
        proof {
            assert(bytes@.take(i + 1).drop_last() =~= bytes@.take(i as int));
        }
        if bytes[i] == byte {
            n += 1;
        }
        i += 1;
    }
    proof {
        assert(bytes@.take(bytes@.len() as int) =~= bytes@);
    }
    n
}

} // verus!
