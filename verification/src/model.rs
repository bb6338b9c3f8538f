//! The mathematical model: sequences of entries in key order, and what it
//! means to look a key up in them or to cut an interval out of them.

use vstd::prelude::*;
use std::collections::Bound;
use crate::util::{lex_lt, lex_le, Item, MutationView, Buf, Interval, under_upper, over_lower,
    lemma_lex_trichotomy, lemma_lex_transitive};

verus! {

/// The keys of `es` ascend strictly.
pub open spec fn sorted(es: Seq<Item>) -> bool {
    forall|i: int, j: int| 0 <= i < j < es.len() ==> lex_lt(#[trigger] es[i].0, #[trigger] es[j].0)
}

/// Some entry of `es` has key `k`.
pub open spec fn has_key(es: Seq<Item>, k: Seq<u8>) -> bool {
    exists|i: int| 0 <= i < es.len() && #[trigger] es[i].0 == k
}

/// What `es` records against `k`: the mutation of the first entry with that
/// key, if there is one.
pub open spec fn find(es: Seq<Item>, k: Seq<u8>) -> Option<MutationView> {
    if has_key(es, k) {
        let i = choose|i: int| 0 <= i < es.len() && #[trigger] es[i].0 == k;
        Some(es[i].1)
    } else {
        None
    }
}

/// In a sorted sequence each key stands once, so looking up the key of an
/// entry finds that entry.
pub proof fn lemma_find_at(es: Seq<Item>, i: int)
    requires
        sorted(es),
        0 <= i < es.len(),
    ensures
        has_key(es, es[i].0),
        find(es, es[i].0) == Some(es[i].1),
{
    let k = es[i].0;
    let j = choose|j: int| 0 <= j < es.len() && #[trigger] es[j].0 == k;
    lemma_lex_trichotomy(k, k);
    if j < i {
        assert(lex_lt(es[j].0, es[i].0));
    } else if i < j {
        assert(lex_lt(es[i].0, es[j].0));
    }
}

/// Whether key `k` comes before `key`, or, if `inclusive`, is `key`.
pub open spec fn precedes(k: Seq<u8>, key: Seq<u8>, inclusive: bool) -> bool {
    lex_lt(k, key) || (inclusive && k == key)
}

pub open spec fn rank_from(es: Seq<Item>, key: Seq<u8>, inclusive: bool, i: int) -> int
    decreases es.len() - i,
{
    if 0 <= i < es.len() && precedes(es[i].0, key, inclusive) {
        rank_from(es, key, inclusive, i + 1)
    } else {
        i
    }
}

/// The number of leading entries of `es` whose keys come before `key` (or
/// are `key`, if `inclusive`). In a sorted sequence these are all such
/// entries.
pub open spec fn rank(es: Seq<Item>, key: Seq<u8>, inclusive: bool) -> int {
    rank_from(es, key, inclusive, 0)
}

pub proof fn lemma_rank_from(es: Seq<Item>, key: Seq<u8>, inclusive: bool, i: int)
    requires
        0 <= i <= es.len(),
    ensures
        i <= rank_from(es, key, inclusive, i) <= es.len(),
        forall|j: int|
            i <= j < rank_from(es, key, inclusive, i) ==> precedes(
                #[trigger] es[j].0,
                key,
                inclusive,
            ),
        rank_from(es, key, inclusive, i) < es.len() ==> !precedes(
            es[rank_from(es, key, inclusive, i)].0,
            key,
            inclusive,
        ),
    decreases es.len() - i,
{
    if i < es.len() && precedes(es[i].0, key, inclusive) {
        lemma_rank_from(es, key, inclusive, i + 1);
    }
}

/// In a sorted sequence the rank of a key splits the entries: those before
/// it precede the key, those from it on do not.
pub proof fn lemma_rank(es: Seq<Item>, key: Seq<u8>, inclusive: bool)
    requires
        sorted(es),
    ensures
        0 <= rank(es, key, inclusive) <= es.len(),
        forall|j: int|
            0 <= j < rank(es, key, inclusive) ==> precedes(#[trigger] es[j].0, key, inclusive),
        forall|j: int|
            rank(es, key, inclusive) <= j < es.len() ==> !precedes(
                #[trigger] es[j].0,
                key,
                inclusive,
            ),
{
    lemma_rank_from(es, key, inclusive, 0);
    let r = rank(es, key, inclusive);
    assert forall|j: int| r <= j < es.len() implies !precedes(
        #[trigger] es[j].0,
        key,
        inclusive,
    ) by {
        if r < j && precedes(es[j].0, key, inclusive) {
            assert(lex_lt(es[r].0, es[j].0));
            if lex_lt(es[j].0, key) {
                lemma_lex_transitive(es[r].0, es[j].0, key);
            }
        }
    }
}

/// The rank is the only index that splits a sequence in that way.
pub proof fn lemma_rank_unique(es: Seq<Item>, key: Seq<u8>, inclusive: bool, r: int, i: int)
    requires
        0 <= i <= r <= es.len(),
        forall|j: int| i <= j < r ==> precedes(#[trigger] es[j].0, key, inclusive),
        r < es.len() ==> !precedes(es[r].0, key, inclusive),
    ensures
        rank_from(es, key, inclusive, i) == r,
    decreases r - i,
{
    if i < r {
        assert(precedes(es[i].0, key, inclusive));
        lemma_rank_unique(es, key, inclusive, r, i + 1);
    }
}

/// The number of leading entries of `es` that are not over the lower bound.
pub open spec fn lower_index(es: Seq<Item>, bound: Bound<Buf>) -> int {
    match bound {
        Bound::Unbounded => 0,
        Bound::Included(s) => rank(es, s@, false),
        Bound::Excluded(s) => rank(es, s@, true),
    }
}

/// The number of leading entries of `es` that are under the upper bound.
pub open spec fn upper_index(es: Seq<Item>, bound: Bound<Buf>) -> int {
    match bound {
        Bound::Unbounded => es.len() as int,
        Bound::Included(s) => rank(es, s@, true),
        Bound::Excluded(s) => rank(es, s@, false),
    }
}

/// The end of the run of entries inside an interval: never before its start.
pub open spec fn range_end(es: Seq<Item>, interval: Interval<Buf>) -> int {
    if upper_index(es, interval.upper) < lower_index(es, interval.lower) {
        lower_index(es, interval.lower)
    } else {
        upper_index(es, interval.upper)
    }
}

/// The entries of the sorted sequence `es` whose keys lie inside `interval`,
/// in ascending order.
pub open spec fn range_entries(es: Seq<Item>, interval: Interval<Buf>) -> Seq<Item> {
    es.subrange(lower_index(es, interval.lower), range_end(es, interval))
}

/// In a sorted sequence, the entries over a lower bound are those from
/// `lower_index` on, and the entries under an upper bound those before
/// `upper_index`.
pub proof fn lemma_bound_indices(es: Seq<Item>, interval: Interval<Buf>)
    requires
        sorted(es),
    ensures
        0 <= lower_index(es, interval.lower) <= range_end(es, interval) <= es.len(),
        0 <= upper_index(es, interval.upper) <= es.len(),
        forall|j: int|
            0 <= j < es.len() ==> (over_lower(#[trigger] es[j].0, interval.lower) <==> lower_index(
                es,
                interval.lower,
            ) <= j),
        forall|j: int|
            0 <= j < es.len() ==> (under_upper(#[trigger] es[j].0, interval.upper) <==> j
                < upper_index(es, interval.upper)),
{
    match interval.lower {
        Bound::Unbounded => {},
        Bound::Included(s) => {
            lemma_rank(es, s@, false);
            assert forall|j: int| 0 <= j < es.len() implies (over_lower(
                #[trigger] es[j].0,
                interval.lower,
            ) <==> rank(es, s@, false) <= j) by {
                lemma_lex_trichotomy(es[j].0, s@);
            }
        },
        Bound::Excluded(s) => {
            lemma_rank(es, s@, true);
            assert forall|j: int| 0 <= j < es.len() implies (over_lower(
                #[trigger] es[j].0,
                interval.lower,
            ) <==> rank(es, s@, true) <= j) by {
                lemma_lex_trichotomy(es[j].0, s@);
            }
        },
    }
    match interval.upper {
        Bound::Unbounded => {},
        Bound::Included(s) => {
            lemma_rank(es, s@, true);
        },
        Bound::Excluded(s) => {
            lemma_rank(es, s@, false);
        },
    }
}

/// The entries that `range_entries` cuts out of a sorted sequence are
/// sorted, and they are exactly the entries whose keys lie inside the
/// interval.
pub proof fn lemma_range_entries(es: Seq<Item>, interval: Interval<Buf>)
    requires
        sorted(es),
    ensures
        sorted(range_entries(es, interval)),
        forall|i: int|
            0 <= i < range_entries(es, interval).len() ==> {
                &&& over_lower(#[trigger] range_entries(es, interval)[i].0, interval.lower)
                &&& under_upper(range_entries(es, interval)[i].0, interval.upper)
                &&& range_entries(es, interval)[i] == es[lower_index(es, interval.lower) + i]
            },
        forall|j: int|
            0 <= j < es.len() && over_lower(#[trigger] es[j].0, interval.lower) && under_upper(
                es[j].0,
                interval.upper,
            ) ==> lower_index(es, interval.lower) <= j < range_end(es, interval),
{
    lemma_bound_indices(es, interval);
    let lo = lower_index(es, interval.lower);
    let r = range_entries(es, interval);
    assert forall|i: int, j: int| 0 <= i < j < r.len() implies lex_lt(
        #[trigger] r[i].0,
        #[trigger] r[j].0,
    ) by {
        assert(r[i] == es[lo + i]);
        assert(r[j] == es[lo + j]);
    }
    assert forall|i: int| 0 <= i < r.len() implies {
        &&& over_lower(#[trigger] r[i].0, interval.lower)
        &&& under_upper(r[i].0, interval.upper)
        &&& r[i] == es[lo + i]
    } by {
        assert(r[i] == es[lo + i]);
    }
}

/// Intervals with the same bounds cut the same entries out of a run.
pub proof fn lemma_range_same(es: Seq<Item>, a: Interval<Buf>, b: Interval<Buf>)
    requires
        crate::util::same_interval(a, b),
    ensures
        range_entries(es, a) == range_entries(es, b),
        forall|k: Seq<u8>|
            #[trigger] crate::util::in_interval(k, a) == crate::util::in_interval(k, b),
{
}

/// An interval without bounds holds every entry.
pub proof fn lemma_range_all(es: Seq<Item>, interval: Interval<Buf>)
    requires
        interval.lower is Unbounded,
        interval.upper is Unbounded,
    ensures
        range_entries(es, interval) == es,
{
    assert(range_entries(es, interval) =~= es);
}

/// The run `m` cut at the places `bounds`: piece `j` holds the entries from
/// `bounds[j]` up to `bounds[j + 1]`.
pub open spec fn piece(m: Seq<Item>, bounds: Seq<int>, j: int) -> Seq<Item> {
    m.subrange(bounds[j], bounds[j + 1])
}

/// The places `bounds` cut the run `m` into pieces that hold an entry each:
/// they start at 0, ascend, and end at the end of `m`.
pub open spec fn cuts(m: Seq<Item>, bounds: Seq<int>) -> bool {
    cuts_upto(bounds, m.len() as int)
}

/// The places `bounds` start at 0, ascend, and end at `c`.
pub open spec fn cuts_upto(bounds: Seq<int>, c: int) -> bool {
    &&& bounds.len() >= 1
    &&& bounds[0] == 0
    &&& bounds.last() == c
    &&& forall|j: int| 0 <= j < bounds.len() - 1 ==> #[trigger] bounds[j] < bounds[j + 1]
}

pub proof fn lemma_cuts_monotone(m: Seq<Item>, bounds: Seq<int>, i: int, j: int)
    requires
        cuts(m, bounds),
        0 <= i <= j < bounds.len(),
    ensures
        bounds[i] <= bounds[j],
        i < j ==> bounds[i + 1] <= bounds[j],
    decreases j - i,
{
    if i < j {
        lemma_cuts_monotone(m, bounds, i + 1, j);
        assert(bounds[i] < bounds[i + 1]);
    }
}

pub proof fn lemma_cuts_ascend(m: Seq<Item>, bounds: Seq<int>, i: int, j: int)
    requires
        cuts(m, bounds),
        0 <= i <= j < bounds.len(),
    ensures
        0 <= bounds[i] <= bounds[j] <= m.len(),
        i < j ==> bounds[i + 1] <= bounds[j],
{
    lemma_cuts_monotone(m, bounds, 0, i);
    lemma_cuts_monotone(m, bounds, i, j);
    lemma_cuts_monotone(m, bounds, j, bounds.len() - 1);
}

proof fn lemma_locate(m: Seq<Item>, bounds: Seq<int>, p: int, k: int) -> (j: int)
    requires
        cuts(m, bounds),
        0 <= k < bounds.len() - 1,
        bounds[k] <= p < m.len(),
    ensures
        k <= j < bounds.len() - 1,
        bounds[j] <= p < bounds[j + 1],
    decreases bounds.len() - k,
{
    if p < bounds[k + 1] {
        k
    } else {
        if k + 1 == bounds.len() - 1 {
            assert(bounds[k + 1] == m.len());
        }
        lemma_locate(m, bounds, p, k + 1)
    }
}

/// The pieces of a sorted run are sorted, and a key stands in one of them
/// exactly when it stands in the run, with what the run records against
/// it; it stands in no two pieces.
pub proof fn lemma_pieces(m: Seq<Item>, bounds: Seq<int>, key: Seq<u8>)
    requires
        sorted(m),
        cuts(m, bounds),
    ensures
        forall|j: int| 0 <= j < bounds.len() - 1 ==> sorted(#[trigger] piece(m, bounds, j)),
        find(m, key) is None ==> forall|j: int|
            0 <= j < bounds.len() - 1 ==> find(#[trigger] piece(m, bounds, j), key) is None,
        find(m, key) is Some ==> exists|j: int|
            0 <= j < bounds.len() - 1 && find(#[trigger] piece(m, bounds, j), key) == find(m, key)
                && forall|o: int|
                0 <= o < bounds.len() - 1 && find(#[trigger] piece(m, bounds, o), key) is Some
                    ==> o == j,
{
    assert forall|j: int| 0 <= j < bounds.len() - 1 implies sorted(
        #[trigger] piece(m, bounds, j),
    ) by {
        lemma_cuts_ascend(m, bounds, j, j + 1);
        let c = piece(m, bounds, j);
        assert forall|a: int, b: int| 0 <= a < b < c.len() implies lex_lt(
            #[trigger] c[a].0,
            #[trigger] c[b].0,
        ) by {
            assert(c[a] == m[bounds[j] + a]);
            assert(c[b] == m[bounds[j] + b]);
        }
    }
    // Where a piece holds the key, the run holds it at the same place.
    assert forall|o: int|
        0 <= o < bounds.len() - 1 && find(#[trigger] piece(m, bounds, o), key) is Some implies exists|
        p: int,
    |
        bounds[o] <= p < bounds[o + 1] && 0 <= p < m.len() && m[p].0 == key by {
        lemma_cuts_ascend(m, bounds, o, o + 1);
        let c = piece(m, bounds, o);
        let q = choose|q: int| 0 <= q < c.len() && #[trigger] c[q].0 == key;
        assert(c[q] == m[bounds[o] + q]);
        assert(m[bounds[o] + q].0 == key);
    }
    if has_key(m, key) {
        let p = choose|p: int| 0 <= p < m.len() && #[trigger] m[p].0 == key;
        lemma_find_at(m, p);
        let j = lemma_locate(m, bounds, p, 0);
        lemma_cuts_ascend(m, bounds, j, j + 1);
        let c = piece(m, bounds, j);
        assert(c[p - bounds[j]] == m[p]);
        assert(sorted(c));
        lemma_find_at(c, p - bounds[j]);
        assert forall|o: int|
            0 <= o < bounds.len() - 1 && find(#[trigger] piece(m, bounds, o), key)
                is Some implies o == j by {
            let at2 = choose|at2: int|
                bounds[o] <= at2 < bounds[o + 1] && 0 <= at2 < m.len() && m[at2].0 == key;
            lemma_lex_trichotomy(key, key);
            if at2 < p {
                assert(lex_lt(m[at2].0, m[p].0));
            } else if p < at2 {
                assert(lex_lt(m[p].0, m[at2].0));
            }
            if o < j {
                lemma_cuts_ascend(m, bounds, o, j);
            } else if j < o {
                lemma_cuts_ascend(m, bounds, j, o);
            }
        }
    } else {
        assert forall|o: int| 0 <= o < bounds.len() - 1 implies find(
            #[trigger] piece(m, bounds, o),
            key,
        ) is None by {
            if find(piece(m, bounds, o), key) is Some {
                let at2 = choose|at2: int|
                    bounds[o] <= at2 < bounds[o + 1] && 0 <= at2 < m.len() && m[at2].0 == key;
                assert(has_key(m, key));
            }
        }
    }
}

} // verus!
