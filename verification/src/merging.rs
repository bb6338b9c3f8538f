//! What a merge of ordered runs yields: an ordered run that holds a key
//! exactly when one of the runs holds it, with what the first such run
//! records against it.

use vstd::prelude::*;
use crate::iter::{Direction, ahead, front_of, fronts_of, best_upto, frontmost, lemma_best_upto,
    advance, total_upto, lemma_advance_total, merged};
use crate::model::{find, has_key, sorted};
use crate::util::{Item, MutationView, lex_lt, lemma_lex_trichotomy, lemma_lex_transitive};

verus! {

/// A scan in direction `d` meets the keys of `run` in their order, each
/// once.
pub open spec fn ordered(run: Seq<Item>, d: Direction) -> bool {
    forall|i: int, j: int|
        0 <= i < j < run.len() ==> ahead(#[trigger] run[i].0, #[trigger] run[j].0, d)
}

/// Each of the runs is ordered.
pub open spec fn all_ordered(runs: Seq<Seq<Item>>, d: Direction) -> bool {
    forall|r: int| 0 <= r < runs.len() ==> ordered(#[trigger] runs[r], d)
}

/// What the runs `runs[i..]` record against `key`: what the first of them
/// that holds the key records.
pub open spec fn first_in_runs(runs: Seq<Seq<Item>>, i: int, key: Seq<u8>) -> Option<MutationView>
    decreases runs.len() - i,
{
    if i < 0 || i >= runs.len() {
        None
    } else {
        match find(runs[i], key) {
            Some(m) => Some(m),
            None => first_in_runs(runs, i + 1, key),
        }
    }
}

/// Of two keys, exactly one of these holds: the first is ahead, they are
/// equal, the second is ahead.
pub proof fn lemma_ahead_trichotomy(a: Seq<u8>, b: Seq<u8>, d: Direction)
    ensures
        ahead(a, b, d) || ahead(b, a, d) || a == b,
        !(ahead(a, b, d) && ahead(b, a, d)),
        a == b ==> !ahead(a, b, d),
{
    lemma_lex_trichotomy(a, b);
    lemma_lex_trichotomy(b, a);
}

/// Being ahead is transitive.
pub proof fn lemma_ahead_transitive(a: Seq<u8>, b: Seq<u8>, c: Seq<u8>, d: Direction)
    requires
        ahead(a, b, d),
        ahead(b, c, d),
    ensures
        ahead(a, c, d),
{
    match d {
        Direction::Forward => lemma_lex_transitive(a, b, c),
        Direction::Backward => lemma_lex_transitive(c, b, a),
    }
}

/// A run that ascends is ordered for a forward scan.
pub proof fn lemma_sorted_is_ordered(run: Seq<Item>)
    ensures
        sorted(run) == ordered(run, Direction::Forward),
        sorted(run) ==> ordered(run.reverse(), Direction::Backward),
{
    if sorted(run) {
        let rev = run.reverse();
        assert forall|i: int, j: int| 0 <= i < j < rev.len() implies ahead(
            #[trigger] rev[i].0,
            #[trigger] rev[j].0,
            Direction::Backward,
        ) by {
            assert(rev[i] == run[run.len() - 1 - i]);
            assert(rev[j] == run[run.len() - 1 - j]);
            assert(lex_lt(run[run.len() - 1 - j].0, run[run.len() - 1 - i].0));
        }
    }
}

/// In an ordered run each key stands once, so looking up the key of an
/// entry finds that entry.
pub proof fn lemma_find_in_ordered(run: Seq<Item>, d: Direction, i: int)
    requires
        ordered(run, d),
        0 <= i < run.len(),
    ensures
        has_key(run, run[i].0),
        find(run, run[i].0) == Some(run[i].1),
{
    let k = run[i].0;
    let j = choose|j: int| 0 <= j < run.len() && #[trigger] run[j].0 == k;
    lemma_ahead_trichotomy(k, k, d);
    if j < i {
        assert(ahead(run[j].0, run[i].0, d));
    } else if i < j {
        assert(ahead(run[i].0, run[j].0, d));
    }
}

/// An ordered run without its first entry is ordered, and holds the keys
/// that it held but that of the first entry.
pub proof fn lemma_skip_ordered(run: Seq<Item>, d: Direction)
    requires
        ordered(run, d),
        run.len() > 0,
    ensures
        ordered(run.skip(1), d),
        forall|key: Seq<u8>| key != run[0].0 ==> find(run.skip(1), key) == find(run, key),
        find(run.skip(1), run[0].0) is None,
{
    let rest = run.skip(1);
    assert forall|i: int, j: int| 0 <= i < j < rest.len() implies ahead(
        #[trigger] rest[i].0,
        #[trigger] rest[j].0,
        d,
    ) by {
        assert(rest[i] == run[i + 1]);
        assert(rest[j] == run[j + 1]);
    }
    assert forall|key: Seq<u8>| key != run[0].0 implies find(rest, key) == find(run, key) by {
        if has_key(run, key) {
            let j = choose|j: int| 0 <= j < run.len() && #[trigger] run[j].0 == key;
            lemma_find_in_ordered(run, d, j);
            assert(rest[j - 1] == run[j]);
            lemma_find_in_ordered(rest, d, j - 1);
        } else if has_key(rest, key) {
            let j = choose|j: int| 0 <= j < rest.len() && #[trigger] rest[j].0 == key;
            assert(run[j + 1].0 == key);
        }
    }
    if has_key(rest, run[0].0) {
        let j = choose|j: int| 0 <= j < rest.len() && #[trigger] rest[j].0 == run[0].0;
        assert(rest[j] == run[j + 1]);
        assert(ahead(run[0].0, run[j + 1].0, d));
        lemma_ahead_trichotomy(run[0].0, run[0].0, d);
    }
}

/// Where the frontmost front is `key`: it is the front of run `b`, no run
/// before `b` holds `key`, and no key of any run is ahead of it.
pub proof fn lemma_frontmost(runs: Seq<Seq<Item>>, d: Direction)
    requires
        all_ordered(runs, d),
    ensures
        match frontmost(fronts_of(runs), d) {
            None => forall|r: int| 0 <= r < runs.len() ==> (#[trigger] runs[r]).len() == 0,
            Some(b) => {
                &&& 0 <= b < runs.len()
                &&& runs[b].len() > 0
                &&& forall|r: int|
                    0 <= r < b ==> find(#[trigger] runs[r], runs[b][0].0) is None
                &&& forall|r: int, p: int|
                    0 <= r < runs.len() && 0 <= p < runs[r].len() ==> !ahead(
                        (#[trigger] runs[r][p]).0,
                        runs[b][0].0,
                        d,
                    )
            },
        },
{
    let fronts = fronts_of(runs);
    lemma_best_upto(fronts, d, runs.len() as int);
    match frontmost(fronts, d) {
        None => {
            assert forall|r: int| 0 <= r < runs.len() implies (#[trigger] runs[r]).len() == 0 by {
                assert(fronts[r] is None);
            }
        },
        Some(b) => {
            let k0 = runs[b][0].0;
            assert(fronts[b] == front_of(runs[b]));
            assert forall|r: int, p: int|
                0 <= r < runs.len() && 0 <= p < runs[r].len() implies !ahead(
                (#[trigger] runs[r][p]).0,
                k0,
                d,
            ) by {
                assert(fronts[r] == front_of(runs[r]));
                assert(fronts[r]->Some_0 == runs[r][0].0);
                assert(!ahead(fronts[r]->Some_0, fronts[b]->Some_0, d));
                if p > 0 {
                    assert(ordered(runs[r], d));
                    assert(ahead(runs[r][0].0, runs[r][p].0, d));
                    if ahead(runs[r][p].0, k0, d) {
                        lemma_ahead_transitive(runs[r][0].0, runs[r][p].0, k0, d);
                    }
                }
            }
            assert forall|r: int| 0 <= r < b implies find(#[trigger] runs[r], k0) is None by {
                if has_key(runs[r], k0) {
                    let p = choose|p: int| 0 <= p < runs[r].len() && #[trigger] runs[r][p].0 == k0;
                    assert(fronts[r] == front_of(runs[r]));
                    assert(ahead(fronts[b]->Some_0, fronts[r]->Some_0, d));
                    assert(!ahead(runs[r][p].0, k0, d));
                    lemma_ahead_trichotomy(k0, k0, d);
                    if p > 0 {
                        assert(ordered(runs[r], d));
                        assert(ahead(runs[r][0].0, runs[r][p].0, d));
                        lemma_ahead_trichotomy(runs[r][0].0, k0, d);
                    }
                }
            }
        },
    }
}

/// After a step of a merge at the frontmost key, the runs are ordered,
/// every key that they hold is behind that key, and they hold the keys that
/// they held but that key.
pub proof fn lemma_advance(runs: Seq<Seq<Item>>, d: Direction, b: int)
    requires
        all_ordered(runs, d),
        frontmost(fronts_of(runs), d) == Some(b),
    ensures
        all_ordered(advance(runs, runs[b][0].0), d),
        forall|r: int, p: int|
            0 <= r < runs.len() && 0 <= p < advance(runs, runs[b][0].0)[r].len() ==> ahead(
                runs[b][0].0,
                (#[trigger] advance(runs, runs[b][0].0)[r][p]).0,
                d,
            ),
        forall|r: int, key: Seq<u8>|
            0 <= r < runs.len() && key != runs[b][0].0 ==> #[trigger] find(
                advance(runs, runs[b][0].0)[r],
                key,
            ) == find(runs[r], key),
{
    lemma_frontmost(runs, d);
    let k0 = runs[b][0].0;
    let adv = advance(runs, k0);
    assert forall|r: int| 0 <= r < adv.len() implies ordered(#[trigger] adv[r], d) by {
        assert(ordered(runs[r], d));
        if front_of(runs[r]) == Some(k0) {
            lemma_skip_ordered(runs[r], d);
        }
    }
    assert forall|r: int, p: int| 0 <= r < runs.len() && 0 <= p < adv[r].len() implies ahead(
        k0,
        (#[trigger] adv[r][p]).0,
        d,
    ) by {
        assert(ordered(runs[r], d));
        if front_of(runs[r]) == Some(k0) {
            assert(adv[r][p] == runs[r][p + 1]);
            assert(ahead(runs[r][0].0, runs[r][p + 1].0, d));
        } else {
            assert(adv[r][p] == runs[r][p]);
            assert(!ahead(runs[r][p].0, k0, d));
            lemma_ahead_trichotomy(k0, runs[r][p].0, d);
            if runs[r][p].0 == k0 {
                assert(p > 0);
                assert(ahead(runs[r][0].0, runs[r][p].0, d));
                assert(!ahead(runs[r][0].0, k0, d));
            }
        }
    }
    assert forall|r: int, key: Seq<u8>| 0 <= r < runs.len() && key != k0 implies #[trigger] find(
        adv[r],
        key,
    ) == find(runs[r], key) by {
        assert(ordered(runs[r], d));
        if front_of(runs[r]) == Some(k0) {
            lemma_skip_ordered(runs[r], d);
        }
    }
}

/// What a merge is made of: the entry of the frontmost front, and the merge
/// of the runs after the step.
pub proof fn lemma_merged_unfold(runs: Seq<Seq<Item>>, d: Direction)
    ensures
        match frontmost(fronts_of(runs), d) {
            None => merged(runs, d) == Seq::<Item>::empty(),
            Some(b) => 0 <= b < runs.len() && runs[b].len() > 0 ==> merged(runs, d) == seq![
                runs[b][0],
            ] + merged(advance(runs, runs[b][0].0), d) && total_upto(
                advance(runs, runs[b][0].0),
                runs.len() as int,
            ) < total_upto(runs, runs.len() as int),
        },
{
    match frontmost(fronts_of(runs), d) {
        None => {},
        Some(b) => {
            if 0 <= b < runs.len() && runs[b].len() > 0 {
                lemma_advance_total(runs, runs[b][0].0, runs.len() as int);
                assert(front_of(runs[b]) == Some(runs[b][0].0));
            }
        },
    }
}

/// Ordering and content of a merge: a merge of ordered runs is ordered,
/// each of its entries is an entry of one of the runs, and it records
/// against a key what the first of the runs that holds the key records.
pub proof fn lemma_merged(runs: Seq<Seq<Item>>, d: Direction)
    requires
        all_ordered(runs, d),
    ensures
        ordered(merged(runs, d), d),
        forall|i: int|
            0 <= i < merged(runs, d).len() ==> exists|r: int, p: int|
                0 <= r < runs.len() && 0 <= p < runs[r].len() && #[trigger] runs[r][p]
                    == #[trigger] merged(runs, d)[i],
        forall|key: Seq<u8>| #[trigger] find(merged(runs, d), key) == first_in_runs(runs, 0, key),
    decreases total_upto(runs, runs.len() as int),
{
    let m = merged(runs, d);
    lemma_merged_unfold(runs, d);
    lemma_frontmost(runs, d);
    match frontmost(fronts_of(runs), d) {
        None => {
            assert forall|key: Seq<u8>| #[trigger]
                find(m, key) == first_in_runs(runs, 0, key) by {
                lemma_first_none(runs, 0, key);
            }
        },
        Some(b) => {
            let k0 = runs[b][0].0;
            let adv = advance(runs, k0);
            let rest = merged(adv, d);
            lemma_advance(runs, d, b);
            lemma_merged(adv, d);
            assert(m == seq![runs[b][0]] + rest);
            assert forall|i: int| 0 <= i < m.len() implies exists|r: int, p: int|
                0 <= r < runs.len() && 0 <= p < runs[r].len() && #[trigger] runs[r][p]
                    == #[trigger] m[i] by {
                if i == 0 {
                    assert(runs[b][0] == m[0]);
                } else {
                    assert(m[i] == rest[i - 1]);
                    let (r, p) = choose|r: int, p: int|
                        0 <= r < adv.len() && 0 <= p < adv[r].len() && #[trigger] adv[r][p]
                            == #[trigger] rest[i - 1];
                    if front_of(runs[r]) == Some(k0) {
                        assert(adv[r][p] == runs[r][p + 1]);
                        assert(runs[r][p + 1] == m[i]);
                    } else {
                        assert(adv[r][p] == runs[r][p]);
                        assert(runs[r][p] == m[i]);
                    }
                }
            }
            assert forall|i: int, j: int| 0 <= i < j < m.len() implies ahead(
                #[trigger] m[i].0,
                #[trigger] m[j].0,
                d,
            ) by {
                assert(m[j] == rest[j - 1]);
                if i == 0 {
                    let (r, p) = choose|r: int, p: int|
                        0 <= r < adv.len() && 0 <= p < adv[r].len() && #[trigger] adv[r][p]
                            == #[trigger] rest[j - 1];
                    assert(ahead(k0, adv[r][p].0, d));
                } else {
                    assert(m[i] == rest[i - 1]);
                }
            }
            assert forall|key: Seq<u8>| #[trigger]
                find(m, key) == first_in_runs(runs, 0, key) by {
                if key == k0 {
                    lemma_find_in_ordered(m, d, 0);
                    assert(ordered(runs[b], d));
                    lemma_find_in_ordered(runs[b], d, 0);
                    lemma_first_at(runs, 0, b, key);
                } else {
                    lemma_skip_ordered(m, d);
                    assert(m.skip(1) =~= rest);
                    assert(find(rest, key) == first_in_runs(adv, 0, key));
                    lemma_first_same(adv, runs, 0, key);
                }
            }
        },
    }
}

/// What the runs record against a key is what one of them records; and
/// where they record nothing, none of them holds the key.
pub proof fn lemma_first_in_runs(runs: Seq<Seq<Item>>, i: int, key: Seq<u8>)
    requires
        0 <= i <= runs.len(),
    ensures
        first_in_runs(runs, i, key) is None ==> forall|r: int|
            i <= r < runs.len() ==> find(#[trigger] runs[r], key) is None,
        first_in_runs(runs, i, key) is Some ==> exists|r: int|
            i <= r < runs.len() && find(#[trigger] runs[r], key) == first_in_runs(runs, i, key),
    decreases runs.len() - i,
{
    if i < runs.len() {
        lemma_first_in_runs(runs, i + 1, key);
        if find(runs[i], key) is Some {
            assert(find(runs[i], key) == first_in_runs(runs, i, key));
        } else if first_in_runs(runs, i, key) is Some {
            let r = choose|r: int|
                i + 1 <= r < runs.len() && find(#[trigger] runs[r], key) == first_in_runs(
                    runs,
                    i + 1,
                    key,
                );
            assert(find(runs[r], key) == first_in_runs(runs, i, key));
        }
    }
}

/// Where no run holds a key, the runs record nothing against it.
pub proof fn lemma_first_none(runs: Seq<Seq<Item>>, i: int, key: Seq<u8>)
    requires
        0 <= i,
        forall|r: int| i <= r < runs.len() ==> find(#[trigger] runs[r], key) is None,
    ensures
        first_in_runs(runs, i, key) is None,
    decreases runs.len() - i,
{
    if i < runs.len() {
        assert(find(runs[i], key) is None);
        lemma_first_none(runs, i + 1, key);
    }
}

/// Where run `j` holds a key and none before it does, the runs record
/// against the key what run `j` records.
pub proof fn lemma_first_at(runs: Seq<Seq<Item>>, i: int, j: int, key: Seq<u8>)
    requires
        0 <= i <= j < runs.len(),
        find(runs[j], key) is Some,
        forall|r: int| i <= r < j ==> find(#[trigger] runs[r], key) is None,
    ensures
        first_in_runs(runs, i, key) == find(runs[j], key),
    decreases j - i,
{
    if i < j {
        assert(find(runs[i], key) is None);
        lemma_first_at(runs, i + 1, j, key);
    }
}

/// Runs that record the same against a key, one by one, record the same
/// against it together.
pub proof fn lemma_first_same(a: Seq<Seq<Item>>, b: Seq<Seq<Item>>, i: int, key: Seq<u8>)
    requires
        0 <= i,
        a.len() == b.len(),
        forall|r: int| i <= r < a.len() ==> #[trigger] find(a[r], key) == find(b[r], key),
    ensures
        first_in_runs(a, i, key) == first_in_runs(b, i, key),
    decreases a.len() - i,
{
    if i < a.len() {
        assert(find(a[i], key) == find(b[i], key));
        lemma_first_same(a, b, i + 1, key);
    }
}

/// A merge yields no more entries than its runs hold.
pub proof fn lemma_merged_len(runs: Seq<Seq<Item>>, d: Direction)
    ensures
        merged(runs, d).len() <= total_upto(runs, runs.len() as int),
    decreases total_upto(runs, runs.len() as int),
{
    match frontmost(fronts_of(runs), d) {
        None => {},
        Some(b) => {
            if 0 <= b < runs.len() && runs[b].len() > 0 {
                let key = runs[b][0].0;
                let rest = advance(runs, key);
                lemma_advance_total(runs, key, runs.len() as int);
                assert(front_of(runs[b]) == Some(key));
                lemma_merged_len(rest, d);
                assert(rest.len() == runs.len());
            }
        },
    }
}

} // verus!
