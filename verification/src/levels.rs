//! The tables of a store as a mathematical value, and what the tables
//! record against a key: the levels are asked from the least on, and in a
//! level the tables from the greatest number down.

use vstd::prelude::*;
use crate::model::find;
use crate::util::{Item, MutationView};

verus! {

/// A table: its level and its entries.
pub struct TableData {
    pub level: u64,
    pub items: Seq<Item>,
}

/// The live tables by their numbers.
pub type Tables = Map<u64, TableData>;

/// Table `id` is a table of level `level` that holds `key`.
pub open spec fn hit(t: Tables, level: u64, id: u64, key: Seq<u8>) -> bool {
    &&& t.contains_key(id)
    &&& t[id].level == level
    &&& find(t[id].items, key) is Some
}

/// Some table of level `level` holds `key`.
pub open spec fn level_hit(t: Tables, level: u64, key: Seq<u8>) -> bool {
    exists|id: u64| hit(t, level, id, key)
}

/// What level `level` records against `key`: what the table with the
/// greatest number among its tables that hold the key records.
pub open spec fn level_lookup(t: Tables, level: u64, key: Seq<u8>) -> Option<MutationView> {
    if level_hit(t, level, key) {
        let id = choose|id: u64|
            hit(t, level, id, key) && forall|o: u64| hit(t, level, o, key) ==> o <= id;
        find(t[id].items, key)
    } else {
        None
    }
}

/// What the tables record against `key`: what the least level that holds
/// the key records.
pub open spec fn disk_lookup(t: Tables, key: Seq<u8>) -> Option<MutationView> {
    if exists|level: u64| level_hit(t, level, key) {
        let level = choose|level: u64|
            level_hit(t, level, key) && forall|o: u64| level_hit(t, o, key) ==> level <= o;
        level_lookup(t, level, key)
    } else {
        None
    }
}

/// Table `id` of level `level` is the one that answers for `key`: it holds
/// the key, no table of a lesser level holds it, and no table of its level
/// with a greater number holds it.
pub open spec fn answers(t: Tables, level: u64, id: u64, key: Seq<u8>) -> bool {
    &&& hit(t, level, id, key)
    &&& forall|l: u64, o: u64| #[trigger] hit(t, l, o, key) ==> level <= l
    &&& forall|o: u64| #[trigger] hit(t, level, o, key) ==> o <= id
}

/// From level 1 on, no key stands in two tables of a level.
pub open spec fn levels_disjoint(t: Tables) -> bool {
    forall|level: u64, a: u64, b: u64, key: Seq<u8>|
        level >= 1 && #[trigger] hit(t, level, a, key) && #[trigger] hit(t, level, b, key) ==> a
            == b
}

/// Of the numbers with a property, one is the greatest.
pub proof fn lemma_greatest(p: spec_fn(u64) -> bool, w: u64) -> (m: u64)
    requires
        p(w),
    ensures
        p(m),
        forall|o: u64| #[trigger] p(o) ==> o <= m,
    decreases u64::MAX - w,
{
    if exists|o: u64| #[trigger] p(o) && o > w {
        let o = choose|o: u64| #[trigger] p(o) && o > w;
        lemma_greatest(p, o)
    } else {
        w
    }
}

/// Of the numbers with a property, one is the least.
pub proof fn lemma_least(p: spec_fn(u64) -> bool, w: u64) -> (m: u64)
    requires
        p(w),
    ensures
        p(m),
        forall|o: u64| #[trigger] p(o) ==> m <= o,
    decreases w,
{
    if exists|o: u64| #[trigger] p(o) && o < w {
        let o = choose|o: u64| #[trigger] p(o) && o < w;
        lemma_least(p, o)
    } else {
        w
    }
}

/// What the table that answers for a key records is what the tables record
/// against the key.
pub proof fn lemma_answer_is_lookup(t: Tables, level: u64, id: u64, key: Seq<u8>)
    requires
        answers(t, level, id, key),
    ensures
        disk_lookup(t, key) == find(t[id].items, key),
        level_lookup(t, level, key) == find(t[id].items, key),
{
    assert(level_hit(t, level, key));
    let l = choose|l: u64|
        level_hit(t, l, key) && forall|o: u64| level_hit(t, o, key) ==> l <= o;
    assert forall|o: u64| level_hit(t, o, key) implies level <= o by {
        let x = choose|x: u64| hit(t, o, x, key);
        assert(hit(t, o, x, key));
    }
    assert(l == level);
    let c = choose|c: u64|
        hit(t, level, c, key) && forall|o: u64| hit(t, level, o, key) ==> o <= c;
    assert(c == id);
}

/// The table with the greatest number among the tables of a level that
/// hold a key is the one that the level answers by.
pub proof fn lemma_level_top(t: Tables, level: u64, id: u64, key: Seq<u8>)
    requires
        hit(t, level, id, key),
        forall|o: u64| hit(t, level, o, key) ==> o <= id,
    ensures
        level_hit(t, level, key),
        level_lookup(t, level, key) == find(t[id].items, key),
{
    let c = choose|c: u64|
        hit(t, level, c, key) && forall|o: u64| hit(t, level, o, key) ==> o <= c;
    assert(c == id);
}

/// The least level that holds a key is the one that the tables answer by.
pub proof fn lemma_first_level(t: Tables, level: u64, key: Seq<u8>)
    requires
        level_hit(t, level, key),
        forall|o: u64| level_hit(t, o, key) ==> level <= o,
    ensures
        disk_lookup(t, key) == level_lookup(t, level, key),
{
    let c = choose|c: u64|
        level_hit(t, c, key) && forall|o: u64| level_hit(t, o, key) ==> c <= o;
    assert(c == level);
}

/// Where no level holds a key, the tables record nothing against it.
pub proof fn lemma_no_level(t: Tables, key: Seq<u8>)
    requires
        forall|o: u64| !level_hit(t, o, key),
    ensures
        disk_lookup(t, key) is None,
{
}

/// Where no table holds a key, the tables record nothing against it.
pub proof fn lemma_no_hit_no_lookup(t: Tables, key: Seq<u8>)
    requires
        forall|l: u64, o: u64| !hit(t, l, o, key),
    ensures
        disk_lookup(t, key) is None,
{
    if exists|level: u64| level_hit(t, level, key) {
        let level = choose|level: u64| level_hit(t, level, key);
        let x = choose|x: u64| hit(t, level, x, key);
        assert(hit(t, level, x, key));
    }
}

/// Where a table holds a key, some table answers for the key.
pub proof fn lemma_answer_exists(t: Tables, l0: u64, o0: u64, key: Seq<u8>) -> (r: (u64, u64))
    requires
        hit(t, l0, o0, key),
    ensures
        answers(t, r.0, r.1, key),
{
    let p = |l: u64| level_hit(t, l, key);
    assert(p(l0));
    let level = lemma_least(p, l0);
    assert(level_hit(t, level, key));
    let x = choose|x: u64| hit(t, level, x, key);
    let q = |o: u64| hit(t, level, o, key);
    assert(q(x));
    let id = lemma_greatest(q, x);
    assert forall|l: u64, o: u64| #[trigger] hit(t, l, o, key) implies level <= l by {
        assert(p(l));
    }
    assert forall|o: u64| #[trigger] hit(t, level, o, key) implies o <= id by {
        assert(q(o));
    }
    (level, id)
}

/// A new table of level 0 with a number above all others answers for the
/// keys that it holds; for the others the tables answer as before.
pub proof fn lemma_add_top(t: Tables, n: u64, items: Seq<Item>, key: Seq<u8>)
    requires
        forall|id: u64| t.contains_key(id) ==> id < n,
    ensures
        disk_lookup(t.insert(n, TableData { level: 0, items: items }), key) == (match find(
            items,
            key,
        ) {
            Some(m) => Some(m),
            None => disk_lookup(t, key),
        }),
{
    let t2 = t.insert(n, TableData { level: 0, items: items });
    if find(items, key) is Some {
        assert(hit(t2, 0, n, key));
        assert forall|o: u64| #[trigger] hit(t2, 0, o, key) implies o <= n by {
            if o != n {
                assert(t.contains_key(o));
            }
        }
        lemma_answer_is_lookup(t2, 0, n, key);
    } else {
        assert forall|l: u64, o: u64| hit(t2, l, o, key) == hit(t, l, o, key) by {
            if o != n {
                assert(t2[o] == t[o]);
            }
        }
        if exists|l: u64, o: u64| hit(t, l, o, key) {
            let (l, o) = choose|l: u64, o: u64| hit(t, l, o, key);
            let r = lemma_answer_exists(t, l, o, key);
            lemma_answer_is_lookup(t, r.0, r.1, key);
            assert(hit(t2, r.0, r.1, key));
            assert(answers(t2, r.0, r.1, key));
            lemma_answer_is_lookup(t2, r.0, r.1, key);
        } else {
            lemma_no_hit_no_lookup(t, key);
            lemma_no_hit_no_lookup(t2, key);
        }
    }
}

/// A new table of level 0 leaves the levels from 1 on as they are.
pub proof fn lemma_add_top_disjoint(t: Tables, n: u64, items: Seq<Item>)
    requires
        levels_disjoint(t),
        !t.contains_key(n),
    ensures
        levels_disjoint(t.insert(n, TableData { level: 0, items: items })),
{
    let t2 = t.insert(n, TableData { level: 0, items: items });
    assert forall|level: u64, a: u64, b: u64, key: Seq<u8>|
        level >= 1 && #[trigger] hit(t2, level, a, key) && #[trigger] hit(
            t2,
            level,
            b,
            key,
        ) implies a == b by {
        assert(hit(t, level, a, key));
        assert(hit(t, level, b, key));
    }
}

/// Two runs hold no key in common.
pub open spec fn key_disjoint(a: Seq<Item>, b: Seq<Item>) -> bool {
    forall|key: Seq<u8>| !(#[trigger] find(a, key) is Some && #[trigger] find(b, key) is Some)
}

/// The tables after the tables `s` of level `level` were moved down by a
/// level as they are.
pub open spec fn moved_down(t: Tables, s: Set<u64>, level: u64) -> Tables {
    Map::new(
        |id: u64| t.contains_key(id),
        |id: u64|
            if s.contains(id) {
                TableData { level: (level + 1) as u64, items: t[id].items }
            } else {
                t[id]
            },
    )
}

/// What must hold of tables that are moved down as they are: they are
/// tables of their level, hold no key in common with one another or with a
/// table of the next level, and, at level 0, are older than the tables that
/// stay.
pub open spec fn may_move_down(t: Tables, s: Set<u64>, level: u64) -> bool {
    &&& level < u64::MAX
    &&& forall|id: u64| s.contains(id) ==> t.contains_key(id) && t[id].level == level
    &&& forall|a: u64, b: u64|
        s.contains(a) && s.contains(b) && a != b ==> key_disjoint(
            #[trigger] t[a].items,
            #[trigger] t[b].items,
        )
    &&& forall|a: u64, o: u64|
        s.contains(a) && t.contains_key(o) && t[o].level == level + 1 ==> key_disjoint(
            #[trigger] t[a].items,
            #[trigger] t[o].items,
        )
    &&& level == 0 ==> forall|a: u64, o: u64|
        #![trigger s.contains(a), t.contains_key(o)]
        s.contains(a) && t.contains_key(o) && t[o].level == 0 && !s.contains(o) ==> a < o
}

/// Moving tables down as they are changes nothing of what the tables
/// record against a key.
pub proof fn lemma_move_down(t: Tables, s: Set<u64>, level: u64, key: Seq<u8>)
    requires
        levels_disjoint(t),
        may_move_down(t, s, level),
    ensures
        disk_lookup(moved_down(t, s, level), key) == disk_lookup(t, key),
{
    let t2 = moved_down(t, s, level);
    let down = (level + 1) as u64;
    assert forall|l: u64, o: u64| #[trigger] hit(t2, l, o, key) implies (if s.contains(o) {
        hit(t, level, o, key) && l == down
    } else {
        hit(t, l, o, key)
    }) by {}
    if exists|l: u64, o: u64| hit(t, l, o, key) {
        let (l0, o0) = choose|l: u64, o: u64| hit(t, l, o, key);
        let r = lemma_answer_exists(t, l0, o0, key);
        let la = r.0;
        let ida = r.1;
        lemma_answer_is_lookup(t, la, ida, key);
        if !s.contains(ida) {
            assert(hit(t2, la, ida, key));
            assert forall|l: u64, o: u64| #[trigger] hit(t2, l, o, key) implies la <= l by {
                if s.contains(o) {
                    assert(hit(t, level, o, key));
                }
            }
            assert forall|o: u64| #[trigger] hit(t2, la, o, key) implies o <= ida by {
                if s.contains(o) {
                    // A moved table that holds the key held it one level
                    // up, above the level that answers.
                    assert(hit(t, level, o, key));
                    assert(la <= level);
                    assert(false);
                } else {
                    assert(hit(t, la, o, key));
                }
            }
            lemma_answer_is_lookup(t2, la, ida, key);
        } else {
            assert(la == level);
            assert(hit(t2, down, ida, key));
            assert forall|l: u64, o: u64| #[trigger] hit(t2, l, o, key) implies down <= l by {
                if s.contains(o) {
                } else {
                    assert(hit(t, l, o, key));
                    assert(level <= l);
                    if l == level {
                        if level >= 1 {
                            assert(hit(t, level, ida, key));
                            assert(o == ida);
                        } else {
                            assert(o <= ida);
                            assert(ida < o);
                        }
                    }
                }
            }
            assert forall|o: u64| #[trigger] hit(t2, down, o, key) implies o <= ida by {
                if s.contains(o) {
                    if o != ida {
                        assert(key_disjoint(t[o].items, t[ida].items));
                        assert(find(t[o].items, key) is Some);
                        assert(find(t[ida].items, key) is Some);
                    }
                } else {
                    assert(hit(t, down, o, key));
                    assert(key_disjoint(t[ida].items, t[o].items));
                    assert(find(t[o].items, key) is Some);
                    assert(find(t[ida].items, key) is Some);
                }
            }
            lemma_answer_is_lookup(t2, down, ida, key);
        }
    } else {
        lemma_no_hit_no_lookup(t, key);
        assert forall|l: u64, o: u64| !hit(t2, l, o, key) by {
            if hit(t2, l, o, key) {
                if s.contains(o) {
                    assert(hit(t, level, o, key));
                } else {
                    assert(hit(t, l, o, key));
                }
            }
        }
        lemma_no_hit_no_lookup(t2, key);
    }
}

/// Moving tables down as they are leaves no key in two tables of a level
/// from 1 on.
pub proof fn lemma_move_down_disjoint(t: Tables, s: Set<u64>, level: u64)
    requires
        levels_disjoint(t),
        may_move_down(t, s, level),
    ensures
        levels_disjoint(moved_down(t, s, level)),
{
    let t2 = moved_down(t, s, level);
    let down = (level + 1) as u64;
    assert forall|l: u64, a: u64, b: u64, key: Seq<u8>|
        l >= 1 && #[trigger] hit(t2, l, a, key) && #[trigger] hit(t2, l, b, key) implies a
        == b by {
        if a != b {
            assert(find(t[a].items, key) is Some);
            assert(find(t[b].items, key) is Some);
            if s.contains(a) && s.contains(b) {
                assert(key_disjoint(t[a].items, t[b].items));
            } else if s.contains(a) {
                assert(hit(t, down, b, key));
                assert(key_disjoint(t[a].items, t[b].items));
            } else if s.contains(b) {
                assert(hit(t, down, a, key));
                assert(key_disjoint(t[b].items, t[a].items));
            } else {
                assert(hit(t, l, a, key));
                assert(hit(t, l, b, key));
            }
        }
    }
}

/// What the tables `ids[i..]` record against `key`: what the first of them
/// that holds the key records.
pub open spec fn first_holder(t: Tables, ids: Seq<u64>, i: int, key: Seq<u8>) -> Option<
    MutationView,
>
    decreases ids.len() - i,
{
    if i < 0 || i >= ids.len() {
        None
    } else {
        match find(t[ids[i]].items, key) {
            Some(m) => Some(m),
            None => first_holder(t, ids, i + 1, key),
        }
    }
}

/// The first holder of a key is a holder, and none comes before it.
pub proof fn lemma_first_holder(t: Tables, ids: Seq<u64>, i: int, key: Seq<u8>)
    requires
        0 <= i <= ids.len(),
    ensures
        first_holder(t, ids, i, key) is None ==> forall|j: int|
            i <= j < ids.len() ==> find(t[#[trigger] ids[j]].items, key) is None,
        first_holder(t, ids, i, key) is Some ==> exists|j: int|
            i <= j < ids.len() && find(t[#[trigger] ids[j]].items, key) == first_holder(
                t,
                ids,
                i,
                key,
            ),
    decreases ids.len() - i,
{
    if i < ids.len() {
        lemma_first_holder(t, ids, i + 1, key);
        if find(t[ids[i]].items, key) is Some {
            assert(find(t[ids[i]].items, key) == first_holder(t, ids, i, key));
        } else {
            if first_holder(t, ids, i, key) is Some {
                let j = choose|j: int|
                    i + 1 <= j < ids.len() && find(t[#[trigger] ids[j]].items, key)
                        == first_holder(t, ids, i + 1, key);
                assert(find(t[ids[j]].items, key) == first_holder(t, ids, i, key));
            }
        }
    }
}

/// Where the table at `j` holds a key and none before it does, it is the
/// first holder.
pub proof fn lemma_first_holder_at(t: Tables, ids: Seq<u64>, i: int, j: int, key: Seq<u8>)
    requires
        0 <= i <= j < ids.len(),
        find(t[ids[j]].items, key) is Some,
        forall|k: int| i <= k < j ==> find(t[#[trigger] ids[k]].items, key) is None,
    ensures
        first_holder(t, ids, i, key) == find(t[ids[j]].items, key),
    decreases j - i,
{
    if i < j {
        assert(find(t[ids[i]].items, key) is None);
        lemma_first_holder_at(t, ids, i + 1, j, key);
    }
}

/// The tables after the tables `src` were merged into the new tables `n`.
pub open spec fn merged_down(t: Tables, src: Seq<u64>, n: Tables) -> Tables {
    t.remove_keys(src.to_set()).union_prefer_right(n)
}

/// What must hold of a merge of the tables `src`, of which the first `p`
/// are tables of level `level` in their order of precedence and the others
/// tables of the next level, into the new tables `n` of the next level.
pub open spec fn may_merge_down(t: Tables, level: u64, p: int, src: Seq<u64>, n: Tables) -> bool {
    &&& level < u64::MAX
    &&& 0 <= p <= src.len()
    &&& src.no_duplicates()
    &&& forall|i: int|
        0 <= i < src.len() ==> t.contains_key(#[trigger] src[i]) && t[src[i]].level == (if i < p {
            level
        } else {
            (level + 1) as u64
        })
    &&& forall|o: u64, i: int|
        #![trigger t.contains_key(o), src[i]]
        t.contains_key(o) && t[o].level == level + 1 && !src.contains(o) && 0 <= i < p
            ==> key_disjoint(t[o].items, t[src[i]].items)
    &&& level == 0 ==> forall|i: int, j: int| 0 <= i < j < p ==> src[i] > src[j]
    &&& level == 0 ==> forall|o: u64, i: int|
        #![trigger t.contains_key(o), src[i]]
        t.contains_key(o) && t[o].level == 0 && !src.contains(o) && 0 <= i < p ==> o > src[i]
    &&& forall|id: u64| #[trigger]
        n.contains_key(id) ==> n[id].level == level + 1 && forall|o: u64|
            t.contains_key(o) ==> o < id
    &&& forall|key: Seq<u8>| #[trigger] new_holds(t, src, n, key)
}

/// The new tables hold `key` exactly when one of the tables `src` holds
/// it; then one of them holds it, and records against it what the first of
/// `src` that holds it records.
pub open spec fn new_holds(t: Tables, src: Seq<u64>, n: Tables, key: Seq<u8>) -> bool {
    match first_holder(t, src, 0, key) {
        None => forall|id: u64| n.contains_key(id) ==> find(#[trigger] n[id].items, key) is None,
        Some(v) => exists|id: u64|
            n.contains_key(id) && find(#[trigger] n[id].items, key) == Some(v) && forall|o: u64|
                n.contains_key(o) && find(#[trigger] n[o].items, key) is Some ==> o == id,
    }
}

/// In a merge, the table that answers for a key, where it is one of the
/// merged tables, is the first of them that holds the key.
proof fn lemma_answer_is_first(
    t: Tables,
    level: u64,
    p: int,
    src: Seq<u64>,
    n: Tables,
    la: u64,
    j0: int,
    key: Seq<u8>,
)
    requires
        levels_disjoint(t),
        may_merge_down(t, level, p, src, n),
        0 <= j0 < src.len(),
        answers(t, la, src[j0], key),
    ensures
        first_holder(t, src, 0, key) == find(t[src[j0]].items, key),
{
    let ida = src[j0];
    assert forall|k: int| 0 <= k < j0 implies find(t[#[trigger] src[k]].items, key) is None by {
        if find(t[src[k]].items, key) is Some {
            assert(t.contains_key(src[k]));
            if k < p {
                assert(hit(t, level, src[k], key));
                assert(la <= level);
                if j0 < p {
                    assert(src[k] <= ida);
                    if level >= 1 {
                        assert(hit(t, level, ida, key));
                        assert(src[k] == ida);
                    } else {
                        assert(src[k] > src[j0]);
                    }
                } else {
                    assert(t[ida].level == level + 1);
                }
            } else {
                assert(hit(t, (level + 1) as u64, src[k], key));
                assert(hit(t, (level + 1) as u64, ida, key));
                assert(src[k] == ida);
            }
        }
    }
    lemma_first_holder_at(t, src, 0, j0, key);
}

/// Merging tables down changes nothing of what the tables record against a
/// key.
pub proof fn lemma_merge_down(t: Tables, level: u64, p: int, src: Seq<u64>, n: Tables, key: Seq<u8>)
    requires
        levels_disjoint(t),
        may_merge_down(t, level, p, src, n),
    ensures
        disk_lookup(merged_down(t, src, n), key) == disk_lookup(t, key),
{
    let t2 = merged_down(t, src, n);
    let down = (level + 1) as u64;
    assert(new_holds(t, src, n, key));
    lemma_first_holder(t, src, 0, key);
    // What a hit after the merge is.
    assert forall|l: u64, o: u64| #[trigger] hit(t2, l, o, key) implies (if n.contains_key(o) {
        l == down && find(n[o].items, key) is Some
    } else {
        hit(t, l, o, key) && !src.contains(o)
    }) by {
        if !n.contains_key(o) {
            assert(t.remove_keys(src.to_set()).contains_key(o));
        }
    }
    if exists|l: u64, o: u64| hit(t, l, o, key) {
        let (l0, o0) = choose|l: u64, o: u64| hit(t, l, o, key);
        let r = lemma_answer_exists(t, l0, o0, key);
        let la = r.0;
        let ida = r.1;
        lemma_answer_is_lookup(t, la, ida, key);
        if !src.contains(ida) {
            assert(!n.contains_key(ida));
            assert(t.remove_keys(src.to_set()).contains_key(ida));
            assert(hit(t2, la, ida, key));
            // A new table holds the key only where a merged table held it.
            assert forall|o: u64| n.contains_key(o) && find(n[o].items, key) is Some implies la
                < down by {
                assert(first_holder(t, src, 0, key) is Some);
                let j = choose|j: int|
                    0 <= j < src.len() && find(t[#[trigger] src[j]].items, key) == first_holder(
                        t,
                        src,
                        0,
                        key,
                    );
                if j < p {
                    assert(hit(t, level, src[j], key));
                } else {
                    assert(hit(t, down, src[j], key));
                    assert(la <= down);
                    if la == down {
                        assert(hit(t, down, ida, key));
                        assert(src[j] == ida);
                        assert(src.contains(ida));
                    }
                }
            }
            assert forall|l: u64, o: u64| #[trigger] hit(t2, l, o, key) implies la <= l by {
                if !n.contains_key(o) {
                    assert(hit(t, l, o, key));
                }
            }
            assert forall|o: u64| #[trigger] hit(t2, la, o, key) implies o <= ida by {
                if !n.contains_key(o) {
                    assert(hit(t, la, o, key));
                }
            }
            lemma_answer_is_lookup(t2, la, ida, key);
        } else {
            let j0 = choose|j: int| 0 <= j < src.len() && src[j] == ida;
            lemma_answer_is_first(t, level, p, src, n, la, j0, key);
            let v = first_holder(t, src, 0, key)->Some_0;
            let nid = choose|id: u64|
                n.contains_key(id) && find(#[trigger] n[id].items, key) == Some(v) && forall|
                    o: u64,
                |
                    n.contains_key(o) && find(#[trigger] n[o].items, key) is Some ==> o == id;
            assert(t2[nid] == n[nid]);
            assert(hit(t2, down, nid, key));
            assert(la == (if j0 < p {
                level
            } else {
                down
            }));
            // No table that stays at the upper level holds the key, and no
            // table that stays at the lower level.
            assert forall|l: u64, o: u64|
                #[trigger] hit(t2, l, o, key) && !n.contains_key(o) implies down < l by {
                assert(hit(t, l, o, key));
                assert(!src.contains(o));
                assert(la <= l);
                if l == level {
                    assert(la == level);
                    if level >= 1 {
                        assert(hit(t, level, ida, key));
                        assert(o == ida);
                    } else {
                        assert(o <= ida);
                        assert(o > src[j0]);
                    }
                } else if l == down {
                    if j0 < p {
                        assert(key_disjoint(t[o].items, t[src[j0]].items));
                        assert(find(t[o].items, key) is Some);
                        assert(find(t[src[j0]].items, key) is Some);
                    } else {
                        assert(hit(t, down, ida, key));
                        assert(o == ida);
                    }
                }
            }
            assert forall|l: u64, o: u64| #[trigger] hit(t2, l, o, key) implies down <= l by {
                if !n.contains_key(o) {
                    assert(hit(t2, l, o, key) && !n.contains_key(o));
                }
            }
            assert forall|o: u64| #[trigger] hit(t2, down, o, key) implies o <= nid by {
                if n.contains_key(o) {
                    assert(t2[o] == n[o]);
                    assert(find(n[o].items, key) is Some);
                } else {
                    assert(hit(t2, down, o, key) && !n.contains_key(o));
                }
            }
            lemma_answer_is_lookup(t2, down, nid, key);
        }
    } else {
        lemma_no_hit_no_lookup(t, key);
        assert(first_holder(t, src, 0, key) is None) by {
            if first_holder(t, src, 0, key) is Some {
                let j = choose|j: int|
                    0 <= j < src.len() && find(t[#[trigger] src[j]].items, key) == first_holder(
                        t,
                        src,
                        0,
                        key,
                    );
                assert(hit(t, t[src[j]].level, src[j], key));
            }
        }
        assert forall|l: u64, o: u64| !hit(t2, l, o, key) by {
            if hit(t2, l, o, key) {
                if n.contains_key(o) {
                    assert(t2[o] == n[o]);
                    assert(find(n[o].items, key) is None);
                } else {
                    assert(hit(t, l, o, key));
                }
            }
        }
        lemma_no_hit_no_lookup(t2, key);
    }
}

/// Merging tables down leaves no key in two tables of a level from 1 on.
pub proof fn lemma_merge_down_disjoint(t: Tables, level: u64, p: int, src: Seq<u64>, n: Tables)
    requires
        levels_disjoint(t),
        may_merge_down(t, level, p, src, n),
    ensures
        levels_disjoint(merged_down(t, src, n)),
{
    let t2 = merged_down(t, src, n);
    let down = (level + 1) as u64;
    assert forall|l: u64, a: u64, b: u64, key: Seq<u8>|
        l >= 1 && #[trigger] hit(t2, l, a, key) && #[trigger] hit(t2, l, b, key) implies a
        == b by {
        if a != b {
            assert(new_holds(t, src, n, key));
            lemma_first_holder(t, src, 0, key);
            if n.contains_key(a) && n.contains_key(b) {
                assert(t2[a] == n[a]);
                assert(t2[b] == n[b]);
                assert(find(n[a].items, key) is Some);
                assert(find(n[b].items, key) is Some);
            } else if n.contains_key(a) || n.contains_key(b) {
                let x = if n.contains_key(a) {
                    a
                } else {
                    b
                };
                let y = if n.contains_key(a) {
                    b
                } else {
                    a
                };
                assert(t2[x] == n[x]);
                assert(find(n[x].items, key) is Some);
                assert(t.remove_keys(src.to_set()).contains_key(y));
                assert(hit(t, down, y, key));
                assert(!src.contains(y));
                assert(first_holder(t, src, 0, key) is Some);
                let j = choose|j: int|
                    0 <= j < src.len() && find(t[#[trigger] src[j]].items, key) == first_holder(
                        t,
                        src,
                        0,
                        key,
                    );
                if j < p {
                    assert(key_disjoint(t[y].items, t[src[j]].items));
                    assert(find(t[y].items, key) is Some);
                    assert(find(t[src[j]].items, key) is Some);
                } else {
                    assert(hit(t, down, src[j], key));
                    assert(src[j] == y);
                    assert(src.contains(y));
                }
            } else {
                assert(t.remove_keys(src.to_set()).contains_key(a));
                assert(t.remove_keys(src.to_set()).contains_key(b));
                assert(hit(t, l, a, key));
                assert(hit(t, l, b, key));
            }
        }
    }
}

/// What the last `n` of the tables `ids` record against a key: what the
/// last of them that holds the key records.
pub open spec fn holder_from_top(t: Tables, ids: Seq<u64>, n: int, key: Seq<u8>) -> Option<
    MutationView,
>
    decreases n,
{
    if n <= 0 || n > ids.len() {
        None
    } else {
        match holder_from_top(t, ids, n - 1, key) {
            Some(m) => Some(m),
            None => find(t[ids[ids.len() - n]].items, key),
        }
    }
}

/// Where the tables of a level are listed by ascending numbers, the last of
/// them that holds a key is the one that the level answers by.
pub proof fn lemma_holder_from_top(t: Tables, level: u64, ids: Seq<u64>, n: int, key: Seq<u8>)
    requires
        0 <= n <= ids.len(),
        forall|a: int, b: int| 0 <= a < b < ids.len() ==> ids[a] < ids[b],
        forall|i: int| 0 <= i < ids.len() ==> t.contains_key(#[trigger] ids[i])
            && t[ids[i]].level == level,
        forall|id: u64| t.contains_key(id) && t[id].level == level ==> ids.contains(id),
    ensures
        holder_from_top(t, ids, n, key) is None ==> forall|i: int|
            ids.len() - n <= i < ids.len() ==> find(t[#[trigger] ids[i]].items, key) is None,
        holder_from_top(t, ids, n, key) is Some ==> level_hit(t, level, key) && holder_from_top(
            t,
            ids,
            n,
            key,
        ) == level_lookup(t, level, key),
        n == ids.len() ==> holder_from_top(t, ids, n, key) == level_lookup(t, level, key),
    decreases n,
{
    if n > 0 {
        lemma_holder_from_top(t, level, ids, n - 1, key);
        let i = ids.len() - n;
        if holder_from_top(t, ids, n - 1, key) is None && find(t[ids[i]].items, key) is Some {
            assert(hit(t, level, ids[i], key));
            assert forall|o: u64| hit(t, level, o, key) implies o <= ids[i] by {
                assert(ids.contains(o));
                let j = choose|j: int| 0 <= j < ids.len() && ids[j] == o;
                if j > i {
                    assert(find(t[ids[j]].items, key) is None);
                }
            }
            lemma_level_top(t, level, ids[i], key);
        }
    }
    if n == ids.len() && holder_from_top(t, ids, n, key) is None {
        if level_hit(t, level, key) {
            let o = choose|o: u64| hit(t, level, o, key);
            assert(ids.contains(o));
            let j = choose|j: int| 0 <= j < ids.len() && ids[j] == o;
            assert(find(t[ids[j]].items, key) is None);
        }
    }
}

/// What the first `n` of the levels `levels` record against a key: what
/// the first of them that holds the key records.
pub open spec fn levels_prefix(t: Tables, levels: Seq<u64>, n: int, key: Seq<u8>) -> Option<
    MutationView,
>
    decreases n,
{
    if n <= 0 || n > levels.len() {
        None
    } else {
        match levels_prefix(t, levels, n - 1, key) {
            Some(m) => Some(m),
            None => level_lookup(t, levels[n - 1], key),
        }
    }
}

/// Where the levels that hold tables are listed in ascending order, the
/// first of them that holds a key is the one that the tables answer by.
pub proof fn lemma_levels_prefix(t: Tables, levels: Seq<u64>, n: int, key: Seq<u8>)
    requires
        0 <= n <= levels.len(),
        forall|a: int, b: int| 0 <= a < b < levels.len() ==> levels[a] < levels[b],
        forall|id: u64| t.contains_key(id) ==> levels.contains(#[trigger] t[id].level),
    ensures
        levels_prefix(t, levels, n, key) is None ==> forall|i: int|
            0 <= i < n ==> !level_hit(t, #[trigger] levels[i], key),
        levels_prefix(t, levels, n, key) is Some ==> levels_prefix(t, levels, n, key)
            == disk_lookup(t, key),
        n == levels.len() ==> levels_prefix(t, levels, n, key) == disk_lookup(t, key),
    decreases n,
{
    if n > 0 {
        lemma_levels_prefix(t, levels, n - 1, key);
        let level = levels[n - 1];
        if levels_prefix(t, levels, n - 1, key) is None {
            if level_hit(t, level, key) {
                assert forall|o: u64| level_hit(t, o, key) implies level <= o by {
                    let x = choose|x: u64| hit(t, o, x, key);
                    assert(levels.contains(t[x].level));
                    let j = choose|j: int| 0 <= j < levels.len() && levels[j] == o;
                    if j < n - 1 {
                        assert(!level_hit(t, levels[j], key));
                    }
                }
                lemma_first_level(t, level, key);
                lemma_level_some(t, level, key);
            }
        }
    }
    if n == levels.len() && levels_prefix(t, levels, n, key) is None {
        assert forall|o: u64| !level_hit(t, o, key) by {
            if level_hit(t, o, key) {
                let x = choose|x: u64| hit(t, o, x, key);
                assert(levels.contains(t[x].level));
                let j = choose|j: int| 0 <= j < levels.len() && levels[j] == o;
                assert(!level_hit(t, levels[j], key));
            }
        }
        lemma_no_level(t, key);
    }
}

/// A level that holds a key records something against it.
pub proof fn lemma_level_some(t: Tables, level: u64, key: Seq<u8>)
    requires
        level_hit(t, level, key),
    ensures
        level_lookup(t, level, key) is Some,
{
    let x = choose|x: u64| hit(t, level, x, key);
    let q = |o: u64| hit(t, level, o, key);
    assert(q(x));
    let id = lemma_greatest(q, x);
    assert forall|o: u64| hit(t, level, o, key) implies o <= id by {
        assert(q(o));
    }
    lemma_level_top(t, level, id, key);
}

} // verus!
