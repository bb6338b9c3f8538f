//! Iterators over mutations in key order, and their composition: merging
//! several by precedence, and chaining several with ascending key ranges.

use vstd::prelude::*;
use crate::error::{Error, mk_err};
use crate::util::{Item, Mutation, Buf, copy_bytes, lex_lt, KeyOrder, key_order,
    lemma_lex_trichotomy};

verus! {

/// The way a scan runs: keys ascending or keys descending.
#[derive(Clone, Copy, PartialEq, Eq, Debug, Structural)]
pub enum Direction {
    Forward,
    Backward,
}

/// A cursor over a finite run of entries. It stands on an entry or at the
/// end; `step` moves it on by one.
pub trait MutationIterator {
    /// What holds of every iterator that its constructor made, whatever the
    /// data under it.
    spec fn inv(&self) -> bool;

    /// Whether the data under the iterator is intact, so that it yields its
    /// entries without an error.
    spec fn valid(&self) -> bool;

    /// The entries from the cursor on, in the order in which they are
    /// yielded.
    spec fn remaining(&self) -> Seq<Item>;

    /// A bound on the number of steps that the iterator can still take,
    /// whatever the data under it.
    spec fn budget(&self) -> nat;

    /// The key under the cursor, or `None` at the end.
    fn current_key(&self) -> (r: Result<Option<&[u8]>, Error>)
        requires
            self.inv(),
        ensures
            self.valid() ==> r is Ok,
            self.valid() ==> match r->Ok_0 {
                Some(k) => self.remaining().len() > 0 && k@ == self.remaining()[0].0,
                None => self.remaining().len() == 0,
            },
    ;

    /// The mutation under the cursor. At the end it is an error.
    fn current_value(&mut self) -> (r: Result<Mutation, Error>)
        requires
            old(self).inv(),
        ensures
            final(self).inv(),
            final(self).budget() == old(self).budget(),
            old(self).valid() ==> final(self).valid()
                && final(self).remaining() == old(self).remaining(),
            old(self).valid() ==> match r {
                Ok(m) => old(self).remaining().len() > 0 && m@ == old(self).remaining()[0].1,
                Err(_) => old(self).remaining().len() == 0,
            },
    ;

    /// Moves the cursor to the next entry. At the end it is an error, and the
    /// cursor stays.
    fn step(&mut self) -> (r: Result<(), Error>)
        requires
            old(self).inv(),
        ensures
            final(self).inv(),
            final(self).budget() <= old(self).budget(),
            r is Ok ==> final(self).budget() < old(self).budget(),
            old(self).valid() ==> final(self).valid(),
            old(self).valid() ==> match r {
                Ok(_) => old(self).remaining().len() > 0
                    && final(self).remaining() == old(self).remaining().skip(1),
                Err(_) => old(self).remaining().len() == 0
                    && final(self).remaining() == old(self).remaining(),
            },
    ;
}

/// An iterator of any kind, owned.
pub struct BoxedIterator<'a>(pub Box<dyn MutationIterator + 'a>);

/// Whether key `a` is met before key `b` by a scan in direction `d`.
pub open spec fn ahead(a: Seq<u8>, b: Seq<u8>, d: Direction) -> bool {
    match d {
        Direction::Forward => lex_lt(a, b),
        Direction::Backward => lex_lt(b, a),
    }
}

/// The key of the first entry of a run, if the run has one.
pub open spec fn front_of(run: Seq<Item>) -> Option<Seq<u8>> {
    if run.len() > 0 {
        Some(run[0].0)
    } else {
        None
    }
}

/// The front keys of runs.
pub open spec fn fronts_of(runs: Seq<Seq<Item>>) -> Seq<Option<Seq<u8>>> {
    Seq::new(runs.len(), |i: int| front_of(runs[i]))
}

/// Among the first `k` fronts, the index of the front that a scan in
/// direction `d` meets first; of equal keys, the one with the least index.
pub open spec fn best_upto(fronts: Seq<Option<Seq<u8>>>, d: Direction, k: int) -> Option<int>
    decreases k,
{
    if k <= 0 {
        None
    } else {
        let prev = best_upto(fronts, d, k - 1);
        match fronts[k - 1] {
            None => prev,
            Some(key) => match prev {
                None => Some(k - 1),
                Some(b) => if ahead(key, fronts[b]->Some_0, d) {
                    Some(k - 1)
                } else {
                    Some(b)
                },
            },
        }
    }
}

/// The index of the frontmost front of all.
pub open spec fn frontmost(fronts: Seq<Option<Seq<u8>>>, d: Direction) -> Option<int> {
    best_upto(fronts, d, fronts.len() as int)
}

/// What `best_upto` picks: a front that is there, strictly ahead of every
/// front with a lesser index, and behind no front at all.
pub proof fn lemma_best_upto(fronts: Seq<Option<Seq<u8>>>, d: Direction, k: int)
    requires
        0 <= k <= fronts.len(),
    ensures
        match best_upto(fronts, d, k) {
            None => forall|j: int| 0 <= j < k ==> fronts[j] is None,
            Some(b) => {
                &&& 0 <= b < k
                &&& fronts[b] is Some
                &&& forall|j: int|
                    0 <= j < b && fronts[j] is Some ==> ahead(
                        fronts[b]->Some_0,
                        #[trigger] fronts[j]->Some_0,
                        d,
                    )
                &&& forall|j: int|
                    0 <= j < k && fronts[j] is Some ==> !ahead(
                        #[trigger] fronts[j]->Some_0,
                        fronts[b]->Some_0,
                        d,
                    )
            },
        },
    decreases k,
{
    if k > 0 {
        lemma_best_upto(fronts, d, k - 1);
        match fronts[k - 1] {
            None => {},
            Some(key) => {
                match best_upto(fronts, d, k - 1) {
                    None => {
                        lemma_lex_trichotomy(key, key);
                    },
                    Some(b) => {
                        let bk = fronts[b]->Some_0;
                        lemma_lex_trichotomy(key, bk);
                        lemma_lex_trichotomy(key, key);
                        if ahead(key, bk, d) {
                            assert forall|j: int| 0 <= j < k - 1 && fronts[j] is Some implies ahead(
                                key,
                                #[trigger] fronts[j]->Some_0,
                                d,
                            ) by {
                                let jk = fronts[j]->Some_0;
                                lemma_lex_trichotomy(bk, jk);
                                lemma_lex_trichotomy(key, jk);
                                if d == Direction::Forward {
                                    if bk != jk {
                                        crate::util::lemma_lex_transitive(key, bk, jk);
                                    }
                                } else {
                                    if bk != jk {
                                        crate::util::lemma_lex_transitive(jk, bk, key);
                                    }
                                }
                            }
                            assert forall|j: int| 0 <= j < k && fronts[j] is Some implies !ahead(
                                #[trigger] fronts[j]->Some_0,
                                key,
                                d,
                            ) by {
                                let jk = fronts[j]->Some_0;
                                lemma_lex_trichotomy(key, jk);
                                if j < k - 1 {
                                    assert(ahead(key, fronts[j]->Some_0, d));
                                }
                            }
                        } else {
                            assert forall|j: int| 0 <= j < k && fronts[j] is Some implies !ahead(
                                #[trigger] fronts[j]->Some_0,
                                bk,
                                d,
                            ) by {
                                if j == k - 1 {
                                    assert(fronts[j]->Some_0 == key);
                                }
                            }
                        }
                    },
                }
            },
        }
    }
}

/// The runs after a step of a merge at `key`: every run that starts with
/// `key` has lost its first entry.
pub open spec fn advance(runs: Seq<Seq<Item>>, key: Seq<u8>) -> Seq<Seq<Item>> {
    Seq::new(
        runs.len(),
        |i: int|
            if front_of(runs[i]) == Some(key) {
                runs[i].skip(1)
            } else {
                runs[i]
            },
    )
}

/// The number of entries of the first `k` runs.
pub open spec fn total_upto(runs: Seq<Seq<Item>>, k: int) -> nat
    decreases k,
{
    if k <= 0 {
        0
    } else {
        total_upto(runs, k - 1) + runs[k - 1].len()
    }
}

pub proof fn lemma_advance_total(runs: Seq<Seq<Item>>, key: Seq<u8>, k: int)
    requires
        0 <= k <= runs.len(),
    ensures
        total_upto(advance(runs, key), k) <= total_upto(runs, k),
        (exists|i: int| 0 <= i < k && front_of(runs[i]) == Some(key)) ==> total_upto(
            advance(runs, key),
            k,
        ) < total_upto(runs, k),
    decreases k,
{
    if k > 0 {
        lemma_advance_total(runs, key, k - 1);
        if exists|i: int| 0 <= i < k && front_of(runs[i]) == Some(key) {
            let i = choose|i: int| 0 <= i < k && front_of(runs[i]) == Some(key);
            if i < k - 1 {
                assert(exists|i: int| 0 <= i < k - 1 && front_of(runs[i]) == Some(key));
            }
        }
    }
}

/// What a merge of `runs` in direction `d` yields: again and again the
/// entry of the frontmost front, whereupon every run that starts with the
/// key of that entry loses its first entry.
pub open spec fn merged(runs: Seq<Seq<Item>>, d: Direction) -> Seq<Item>
    decreases total_upto(runs, runs.len() as int),
{
    match frontmost(fronts_of(runs), d) {
        None => Seq::empty(),
        Some(b) => {
            if 0 <= b < runs.len() && runs[b].len() > 0 {
                proof {
                    lemma_advance_total(runs, runs[b][0].0, runs.len() as int);
                    assert(front_of(runs[b]) == Some(runs[b][0].0));
                }
                seq![runs[b][0]] + merged(advance(runs, runs[b][0].0), d)
            } else {
                Seq::empty()
            }
        },
    }
}

/// The steps that the first `k` of `iters` can still take.
pub open spec fn budget_upto<'a>(iters: Seq<BoxedIterator<'a>>, k: int) -> nat
    decreases k,
{
    if k <= 0 {
        0
    } else {
        budget_upto(iters, k - 1) + iters[k - 1].0.budget()
    }
}

/// Where one of the iterators takes steps and the others stay, the steps
/// that all can still take go down as those of the one do.
pub proof fn lemma_budget_update<'a>(
    a: Seq<BoxedIterator<'a>>,
    b: Seq<BoxedIterator<'a>>,
    i: int,
    k: int,
)
    requires
        a.len() == b.len(),
        0 <= i < a.len(),
        0 <= k <= a.len(),
        forall|j: int| 0 <= j < a.len() && j != i ==> a[j] == b[j],
    ensures
        i < k ==> budget_upto(b, k) + a[i].0.budget() == budget_upto(a, k) + b[i].0.budget(),
        i >= k ==> budget_upto(b, k) == budget_upto(a, k),
    decreases k,
{
    if k > 0 {
        lemma_budget_update(a, b, i, k - 1);
    }
}

/// The runs that the children of a merge have left.
pub open spec fn runs_of<'a>(iters: Seq<BoxedIterator<'a>>) -> Seq<Seq<Item>> {
    Seq::new(iters.len(), |i: int| iters[i].0.remaining())
}

/// The cached fronts as mathematical values.
pub open spec fn fronts_view(fronts: Seq<Option<Buf>>) -> Seq<Option<Seq<u8>>> {
    Seq::new(
        fronts.len(),
        |i: int|
            match fronts[i] {
                Some(k) => Some(k@),
                None => None,
            },
    )
}

/// Several iterators seen as one: it yields their entries in key order,
/// and where several stand on the same key, the entry of the one that
/// comes first among them, once.
pub struct MergeIterator<'a> {
    // iters and iters_front are parallel arrays.
    iters: Vec<BoxedIterator<'a>>,
    iters_front: Vec<Option<Buf>>,
    direction: Direction,
}

/// The index and the key of the frontmost of the cached fronts.
fn frontmost_front<'b, 'a>(iter: &'b MergeIterator<'a>) -> (r: Option<(usize, &'b [u8])>)
    ensures
        match r {
            Some(t) => frontmost(fronts_view(iter.iters_front@), iter.direction) == Some(
                t.0 as int,
            ) && t.0 < iter.iters_front@.len() && iter.iters_front@[t.0 as int] is Some
                && iter.iters_front@[t.0 as int]->Some_0@ == t.1@,
            None => frontmost(fronts_view(iter.iters_front@), iter.direction) is None,
        },
{
    let ghost fv = fronts_view(iter.iters_front@);
    let mut best: Option<(usize, &'b [u8])> = None;
    let mut k: usize = 0;
    while k < iter.iters_front.len()
        invariant
            0 <= k <= iter.iters_front@.len(),
            fv == fronts_view(iter.iters_front@),
            match best {
                Some(t) => best_upto(fv, iter.direction, k as int) == Some(t.0 as int) && t.0
                    < k && iter.iters_front@[t.0 as int] is Some
                    && iter.iters_front@[t.0 as int]->Some_0@ == t.1@,
                None => best_upto(fv, iter.direction, k as int) is None,
            },
        decreases iter.iters_front@.len() - k,
    {
        match &iter.iters_front[k] {
            None => {},
            Some(key) => {
                let take: bool = match best {
                    None => true,
                    Some((_, bk)) => {
                        proof {
                            lemma_lex_trichotomy(key@, bk@);
                        }
                        match iter.direction {
                            Direction::Forward => match key_order(key.as_slice(), bk) {
                                KeyOrder::Less => true,
                                _ => false,
                            },
                            Direction::Backward => match key_order(key.as_slice(), bk) {
                                KeyOrder::Greater => true,
                                _ => false,
                            },
                        }
                    },
                };
                if take {
                    best = Some((k, key.as_slice()));
                }
            },
        }
        k += 1;
    }
    best
}

/// An owned copy of an optional key.
fn copy_front(k: Option<&[u8]>) -> (r: Option<Buf>)
    ensures
        match (k, r) {
            (Some(a), Some(b)) => a@ == b@,
            (None, None) => true,
            _ => false,
        },
{
    match k {
        Some(x) => Some(copy_bytes(x)),
        None => None,
    }
}

impl<'a> MergeIterator<'a> {
    /// The children as mathematical values.
    pub closed spec fn children(&self) -> Seq<BoxedIterator<'a>> {
        self.iters@
    }

    /// The direction of the merge.
    pub closed spec fn direction(&self) -> Direction {
        self.direction
    }

    /// One iterator over what `iters` yield, which all run in `direction`.
    /// Where several of them hold a key, the one that comes first in `iters`
    /// supersedes the others.
    pub fn make(iters: Vec<BoxedIterator<'a>>, direction: Direction) -> (r: Result<
        MergeIterator<'a>,
        Error,
    >)
        requires
            forall|i: int| 0 <= i < iters@.len() ==> (#[trigger] iters@[i]).0.inv(),
        ensures
            r matches Ok(m) ==> m.inv() && m.children() == iters@ && m.direction() == direction,
            (forall|i: int| 0 <= i < iters@.len() ==> (#[trigger] iters@[i]).0.valid()) ==> r is Ok
                && r->Ok_0.valid() && r->Ok_0.remaining() == merged(runs_of(iters@), direction),
    {
        let mut iters_front: Vec<Option<Buf>> = Vec::new();
        let mut i: usize = 0;
        let ghost all_valid = forall|i: int|
            0 <= i < iters@.len() ==> (#[trigger] iters@[i]).0.valid();
        while i < iters.len()
            invariant
                0 <= i <= iters@.len(),
                iters_front@.len() == i,
                forall|j: int| 0 <= j < iters@.len() ==> (#[trigger] iters@[j]).0.inv(),
                all_valid == (forall|i: int|
                    0 <= i < iters@.len() ==> (#[trigger] iters@[i]).0.valid()),
                all_valid ==> forall|j: int|
                    0 <= j < i ==> #[trigger] fronts_view(iters_front@)[j] == front_of(
                        iters@[j].0.remaining(),
                    ),
            decreases iters@.len() - i,
        {
            assert(iters@[i as int].0.inv());
            let front: Option<Buf> = match iters[i].0.current_key() {
                Ok(k) => copy_front(k),
                Err(e) => {
                    assert(!iters@[i as int].0.valid());
                    return Err(e);
                },
            };
            let ghost fronts_before = iters_front@;
            iters_front.push(front);
            proof {
                if all_valid {
                    assert(iters@[i as int].0.valid());
                    assert forall|j: int| 0 <= j < i + 1 implies #[trigger] fronts_view(
                        iters_front@,
                    )[j] == front_of(iters@[j].0.remaining()) by {
                        if j < i {
                            assert(fronts_view(fronts_before)[j] == front_of(
                                iters@[j].0.remaining(),
                            ));
                        }
                    }
                }
            }
            i += 1;
        }
        let m = MergeIterator { iters: iters, iters_front: iters_front, direction: direction };
        proof {
            if all_valid {
                assert(fronts_view(m.iters_front@) =~= fronts_of(runs_of(m.iters@)));
            }
        }
        Ok(m)
    }
}

impl<'a> MutationIterator for MergeIterator<'a> {
    closed spec fn inv(&self) -> bool {
        &&& self.iters@.len() == self.iters_front@.len()
        &&& forall|i: int| 0 <= i < self.iters@.len() ==> (#[trigger] self.iters@[i]).0.inv()
    }

    closed spec fn valid(&self) -> bool {
        &&& self.inv()
        &&& forall|i: int| 0 <= i < self.iters@.len() ==> (#[trigger] self.iters@[i]).0.valid()
        &&& fronts_view(self.iters_front@) == fronts_of(runs_of(self.iters@))
    }

    closed spec fn remaining(&self) -> Seq<Item> {
        merged(runs_of(self.iters@), self.direction)
    }

    closed spec fn budget(&self) -> nat {
        budget_upto(self.iters@, self.iters@.len() as int)
    }

    fn current_key(&self) -> (r: Result<Option<&[u8]>, Error>) {
        proof {
            if self.valid() {
                lemma_best_upto(
                    fronts_of(runs_of(self.iters@)),
                    self.direction,
                    self.iters@.len() as int,
                );
            }
        }
        match frontmost_front(self) {
            Some((_, k)) => Ok(Some(k)),
            None => Ok(None),
        }
    }

    fn current_value(&mut self) -> (r: Result<Mutation, Error>) {
        proof {
            if self.valid() {
                lemma_best_upto(
                    fronts_of(runs_of(self.iters@)),
                    self.direction,
                    self.iters@.len() as int,
                );
            }
        }
        let found: Option<usize> = match frontmost_front(self) {
            Some((i, _)) => Some(i),
            None => None,
        };
        match found {
            Some(i) => {
                assert(self.iters@[i as int].0.inv());
                let r = self.iters[i].0.current_value();
                proof {
                    lemma_budget_update(
                        old(self).iters@,
                        self.iters@,
                        i as int,
                        self.iters@.len() as int,
                    );
                    assert forall|j: int| 0 <= j < self.iters@.len() implies (#[trigger] self.iters@[j]).0.inv() by {
                        if j != i {
                            assert(self.iters@[j] == old(self).iters@[j]);
                        }
                    }
                    if old(self).valid() {
                        assert(old(self).iters@[i as int].0.valid());
                        assert forall|j: int| 0 <= j < self.iters@.len() implies (#[trigger] self.iters@[j]).0.valid() by {
                            if j != i {
                                assert(self.iters@[j] == old(self).iters@[j]);
                                assert(old(self).iters@[j].0.valid());
                            }
                        }
                        assert(runs_of(self.iters@) =~= runs_of(old(self).iters@));
                    }
                }
                r
            },
            None => mk_err("current_value called on empty MutationIterator"),
        }
    }

    fn step(&mut self) -> (r: Result<(), Error>) {
        proof {
            if self.valid() {
                lemma_best_upto(
                    fronts_of(runs_of(self.iters@)),
                    self.direction,
                    self.iters@.len() as int,
                );
            }
        }
        let ghost mut b: int = 0;
        let frontmost_key: Buf = match frontmost_front(self) {
            Some((at, key)) => {
                proof {
                    b = at as int;
                }
                copy_bytes(key)
            },
            None => {
                return mk_err("step MergeIterator too far");
            },
        };
        let ghost runs0 = runs_of(self.iters@);
        let ghost key = frontmost_key@;
        let ghost sound = self.valid();
        let n: usize = self.iters.len();
        let mut i: usize = 0;
        while i < n
            invariant
                0 <= i <= n,
                n == self.iters@.len(),
                n == runs0.len(),
                self.inv(),
                self.direction == old(self).direction,
                key == frontmost_key@,
                sound == old(self).valid(),
                n == old(self).iters@.len(),
                0 <= b < n,
                i <= b ==> self.iters_front@[b] is Some && self.iters_front@[b]->Some_0@ == key,
                budget_upto(self.iters@, n as int) <= budget_upto(old(self).iters@, n as int),
                i > b ==> budget_upto(self.iters@, n as int) < budget_upto(
                    old(self).iters@,
                    n as int,
                ),
                sound ==> forall|j: int|
                    0 <= j < n ==> (#[trigger] self.iters@[j]).0.valid(),
                sound ==> forall|j: int|
                    0 <= j < n ==> #[trigger] fronts_view(self.iters_front@)[j] == front_of(
                        self.iters@[j].0.remaining(),
                    ),
                sound ==> forall|j: int|
                    0 <= j < i ==> (#[trigger] self.iters@[j]).0.remaining() == advance(
                        runs0,
                        key,
                    )[j],
                sound ==> forall|j: int|
                    i <= j < n ==> (#[trigger] self.iters@[j]).0.remaining() == runs0[j],
            decreases n - i,
        {
            let same: bool = match &self.iters_front[i] {
                Some(k) => match key_order(k.as_slice(), frontmost_key.as_slice()) {
                    KeyOrder::Equal => true,
                    _ => false,
                },
                None => false,
            };
            let ghost before = self.iters@;
            let ghost fronts_before = self.iters_front@;
            proof {
                assert(before[i as int].0.inv());
                if sound {
                    assert(before[i as int].0.valid());
                    assert(fronts_view(fronts_before)[i as int] == front_of(
                        before[i as int].0.remaining(),
                    ));
                }
            }
            if same {
                match self.iters[i].0.step() {
                    Ok(_) => {
                        proof {
                            lemma_budget_update(before, self.iters@, i as int, n as int);
                        }
                    },
                    Err(e) => {
                        proof {
                            lemma_budget_update(before, self.iters@, i as int, n as int);
                            if sound {
                                assert(before[i as int].0.valid());
                                assert(before[i as int].0.remaining().len() > 0);
                            }
                            assert forall|j: int| 0 <= j < self.iters@.len() implies (#[trigger] self.iters@[j]).0.inv() by {
                                if j != i {
                                    assert(self.iters@[j] == before[j]);
                                    assert(before[j].0.inv());
                                }
                            }
                        }
                        return Err(e);
                    },
                }
                let ghost mid = self.iters@;
                proof {
                    assert(mid[i as int].0.inv());
                }
                let front: Option<Buf> = match self.iters[i].0.current_key() {
                    Ok(k) => copy_front(k),
                    Err(e) => {
                        proof {
                            if sound {
                                assert(before[i as int].0.valid());
                                assert(mid[i as int].0.valid());
                            }
                            assert forall|j: int| 0 <= j < self.iters@.len() implies (#[trigger] self.iters@[j]).0.inv() by {
                                if j != i {
                                    assert(self.iters@[j] == before[j]);
                                    assert(before[j].0.inv());
                                }
                            }
                        }
                        return Err(e);
                    },
                };
                self.iters_front[i] = front;
                proof {
                    assert forall|j: int| 0 <= j < self.iters@.len() implies (#[trigger] self.iters@[j]).0.inv() by {
                        if j != i {
                            assert(self.iters@[j] == before[j]);
                            assert(before[j].0.inv());
                        }
                    }
                    if sound {
                        assert forall|j: int| 0 <= j < n implies (#[trigger] self.iters@[j]).0.valid() by {
                            if j != i {
                                assert(self.iters@[j] == before[j]);
                                assert(before[j].0.valid());
                            }
                        }
                        assert forall|j: int| 0 <= j < n implies #[trigger] fronts_view(
                            self.iters_front@,
                        )[j] == front_of(self.iters@[j].0.remaining()) by {
                            if j != i {
                                assert(self.iters@[j] == before[j]);
                                assert(fronts_view(fronts_before)[j] == front_of(
                                    before[j].0.remaining(),
                                ));
                            }
                        }
                        assert forall|j: int| 0 <= j < i + 1 implies (#[trigger] self.iters@[j]).0.remaining() == advance(runs0, key)[j] by {
                            if j != i {
                                assert(self.iters@[j] == before[j]);
                                assert(before[j].0.remaining() == advance(runs0, key)[j]);
                            }
                        }
                        assert forall|j: int| i + 1 <= j < n implies (#[trigger] self.iters@[j]).0.remaining() == runs0[j] by {
                            assert(self.iters@[j] == before[j]);
                            assert(before[j].0.remaining() == runs0[j]);
                        }
                    }
                }
            } else {
                proof {
                    if sound {
                        assert(advance(runs0, key)[i as int] == runs0[i as int]);
                    }
                }
            }
            i += 1;
        }
        proof {
            if sound {
                assert(runs_of(self.iters@) =~= advance(runs0, key));
                assert(fronts_view(self.iters_front@) =~= fronts_of(runs_of(self.iters@)));
                let b = frontmost(fronts_of(runs0), self.direction)->Some_0;
                assert(old(self).remaining() == seq![runs0[b][0]] + merged(
                    advance(runs0, key),
                    self.direction,
                ));
                assert(self.remaining() =~= old(self).remaining().skip(1));
            }
        }
        Ok(())
    }
}

/// The runs one after the other.
pub open spec fn concat_all(runs: Seq<Seq<Item>>) -> Seq<Item>
    decreases runs.len(),
{
    if runs.len() == 0 {
        Seq::empty()
    } else {
        runs[0] + concat_all(runs.skip(1))
    }
}

/// Hands out iterators one after the other: those that a `ConcatIterator`
/// chains.
pub trait IteratorSource {
    /// What holds of every source that its constructor made.
    spec fn inv(&self) -> bool;

    /// Whether the data under the source is intact, so that the iterators
    /// that it hands out are valid.
    spec fn valid(&self) -> bool;

    /// The runs of the iterators that are still to come.
    spec fn pending(&self) -> Seq<Seq<Item>>;

    /// A bound on the number of iterators that are still to come, and of
    /// the steps that they can take.
    spec fn left(&self) -> nat;

    /// The next iterator, or `None` when all were handed out.
    fn next_iterator(&mut self) -> (r: Result<Option<BoxedIterator<'static>>, Error>)
        requires
            old(self).inv(),
        ensures
            final(self).inv(),
            final(self).left() <= old(self).left(),
            r matches Ok(Some(it)) ==> it.0.inv()
                && final(self).left() + it.0.budget() < old(self).left(),
            old(self).valid() ==> final(self).valid() && r is Ok,
            old(self).valid() ==> (match r->Ok_0 {
                Some(it) => old(self).pending().len() > 0 && it.0.valid()
                    && it.0.remaining() == old(self).pending()[0]
                    && final(self).pending() == old(self).pending().skip(1),
                None => old(self).pending().len() == 0 && final(self).pending() == old(self).pending(),
            }),
    ;
}

/// The number of empty runs before the first run of `runs` that holds an
/// entry.
pub open spec fn empties(runs: Seq<Seq<Item>>) -> int
    decreases runs.len(),
{
    if runs.len() == 0 || runs[0].len() > 0 {
        0
    } else {
        1 + empties(runs.skip(1))
    }
}

/// Where the first `n` runs are empty, and the run behind them holds an
/// entry or is not there, `n` empty runs come first.
pub proof fn lemma_empties(runs: Seq<Seq<Item>>, n: int)
    requires
        0 <= n <= runs.len(),
        forall|i: int| 0 <= i < n ==> (#[trigger] runs[i]).len() == 0,
        n < runs.len() ==> runs[n].len() > 0,
    ensures
        empties(runs) == n,
    decreases n,
{
    if n > 0 {
        let rest = runs.skip(1);
        assert forall|i: int| 0 <= i < n - 1 implies (#[trigger] rest[i]).len() == 0 by {
            assert(rest[i] == runs[i + 1]);
        }
        if n < runs.len() {
            assert(rest[n - 1] == runs[n]);
        }
        lemma_empties(rest, n - 1);
    }
}

/// A chain that looks for its next iterator asks its source, which holds
/// the runs `pending`, until an iterator holds an entry or the source has
/// no more: then `run` is the run of the iterator that it stands on, and
/// `rest` are the runs that the source still holds.
pub open spec fn settled(pending: Seq<Seq<Item>>, run: Seq<Item>, rest: Seq<Seq<Item>>) -> bool {
    let k = empties(pending);
    if k < pending.len() {
        run == pending[k] && rest == pending.skip(k + 1)
    } else {
        run.len() == 0 && rest.len() == 0
    }
}

/// Several iterators seen as one: it yields what the first yields, then
/// what the second yields, and so on. The key ranges of the iterators
/// follow one another in the direction of the scan.
pub struct ConcatIterator<S: IteratorSource> {
    // The key under the cursor, and the iterator that stands on it.
    current: Option<(Buf, BoxedIterator<'static>)>,
    next_gen: S,
}

impl<S: IteratorSource> ConcatIterator<S> {
    /// The runs that the source still holds: those of the iterators that it
    /// was not asked for yet.
    pub closed spec fn source_pending(&self) -> Seq<Seq<Item>> {
        self.next_gen.pending()
    }

    /// What the iterator under the cursor still holds.
    pub closed spec fn current_run(&self) -> Seq<Item> {
        match self.current {
            Some(c) => c.1.0.remaining(),
            None => Seq::empty(),
        }
    }

    /// One iterator over what the iterators of `next_gen` yield, one after
    /// the other. The source is asked until an iterator holds an entry, and
    /// no further.
    pub fn make(next_gen: S) -> (r: Result<ConcatIterator<S>, Error>)
        requires
            next_gen.inv(),
        ensures
            r matches Ok(c) ==> c.inv(),
            next_gen.valid() ==> r is Ok && r->Ok_0.valid() && r->Ok_0.remaining() == concat_all(
                next_gen.pending(),
            ),
            next_gen.valid() ==> settled(
                next_gen.pending(),
                r->Ok_0.current_run(),
                r->Ok_0.source_pending(),
            ),
    {
        let mut source = next_gen;
        let ghost p0 = next_gen.pending();
        let ghost mut n: int = 0;
        proof {
            assert(p0.skip(0) =~= p0);
        }
        loop
            invariant
                source.inv(),
                p0 == next_gen.pending(),
                next_gen.valid() ==> source.valid(),
                next_gen.valid() ==> concat_all(next_gen.pending()) == concat_all(
                    source.pending(),
                ),
                next_gen.valid() ==> 0 <= n <= p0.len() && source.pending() == p0.skip(n)
                    && forall|i: int| 0 <= i < n ==> (#[trigger] p0[i]).len() == 0,
            decreases source.left(),
        {
            let ghost pending = source.pending();
            let current = match source.next_iterator() {
                Ok(Some(it)) => it,
                Ok(None) => {
                    let c = ConcatIterator { current: None, next_gen: source };
                    proof {
                        if next_gen.valid() {
                            assert(concat_all(pending) =~= Seq::<Item>::empty());
                            assert(n == p0.len());
                            lemma_empties(p0, n);
                        }
                    }
                    return Ok(c);
                },
                Err(e) => {
                    return Err(e);
                },
            };
            let key: Option<Buf> = match current.0.current_key() {
                Ok(k) => copy_front(k),
                Err(e) => {
                    return Err(e);
                },
            };
            proof {
                if next_gen.valid() {
                    assert(concat_all(pending) == pending[0] + concat_all(pending.skip(1)));
                    assert(pending[0] == p0[n]);
                    assert(pending.skip(1) =~= p0.skip(n + 1));
                }
            }
            match key {
                Some(key) => {
                    let c = ConcatIterator { current: Some((key, current)), next_gen: source };
                    proof {
                        if next_gen.valid() {
                            lemma_empties(p0, n);
                        }
                    }
                    return Ok(c);
                },
                None => {
                    proof {
                        if next_gen.valid() {
                            assert(pending[0] + concat_all(pending.skip(1)) =~= concat_all(
                                pending.skip(1),
                            ));
                            n = n + 1;
                        }
                    }
                },
            }
        }
    }
}

impl<S: IteratorSource> MutationIterator for ConcatIterator<S> {
    closed spec fn inv(&self) -> bool {
        &&& self.next_gen.inv()
        &&& match self.current {
            Some(c) => c.1.0.inv(),
            None => true,
        }
    }

    closed spec fn valid(&self) -> bool {
        &&& self.inv()
        &&& self.next_gen.valid()
        &&& match self.current {
            Some(c) => c.1.0.valid() && c.1.0.remaining().len() > 0 && c.0@
                == c.1.0.remaining()[0].0,
            None => true,
        }
    }

    closed spec fn remaining(&self) -> Seq<Item> {
        match self.current {
            Some(c) => c.1.0.remaining() + concat_all(self.next_gen.pending()),
            None => Seq::empty(),
        }
    }

    closed spec fn budget(&self) -> nat {
        match self.current {
            Some(c) => c.1.0.budget() + self.next_gen.left() + 1,
            None => 0,
        }
    }

    fn current_key(&self) -> (r: Result<Option<&[u8]>, Error>) {
        match &self.current {
            Some(c) => Ok(Some(c.0.as_slice())),
            None => Ok(None),
        }
    }

    fn current_value(&mut self) -> (r: Result<Mutation, Error>) {
        match self.current.take() {
            Some((key, it)) => {
                let mut it = it;
                let r = it.0.current_value();
                self.current = Some((key, it));
                r
            },
            None => mk_err("current_value called on empty ConcatIterator"),
        }
    }

    /// Moves on by an entry. The source is asked only when the iterator
    /// under the cursor holds no more, and then until an iterator holds an
    /// entry; a step at the end asks for nothing.
    fn step(&mut self) -> (r: Result<(), Error>)
        ensures
            old(self).valid() && r is Ok ==> (if old(self).current_run().len() > 1 {
                final(self).current_run() == old(self).current_run().skip(1)
                    && final(self).source_pending() == old(self).source_pending()
            } else {
                settled(
                    old(self).source_pending(),
                    final(self).current_run(),
                    final(self).source_pending(),
                )
            }),
            old(self).valid() && r is Err ==> final(self).source_pending() == old(self).source_pending(),
    {
        let ghost sound = self.valid();
        let ghost rest = self.remaining().skip(1);
        let ghost p0 = self.next_gen.pending();
        let ghost run0 = self.current_run();
        let ghost mut n: int = 0;
        let (key, mut it) = match self.current.take() {
            Some(c) => c,
            None => {
                return mk_err("step called on empty ConcatIterator");
            },
        };
        let ghost budget0 = old(self).budget();
        match it.0.step() {
            Ok(_) => {},
            Err(e) => {
                self.current = Some((key, it));
                return Err(e);
            },
        }
        proof {
            if sound {
                assert(rest =~= it.0.remaining() + concat_all(self.next_gen.pending()));
                assert(p0.skip(0) =~= p0);
            }
        }
        loop
            invariant
                it.0.inv(),
                self.next_gen.inv(),
                self.current is None,
                sound == old(self).valid(),
                p0 == old(self).source_pending(),
                run0 == old(self).current_run(),
                sound ==> 0 <= n <= p0.len() && self.next_gen.pending() == p0.skip(n)
                    && forall|i: int| 0 <= i < n - 1 ==> (#[trigger] p0[i]).len() == 0,
                sound && n == 0 ==> it.0.remaining() == run0.skip(1) && run0.len() > 0,
                sound && n > 0 ==> it.0.remaining() == p0[n - 1] && run0.len() == 1,
                budget0 == old(self).budget(),
                it.0.budget() + self.next_gen.left() + 1 < budget0,
                rest == old(self).remaining().skip(1),
                sound ==> old(self).remaining().len() > 0,
                sound ==> it.0.valid() && self.next_gen.valid(),
                sound ==> rest == it.0.remaining() + concat_all(self.next_gen.pending()),
            decreases self.next_gen.left(),
        {
            let front: Option<Buf> = match it.0.current_key() {
                Ok(k) => copy_front(k),
                Err(e) => {
                    self.current = Some((key, it));
                    return Err(e);
                },
            };
            match front {
                Some(k) => {
                    self.current = Some((k, it));
                    proof {
                        if sound && n > 0 {
                            lemma_empties(p0, n - 1);
                            assert(p0.skip(n - 1 + 1) =~= p0.skip(n));
                        }
                    }
                    return Ok(());
                },
                None => {
                    let ghost pending = self.next_gen.pending();
                    proof {
                        if sound && pending.len() > 0 {
                            assert(concat_all(pending) == pending[0] + concat_all(
                                pending.skip(1),
                            ));
                        }
                        if sound && pending.len() == 0 {
                            assert(concat_all(pending) =~= Seq::<Item>::empty());
                        }
                    }
                    match self.next_gen.next_iterator() {
                        Ok(Some(iter)) => {
                            it = iter;
                            proof {
                                if sound {
                                    assert(rest =~= it.0.remaining() + concat_all(
                                        self.next_gen.pending(),
                                    ));
                                    assert(pending[0] == p0[n]);
                                    assert(pending.skip(1) =~= p0.skip(n + 1));
                                    n = n + 1;
                                }
                            }
                        },
                        Ok(None) => {
                            proof {
                                if sound {
                                    assert(rest =~= Seq::<Item>::empty());
                                    assert(n == p0.len());
                                    lemma_empties(p0, n);
                                }
                            }
                            return Ok(());
                        },
                        Err(e) => {
                            self.current = Some((key, it));
                            return Err(e);
                        },
                    }
                },
            }
        }
    }
}

} // verus!
