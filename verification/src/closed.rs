use crate::open_set::OpenSet;
use crate::puzzle::Puzzle;
use std::collections::HashMap;
use vstd::prelude::*;

verus! {

/// The record of a search: for each state that the search has settled, the
/// state it was reached from and the number of slides that led to it.
pub trait SearchTree {
    /// The representation is consistent.
    spec fn wf(&self) -> bool;

    /// The settled states, each with its parent and its cost.
    spec fn entries(&self) -> Map<Puzzle, (Puzzle, int)>;

    /// The state that the search is to reach.
    spec fn target(&self) -> Puzzle;

    /// What the record was told so far: for each successor that a search
    /// tried, the state that was expanded, the successor, and whether the
    /// successor went into the open set.
    spec fn told(&self) -> Seq<(Puzzle, Puzzle, bool)>;

    /// Whether the goal is among the settled states.
    fn goal_reached(&self) -> (b: bool)
        requires
            self.wf(),
        ensures
            b == self.entries().contains_key(self.target()),
    ;

    /// The parent and the cost recorded for `key`.
    fn get(&self, key: &Puzzle) -> (r: Option<(Puzzle, i32)>)
        requires
            self.wf(),
        ensures
            match r {
                Some((parent, g)) => self.entries().contains_key(*key) && self.entries()[*key] == (
                    parent,
                    g as int,
                ),
                None => !self.entries().contains_key(*key),
            },
    ;

    /// Records `value` for `key`, in place of what was recorded for it before.
    fn set(&mut self, key: Puzzle, value: (Puzzle, i32))
        requires
            old(self).wf(),
        ensures
            final(self).wf(),
            final(self).target() == old(self).target(),
            final(self).told() == old(self).told(),
            final(self).entries() == old(self).entries().insert(key, (value.0, value.1 as int)),
    ;

    /// Told of each successor that the search tried: `current` is the state
    /// being expanded, `next.0` its successor, and `next.1` says whether the
    /// successor went into the open set. The record stays as it is.
    fn step_callback(&mut self, current: &Puzzle, next: (&Puzzle, bool), open_set: &OpenSet)
        requires
            old(self).wf(),
            open_set.wf(),
        ensures
            final(self).wf(),
            final(self).target() == old(self).target(),
            final(self).entries() == old(self).entries(),
            final(self).told() == old(self).told().push((*current, *next.0, next.1)),
    ;
}

/// The listing after `value` is recorded for `key`: in the place where `key`
/// is listed, or behind all others where it is not listed yet.
pub open spec fn listing_after_set(
    listing: Seq<(Puzzle, (Puzzle, i32))>,
    key: Puzzle,
    value: (Puzzle, i32),
) -> Seq<(Puzzle, (Puzzle, i32))> {
    if exists|i: int| 0 <= i < listing.len() && (#[trigger] listing[i]).0 == key {
        Seq::new(
            listing.len(),
            |i: int|
                if listing[i].0 == key {
                    (key, value)
                } else {
                    listing[i]
                },
        )
    } else {
        listing.push((key, value))
    }
}

/// A search record in memory, which remembers the order in which the states
/// were first recorded.
pub struct MapSearchTree {
    goal: Puzzle,
    initial: Puzzle,
    records: Vec<(Puzzle, (Puzzle, i32))>,
    index: HashMap<u128, usize>,
    told: Ghost<Seq<(Puzzle, Puzzle, bool)>>,
}

impl MapSearchTree {
    /// The recorded states with parent and cost, in the order in which they
    /// were first recorded.
    pub closed spec fn listing(&self) -> Seq<(Puzzle, (Puzzle, i32))> {
        self.records@
    }

    /// The state that the search starts from.
    pub closed spec fn source(&self) -> Puzzle {
        self.initial
    }

    /// The listing and the entries say the same: each state is listed once,
    /// with what the entries hold for it.
    pub proof fn lemma_listing(&self)
        requires
            self.wf(),
        ensures
            forall|i: int|
                0 <= i < self.listing().len() ==> self.entries().contains_key(
                    (#[trigger] self.listing()[i]).0,
                ) && self.entries()[self.listing()[i].0] == (
                    self.listing()[i].1.0,
                    self.listing()[i].1.1 as int,
                ),
            forall|i: int, j: int|
                0 <= i < j < self.listing().len() ==> (#[trigger] self.listing()[i]).0 != (
                #[trigger] self.listing()[j]).0,
            forall|p: Puzzle| #[trigger]
                self.entries().contains_key(p) ==> exists|i: int|
                    0 <= i < self.listing().len() && (#[trigger] self.listing()[i]).0 == p,
            self.entries().dom().finite(),
            self.entries().dom().len() == self.listing().len(),
    {
        let l = self.listing();
        assert forall|i: int| 0 <= i < l.len() implies self.entries().contains_key(
            (#[trigger] l[i]).0,
        ) && self.entries()[l[i].0] == (l[i].1.0, l[i].1.1 as int) by {
            assert(self.index@.contains_key(l[i].0.key_of()));
        }
        assert forall|p: Puzzle| #[trigger] self.entries().contains_key(p) implies exists|i: int|
            0 <= i < l.len() && (#[trigger] l[i]).0 == p by {
            let i = self.index@[p.key_of()] as int;
            l[i].0.lemma_key_injective(p);
        }
        let states = l.map_values(|r: (Puzzle, (Puzzle, i32))| r.0);
        assert(states.no_duplicates()) by {
            assert forall|i: int, j: int|
                0 <= i < states.len() && 0 <= j < states.len() && i != j implies states[i]
                != states[j] by {
                assert(self.index@[l[i].0.key_of()] == i);
                assert(self.index@[l[j].0.key_of()] == j);
            }
        }
        states.unique_seq_to_set();
        assert(states.to_set() =~= self.entries().dom()) by {
            assert forall|p: Puzzle| states.to_set().contains(p) == self.entries().dom().contains(
                p,
            ) by {
                if states.to_set().contains(p) {
                    let i = choose|i: int| 0 <= i < states.len() && states[i] == p;
                    assert(l[i].0 == p);
                }
                if self.entries().contains_key(p) {
                    let i = choose|i: int| 0 <= i < l.len() && (#[trigger] l[i]).0 == p;
                    assert(states[i] == p);
                }
            }
        }
        assert forall|i: int, j: int| 0 <= i < j < l.len() implies (#[trigger] l[i]).0 != (
        #[trigger] l[j]).0 by {
            assert(states[i] != states[j]);
        }
    }

    /// An empty record for a search from `initial` to `goal`.
    pub fn new(goal: &Puzzle, initial: &Puzzle) -> (t: MapSearchTree)
        ensures
            t.wf(),
            t.target() == *goal,
            t.source() == *initial,
            t.entries() == Map::<Puzzle, (Puzzle, int)>::empty(),
            t.listing() == Seq::<(Puzzle, (Puzzle, i32))>::empty(),
            t.told() == Seq::<(Puzzle, Puzzle, bool)>::empty(),
    {
        let t = MapSearchTree {
            goal: *goal,
            initial: *initial,
            records: Vec::new(),
            index: HashMap::new(),
            told: Ghost(Seq::empty()),
        };
        assert(t.entries() =~= Map::<Puzzle, (Puzzle, int)>::empty());
        t
    }

    /// The state that the search is to reach.
    pub fn goal(&self) -> (p: &Puzzle)
        ensures
            *p == self.target(),
    {
        &self.goal
    }

    /// The state that the search starts from.
    pub fn initial(&self) -> (p: &Puzzle)
        ensures
            *p == self.source(),
    {
        &self.initial
    }

    /// The recorded states with parent and cost, in the order in which they
    /// were first recorded.
    pub fn map(&self) -> (r: &Vec<(Puzzle, (Puzzle, i32))>)
        ensures
            r@ == self.listing(),
    {
        &self.records
    }

    /// The number of recorded states.
    pub fn len(&self) -> (n: usize)
        requires
            self.wf(),
        ensures
            n == self.entries().dom().len(),
    {
        proof {
            self.lemma_listing();
        }
        self.records.len()
    }
}

impl SearchTree for MapSearchTree {
    closed spec fn wf(&self) -> bool {
        &&& forall|k: u128| #[trigger]
            self.index@.contains_key(k) ==> self.index@[k] < self.records@.len()
                && self.records@[self.index@[k] as int].0.key_of() == k
        &&& forall|i: int|
            0 <= i < self.records@.len() ==> self.index@.contains_key(
                (#[trigger] self.records@[i]).0.key_of(),
            ) && self.index@[self.records@[i].0.key_of()] == i
    }

    closed spec fn entries(&self) -> Map<Puzzle, (Puzzle, int)> {
        Map::new(
            |p: Puzzle| self.index@.contains_key(p.key_of()),
            |p: Puzzle|
                (
                    self.records@[self.index@[p.key_of()] as int].1.0,
                    self.records@[self.index@[p.key_of()] as int].1.1 as int,
                ),
        )
    }

    closed spec fn target(&self) -> Puzzle {
        self.goal
    }

    closed spec fn told(&self) -> Seq<(Puzzle, Puzzle, bool)> {
        self.told@
    }

    fn goal_reached(&self) -> (b: bool) {
        broadcast use vstd::std_specs::hash::group_hash_axioms;

        let key = self.goal.key();
        self.index.contains_key(&key)
    }

    fn get(&self, key: &Puzzle) -> (r: Option<(Puzzle, i32)>) {
        broadcast use vstd::std_specs::hash::group_hash_axioms;

        let k = key.key();
        match self.index.get(&k) {
            Some(i) => Some(self.records[*i].1),
            None => None,
        }
    }

    fn set(&mut self, key: Puzzle, value: (Puzzle, i32))
        ensures
            final(self).source() == old(self).source(),
            final(self).listing() == listing_after_set(old(self).listing(), key, value),
    {
        broadcast use vstd::std_specs::hash::group_hash_axioms;

        let k = key.key();
        let at = match self.index.get(&k) {
            Some(i) => Some(*i),
            None => None,
        };
        let ghost expect = old(self).entries().insert(key, (value.0, value.1 as int));
        let ghost before = old(self).records@;
        match at {
            Some(i) => {
                proof {
                    assert(old(self).index@.contains_key(k));
                    before[i as int].0.lemma_key_injective(key);
                }
                self.records[i] = (key, value);
                proof {
                    assert(self.records@ == before.update(i as int, (key, value)));
                    assert(before[i as int].0 == key);
                    assert forall|j: int| 0 <= j < before.len() && j != i implies (
                    #[trigger] before[j]).0 != key by {
                        assert(old(self).index@[before[j].0.key_of()] == j);
                    }
                    assert(self.records@ =~= listing_after_set(before, key, value));
                    assert forall|p: Puzzle|
                        #[trigger] self.entries().dom().contains(p) == expect.dom().contains(p)
                            && (self.entries().contains_key(p) ==> self.entries()[p]
                            == expect[p]) by {
                        if p.key_of() == k {
                            p.lemma_key_injective(key);
                        } else if self.index@.contains_key(p.key_of()) {
                            let j = self.index@[p.key_of()] as int;
                            assert(before[j].0.key_of() == p.key_of());
                            assert(j != i);
                        }
                    }
                    assert(self.entries() =~= expect);
                }
            },
            None => {
                let n = self.records.len();
                self.index.insert(k, n);
                self.records.push((key, value));
                proof {
                    assert forall|j: int| 0 <= j < before.len() implies (#[trigger] before[j]).0
                        != key by {
                        assert(old(self).index@.contains_key(before[j].0.key_of()));
                    }
                    assert(self.records@ =~= listing_after_set(before, key, value));
                    assert forall|j: int|
                        0 <= j < self.records@.len() implies self.index@.contains_key(
                        (#[trigger] self.records@[j]).0.key_of(),
                    ) && self.index@[self.records@[j].0.key_of()] == j by {
                        if j < n {
                            assert(self.records@[j] == before[j]);
                        }
                    }
                    assert forall|p: Puzzle|
                        #[trigger] self.entries().dom().contains(p) == expect.dom().contains(p)
                            && (self.entries().contains_key(p) ==> self.entries()[p]
                            == expect[p]) by {
                        if p.key_of() == k {
                            p.lemma_key_injective(key);
                        } else if self.index@.contains_key(p.key_of()) {
                            let j = self.index@[p.key_of()] as int;
                            assert(old(self).index@.contains_key(p.key_of()));
                            assert(j < n);
                            assert(self.records@[j] == before[j]);
                        }
                    }
                    assert(self.entries() =~= expect);
                }
            },
        }
    }

    fn step_callback(&mut self, current: &Puzzle, next: (&Puzzle, bool), _open_set: &OpenSet)
        ensures
            final(self).source() == old(self).source(),
            final(self).listing() == old(self).listing(),
    {
        proof {
            self.told@ = self.told@.push((*current, *next.0, next.1));
        }
    }
}

/// A search record in memory that hands what the search tells it on to a
/// function, together with the record as it stands.
pub struct WatchedSearchTree<F: Fn(&Puzzle, &Puzzle, bool, &OpenSet, &MapSearchTree)> {
    pub record: MapSearchTree,
    pub watch: F,
}

impl<F: Fn(&Puzzle, &Puzzle, bool, &OpenSet, &MapSearchTree)> WatchedSearchTree<F> {
    /// The function can be called with whatever the search may tell.
    pub open spec fn watch_ready(&self) -> bool {
        forall|current: &Puzzle, next: &Puzzle, pushed: bool, open_set: &OpenSet, record: &MapSearchTree|
            open_set.wf() && record.wf() ==> #[trigger] call_requires(
                self.watch,
                (current, next, pushed, open_set, record),
            )
    }
}

impl<F: Fn(&Puzzle, &Puzzle, bool, &OpenSet, &MapSearchTree)> SearchTree for WatchedSearchTree<F> {
    open spec fn wf(&self) -> bool {
        self.record.wf() && self.watch_ready()
    }

    open spec fn entries(&self) -> Map<Puzzle, (Puzzle, int)> {
        self.record.entries()
    }

    open spec fn target(&self) -> Puzzle {
        self.record.target()
    }

    open spec fn told(&self) -> Seq<(Puzzle, Puzzle, bool)> {
        self.record.told()
    }

    fn goal_reached(&self) -> (b: bool) {
        self.record.goal_reached()
    }

    fn get(&self, key: &Puzzle) -> (r: Option<(Puzzle, i32)>) {
        self.record.get(key)
    }

    fn set(&mut self, key: Puzzle, value: (Puzzle, i32)) {
        self.record.set(key, value)
    }

    fn step_callback(&mut self, current: &Puzzle, next: (&Puzzle, bool), open_set: &OpenSet) {
        self.record.step_callback(current, next, open_set);
        (self.watch)(current, next.0, next.1, open_set, &self.record);
    }
}

} // verus!
