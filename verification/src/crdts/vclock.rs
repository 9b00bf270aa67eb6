//! Vector clocks: one counter for each actor.
use vstd::prelude::*;
use vstd::laws_cmp::obeys_cmp;
use vstd::std_specs::btree::spec_btree_map_iter;
use vstd::std_specs::iter::IteratorSpec;
use std::collections::BTreeMap;
use crate::crdts::dot::Dot;

verus! {

broadcast use vstd::std_specs::btree::group_btree_axioms;

/// A vector clock. An actor without an entry counts as zero.
pub struct VClock<A: Ord> {
    pub dots: BTreeMap<A, u64>,
}

/// The order of the actors is a total order.
pub open spec fn ordered_actors<A: Ord>() -> bool {
    obeys_cmp::<A>()
}

/// The counter that the clock `m` has for `actor`.
pub open spec fn count_of<A>(m: Map<A, u64>, actor: A) -> u64 {
    if m.contains_key(actor) {
        m[actor]
    } else {
        0
    }
}

/// For every actor of `b` the clock `a` is at least as far as `b`.
pub open spec fn dominates<A>(a: Map<A, u64>, b: Map<A, u64>) -> bool {
    forall|k: A| #[trigger] b.contains_key(k) ==> count_of(a, k) >= b[k]
}

impl<A: Ord> VClock<A> {
    /// The counters by actor.
    pub open spec fn view(&self) -> Map<A, u64> {
        self.dots@
    }

    /// The clock in which every actor is at zero.
    pub fn new() -> (c: Self)
        ensures
            c@ == Map::<A, u64>::empty(),
    {
        VClock { dots: BTreeMap::new() }
    }

    /// The counter of `actor`.
    pub fn get(&self, actor: &A) -> (r: u64)
        requires
            ordered_actors::<A>(),
        ensures
            r == count_of(self@, *actor),
    {
        match self.dots.get(actor) {
            Some(c) => *c,
            None => 0,
        }
    }

    /// The dot of `actor` in this clock.
    pub fn dot(&self, actor: A) -> (d: Dot<A>)
        requires
            ordered_actors::<A>(),
        ensures
            d.actor == actor,
            d.counter == count_of(self@, actor),
    {
        let counter = self.get(&actor);
        Dot::new(actor, counter)
    }

    /// Whether every actor is at zero.
    pub fn is_empty(&self) -> (r: bool)
        ensures
            r == self@.is_empty(),
    {
        self.dots.is_empty()
    }

    /// Moves the clock on to `dot` if `dot` is ahead of it.
    pub fn apply(&mut self, dot: Dot<A>)
        requires
            ordered_actors::<A>(),
        ensures
            final(self)@ == if count_of(old(self)@, dot.actor) < dot.counter {
                old(self)@.insert(dot.actor, dot.counter)
            } else {
                old(self)@
            },
    {
        if self.get(&dot.actor) < dot.counter {
            self.dots.insert(dot.actor, dot.counter);
        }
    }

    /// Whether this clock is at least as far as `other` for every actor of
    /// `other`.
    pub fn covers(&self, other: &VClock<A>) -> (r: bool)
        requires
            ordered_actors::<A>(),
        ensures
            r == dominates(self@, other@),
    {
        let mut all = true;
        let walk = other.dots.iter();
        let ghost v = spec_btree_map_iter(&other.dots).remaining();
        for kv in it: other.dots.iter()
            invariant
                ordered_actors::<A>(),
                it.seq() == v,
                all == forall|i: int|
                    0 <= i < it.index() ==> count_of(self@, *(#[trigger] v[i]).0) >= *v[i].1,
        {
            if self.get(kv.0) < *kv.1 {
                all = false;
            }
        }
        proof {
            assert(all == forall|i: int|
                0 <= i < v.len() ==> count_of(self@, *(#[trigger] v[i]).0) >= *v[i].1);
            if all {
                assert forall|k: A| #[trigger] other@.contains_key(k) implies count_of(self@, k)
                    >= other@[k] by {
                    assert(v.contains((&k, &other@[k])));
                    let i = choose|i: int| 0 <= i < v.len() && v[i] == (&k, &other@[k]);
                    assert(count_of(self@, *v[i].0) >= *v[i].1);
                }
            } else {
                let i = choose|i: int|
                    0 <= i < v.len() && !(count_of(self@, *(#[trigger] v[i]).0) >= *v[i].1);
                assert(other@.contains_key(*v[i].0));
            }
        }
        all
    }
}

impl<A: Ord> VClock<A> {
    /// Whether neither clock is at least as far as the other: the two have
    /// seen events that the other has not.
    pub fn concurrent(&self, other: &VClock<A>) -> (r: bool)
        requires
            ordered_actors::<A>(),
        ensures
            r == (!dominates(self@, other@) && !dominates(other@, self@)),
    {
        !self.covers(other) && !other.covers(self)
    }
}

impl<A: Ord + Clone> VClock<A> {
    /// The dot that `actor` reaches by one more step.
    pub fn inc(&self, actor: A) -> (d: Dot<A>)
        requires
            ordered_actors::<A>(),
            count_of(self@, actor) < u64::MAX,
        ensures
            cloned(actor, d.actor),
            d.counter == count_of(self@, actor) + 1,
    {
        self.dot(actor).inc()
    }
}

/// Clones of an actor are the actor.
pub open spec fn clones_are_equal<A: Clone>() -> bool {
    forall|a: A, b: A| cloned(a, b) ==> a == b
}

/// The clock that is as far as both `a` and `b`: an actor of `b` that is
/// ahead of `a` takes its counter from `b`.
pub open spec fn merged<A>(a: Map<A, u64>, b: Map<A, u64>) -> Map<A, u64> {
    Map::new(
        |k: A| a.contains_key(k) || (b.contains_key(k) && b[k] > count_of(a, k)),
        |k: A| if b.contains_key(k) && b[k] > count_of(a, k) { b[k] } else { a[k] },
    )
}

/// The clock `a` without the actors that `b` has seen at least as far.
pub open spec fn forgotten<A>(a: Map<A, u64>, b: Map<A, u64>) -> Map<A, u64> {
    Map::new(|k: A| a.contains_key(k) && !(b.contains_key(k) && b[k] >= a[k]), |k: A| a[k])
}

/// The actors of `a` that `b` has at the same counter.
pub open spec fn common<A>(a: Map<A, u64>, b: Map<A, u64>) -> Map<A, u64> {
    Map::new(|k: A| a.contains_key(k) && count_of(b, k) == a[k], |k: A| a[k])
}

/// For each actor of `a` the smaller of its counters in `a` and `b`,
/// without the actors that come out at zero.
pub open spec fn lower_bound<A>(a: Map<A, u64>, b: Map<A, u64>) -> Map<A, u64> {
    Map::new(
        |k: A| a.contains_key(k) && a[k] != 0 && count_of(b, k) != 0,
        |k: A| if a[k] <= count_of(b, k) { a[k] } else { count_of(b, k) },
    )
}

/// What a walk over the map `m` yields: every entry once.
pub open spec fn walks<A>(m: Map<A, u64>, v: Seq<(&A, &u64)>) -> bool {
    &&& v.no_duplicates()
    &&& forall|i: int| 0 <= i < v.len() ==> m.contains_key(*(#[trigger] v[i]).0) && m[*v[i].0] == *v[i].1
    &&& forall|k: A| #[trigger] m.contains_key(k) ==> v.contains((&k, &m[k]))
}

/// A walk meets no actor twice.
pub proof fn lemma_walk_keys_distinct<A>(m: Map<A, u64>, v: Seq<(&A, &u64)>, i: int, j: int)
    requires
        walks(m, v),
        0 <= i < v.len(),
        0 <= j < v.len(),
        *v[i].0 == *v[j].0,
    ensures
        i == j,
{
    assert(m[*v[i].0] == *v[i].1);
    assert(m[*v[j].0] == *v[j].1);
    assert(v[i] == v[j]);
}

/// The entries of `m` that a walk has met before position `idx`.
pub open spec fn met<A>(m: Map<A, u64>, v: Seq<(&A, &u64)>, idx: int) -> Map<A, u64> {
    Map::new(|k: A| exists|j: int| 0 <= j < idx && *(#[trigger] v[j]).0 == k, |k: A| m[k])
}

/// One more step of a walk has met one more entry.
pub proof fn lemma_met_step<A>(m: Map<A, u64>, v: Seq<(&A, &u64)>, idx: int)
    requires
        walks(m, v),
        0 <= idx < v.len(),
    ensures
        met(m, v, idx + 1) == met(m, v, idx).insert(*v[idx].0, *v[idx].1),
        !met(m, v, idx).contains_key(*v[idx].0),
{
    let k0 = *v[idx].0;
    assert forall|k: A| met(m, v, idx + 1).contains_key(k) <==> met(m, v, idx).insert(
        k0,
        *v[idx].1,
    ).contains_key(k) by {
        if met(m, v, idx + 1).contains_key(k) {
            let j = choose|j: int| 0 <= j < idx + 1 && *(#[trigger] v[j]).0 == k;
            if j < idx {
                assert(met(m, v, idx).contains_key(k));
            }
        }
        if met(m, v, idx).contains_key(k) {
            let j = choose|j: int| 0 <= j < idx && *(#[trigger] v[j]).0 == k;
            assert(0 <= j < idx + 1 && *v[j].0 == k);
        }
        if k == k0 {
            assert(0 <= idx < idx + 1 && *v[idx].0 == k);
        }
    }
    if met(m, v, idx).contains_key(k0) {
        let j = choose|j: int| 0 <= j < idx && *(#[trigger] v[j]).0 == k0;
        lemma_walk_keys_distinct(m, v, j, idx);
    }
    assert(met(m, v, idx + 1) =~= met(m, v, idx).insert(k0, *v[idx].1));
}

/// A whole walk has met the whole map.
pub proof fn lemma_met_all<A>(m: Map<A, u64>, v: Seq<(&A, &u64)>)
    requires
        walks(m, v),
    ensures
        met(m, v, v.len() as int) == m,
        met(m, v, 0) == Map::<A, u64>::empty(),
{
    assert forall|k: A| met(m, v, v.len() as int).contains_key(k) <==> m.contains_key(k) by {
        if m.contains_key(k) {
            assert(v.contains((&k, &m[k])));
            let j = choose|j: int| 0 <= j < v.len() && v[j] == (&k, &m[k]);
            assert(*v[j].0 == k);
        }
        if met(m, v, v.len() as int).contains_key(k) {
            let j = choose|j: int| 0 <= j < v.len() && *(#[trigger] v[j]).0 == k;
            assert(m.contains_key(*v[j].0));
        }
    }
    assert(met(m, v, v.len() as int) =~= m);
    assert(met(m, v, 0) =~= Map::<A, u64>::empty());
}

impl<A: Ord + Clone> VClock<A> {
    /// Moves this clock on to `other` wherever `other` is ahead.
    pub fn merge(&mut self, other: VClock<A>)
        requires
            ordered_actors::<A>(),
            clones_are_equal::<A>(),
        ensures
            final(self)@ == merged(old(self)@, other@),
    {
        let walk = other.dots.iter();
        let ghost v = spec_btree_map_iter(&other.dots).remaining();
        let ghost m = other@;
        proof {
            assert(walks(m, v));
            lemma_met_all(m, v);
            assert(self@ =~= merged(old(self)@, met(m, v, 0)));
        }
        for kv in it: walk
            invariant
                ordered_actors::<A>(),
                clones_are_equal::<A>(),
                it.seq() == v,
                walks(m, v),
                self@ == merged(old(self)@, met(m, v, it.index() as int)),
        {
            let ghost idx = it.index() as int;
            proof {
                lemma_met_step(m, v, idx);
            }
            let actor = kv.0.clone();
            proof {
                assert(cloned(*kv.0, actor));
            }
            self.apply(Dot::new(actor, *kv.1));
            proof {
                assert(self@ =~= merged(old(self)@, met(m, v, idx + 1)));
            }
        }
    }

    /// Forgets the actors that `other` has seen at least as far as this
    /// clock has.
    pub fn reset_remove(&mut self, other: &VClock<A>)
        requires
            ordered_actors::<A>(),
        ensures
            final(self)@ == forgotten(old(self)@, other@),
    {
        let walk = other.dots.iter();
        let ghost v = spec_btree_map_iter(&other.dots).remaining();
        let ghost m = other@;
        proof {
            assert(walks(m, v));
            lemma_met_all(m, v);
            assert(self@ =~= forgotten(old(self)@, met(m, v, 0)));
        }
        for kv in it: walk
            invariant
                ordered_actors::<A>(),
                it.seq() == v,
                walks(m, v),
                self@ == forgotten(old(self)@, met(m, v, it.index() as int)),
        {
            let ghost idx = it.index() as int;
            proof {
                lemma_met_step(m, v, idx);
            }
            if *kv.1 >= self.get(kv.0) {
                self.dots.remove(kv.0);
            }
            proof {
                assert(self@ =~= forgotten(old(self)@, met(m, v, idx + 1)));
            }
        }
    }

    /// A copy of this clock without the actors that `base_clock` has seen
    /// at least as far.
    pub fn clone_without(&self, base_clock: &VClock<A>) -> (r: VClock<A>)
        requires
            ordered_actors::<A>(),
        ensures
            r@ == forgotten(self@, base_clock@),
    {
        let mut cloned = VClock { dots: self.dots.clone() };
        cloned.reset_remove(base_clock);
        cloned
    }

    /// The clock of the actors that `left` and `right` have at the same
    /// counter.
    pub fn intersection(left: &VClock<A>, right: &VClock<A>) -> (r: VClock<A>)
        requires
            ordered_actors::<A>(),
            clones_are_equal::<A>(),
        ensures
            r@ == common(left@, right@),
    {
        let mut dots: BTreeMap<A, u64> = BTreeMap::new();
        let walk = left.dots.iter();
        let ghost v = spec_btree_map_iter(&left.dots).remaining();
        let ghost m = left@;
        proof {
            assert(walks(m, v));
            lemma_met_all(m, v);
            assert(dots@ =~= common(met(m, v, 0), right@));
        }
        for kv in it: walk
            invariant
                ordered_actors::<A>(),
                clones_are_equal::<A>(),
                it.seq() == v,
                walks(m, v),
                dots@ == common(met(m, v, it.index() as int), right@),
        {
            let ghost idx = it.index() as int;
            proof {
                lemma_met_step(m, v, idx);
            }
            let right_counter = right.get(kv.0);
            if right_counter == *kv.1 {
                let actor = kv.0.clone();
                proof {
                    assert(cloned(*kv.0, actor));
                }
                dots.insert(actor, *kv.1);
            }
            proof {
                assert(dots@ =~= common(met(m, v, idx + 1), right@));
            }
        }
        VClock { dots }
    }

    /// Brings this clock down to the greatest clock that is at most as far
    /// as both this clock and `other`.
    pub fn glb(&mut self, other: &VClock<A>)
        requires
            ordered_actors::<A>(),
            clones_are_equal::<A>(),
        ensures
            final(self)@ == lower_bound(old(self)@, other@),
    {
        let mut dots: BTreeMap<A, u64> = BTreeMap::new();
        let walk = self.dots.iter();
        let ghost v = spec_btree_map_iter(&self.dots).remaining();
        let ghost m = self@;
        proof {
            assert(walks(m, v));
            lemma_met_all(m, v);
            assert(dots@ =~= lower_bound(met(m, v, 0), other@));
        }
        for kv in it: walk
            invariant
                ordered_actors::<A>(),
                clones_are_equal::<A>(),
                it.seq() == v,
                walks(m, v),
                m == self@,
                dots@ == lower_bound(met(m, v, it.index() as int), other@),
        {
            let ghost idx = it.index() as int;
            proof {
                lemma_met_step(m, v, idx);
            }
            let theirs = other.get(kv.0);
            let min_count = if *kv.1 <= theirs {
                *kv.1
            } else {
                theirs
            };
            if min_count != 0 {
                let actor = kv.0.clone();
                proof {
                    assert(cloned(*kv.0, actor));
                }
                dots.insert(actor, min_count);
            }
            proof {
                assert(dots@ =~= lower_bound(met(m, v, idx + 1), other@));
            }
        }
        self.dots = dots;
    }
}

impl<A: Ord> VClock<A> {
    /// The dots of the clock, one for each actor, in the order of the
    /// actors.
    pub fn iter(&self) -> (r: Vec<Dot<&A>>)
        requires
            ordered_actors::<A>(),
        ensures
            r@.len() == self@.len(),
            forall|i: int|
                0 <= i < r@.len() ==> self@.contains_key(*(#[trigger] r@[i]).actor) && self@[*r@[i].actor]
                    == r@[i].counter,
            forall|k: A| #[trigger]
                self@.contains_key(k) ==> exists|i: int|
                    0 <= i < r@.len() && *(#[trigger] r@[i]).actor == k,
    {
        let mut out: Vec<Dot<&A>> = Vec::new();
        let walk = self.dots.iter();
        let ghost v = spec_btree_map_iter(&self.dots).remaining();
        let ghost m = self@;
        proof {
            assert(walks(m, v));
        }
        for kv in it: walk
            invariant
                ordered_actors::<A>(),
                it.seq() == v,
                walks(m, v),
                out@.len() == it.index(),
                forall|i: int|
                    0 <= i < out@.len() ==> (#[trigger] out@[i]).actor == v[i].0 && out@[i].counter
                        == *v[i].1,
        {
            out.push(Dot { actor: kv.0, counter: *kv.1 });
        }
        proof {
            assert(out@.len() == v.len());
            assert forall|k: A| #[trigger] self@.contains_key(k) implies exists|i: int|
                0 <= i < out@.len() && *(#[trigger] out@[i]).actor == k by {
                assert(v.contains((&k, &m[k])));
                let j = choose|j: int| 0 <= j < v.len() && v[j] == (&k, &m[k]);
                assert(*out@[j].actor == k);
            }
        }
        out
    }
}

} // verus!
