//! Per-slot, tag-indexed component storage.
//!
//! A [`Components`] value holds, for every entity slot, at most one
//! component per type tag, together with a cached signature: the list of
//! tags currently present at the slot. The invariant that the signature
//! always equals the set of stored tags is kept by every operation.
//! Storage never shrinks below the highest slot touched; slots are reused
//! through entity generations, not by compacting the arrays.

use crate::seqs::{lemma_push_contains, lemma_take_push};
use std::collections::HashMap;
use vstd::prelude::*;

verus! {

broadcast use vstd::std_specs::hash::group_hash_axioms;

/// `s` extended with empty slots until it is at least `n` long.
pub open spec fn grown<C>(s: Seq<Map<u64, C>>, n: int) -> Seq<Map<u64, C>> {
    if s.len() >= n {
        s
    } else {
        s.add(Seq::new((n - s.len()) as nat, |k: int| Map::<u64, C>::empty()))
    }
}

/// Tag-indexed component storage for every entity slot, with a cached
/// signature per slot. The component type `C` is supplied by the caller;
/// one value of `C` can be stored per (slot, tag) pair.
pub struct Components<C> {
    components: Vec<HashMap<u64, C>>,
    signatures: Vec<Vec<u64>>,
}

impl<C> View for Components<C> {
    type V = Seq<Map<u64, C>>;

    closed spec fn view(&self) -> Seq<Map<u64, C>> {
        self.components@.map_values(|m: HashMap<u64, C>| m@)
    }
}

impl<C> Components<C> {
    /// The components stored at slot `i`, as a map from tag to value;
    /// slots that were never touched hold the empty map.
    pub open spec fn slot(&self, i: int) -> Map<u64, C> {
        if 0 <= i < self@.len() {
            self@[i]
        } else {
            Map::empty()
        }
    }

    /// The storage invariant: the signature cache lists, without
    /// duplicates, exactly the tags stored at each slot.
    pub closed spec fn wf(&self) -> bool {
        &&& self.components@.len() == self.signatures@.len()
        &&& forall|i: int|
            0 <= i < self.signatures@.len() ==> (#[trigger] self.signatures@[i])@.no_duplicates()
        &&& forall|i: int, t: u64|
            #![trigger self.signatures@[i]@.contains(t)]
            #![trigger self.components@[i]@.contains_key(t)]
            0 <= i < self.signatures@.len() ==> (self.signatures@[i]@.contains(t)
                <==> self.components@[i]@.contains_key(t))
    }

    /// Constructs an empty store; nothing is allocated until a component
    /// is added.
    pub fn new() -> (r: Self)
        ensures
            r.wf(),
            r@ == Seq::<Map<u64, C>>::empty(),
    {
        let r = Components { components: Vec::new(), signatures: Vec::new() };
        proof {
            assert(r@ =~= Seq::<Map<u64, C>>::empty());
        }
        r
    }

    /// Constructs an empty store whose slot vector has room for
    /// `capacity` slots before reallocating.
    pub fn with_capacity(capacity: usize) -> (r: Self)
        ensures
            r.wf(),
            r@ == Seq::<Map<u64, C>>::empty(),
    {
        let r = Components { components: Vec::with_capacity(capacity), signatures: Vec::new() };
        proof {
            assert(r@ =~= Seq::<Map<u64, C>>::empty());
        }
        r
    }

    /// The number of slots the store currently tracks.
    pub fn len(&self) -> (n: usize)
        ensures
            n == self@.len(),
    {
        self.components.len()
    }

    /// Returns the slot's signature: the tags stored at `index`, each
    /// exactly once, in cache order. An untouched slot yields an empty
    /// list.
    pub fn generate_signature(&self, index: usize) -> (sig: Vec<u64>)
        requires
            self.wf(),
        ensures
            sig@.no_duplicates(),
            forall|t: u64| sig@.contains(t) <==> self.slot(index as int).contains_key(t),
    {
        if index < self.signatures.len() {
            copied_tags(&self.signatures[index])
        } else {
            Vec::new()
        }
    }

    /// Adds `component` under `type_tag` at slot `index`, growing the
    /// store as needed and overwriting any value the tag already had
    /// there. Returns a mutable reference to the just-stored value.
    pub fn add_component(&mut self, index: usize, type_tag: u64, component: C) -> (r: &mut C)
        requires
            old(self).wf(),
            index < usize::MAX,
        ensures
            final(self).wf(),
            *r == component,
            final(self)@.len() == (if old(self)@.len() >= index + 1 {
                old(self)@.len() as int
            } else {
                index + 1
            }),
            final(self).slot(index as int) == old(self).slot(index as int).insert(
                type_tag,
                *final(r),
            ),
            forall|j: int| j != index ==> final(self).slot(j) == old(self).slot(j),
            forall|j: int|
                0 <= j < final(self)@.len() && j != index ==> (#[trigger] final(self)@[j]) == old(
                    self,
                ).slot(j),
    {
        while self.components.len() <= index
            invariant
                index < usize::MAX,
                self.wf(),
                old(self)@.len() <= self@.len(),
                self@.len() <= (if old(self)@.len() >= index + 1 {
                    old(self)@.len() as int
                } else {
                    index + 1
                }),
                forall|j: int|
                    #![trigger self.slot(j)]
                    self.slot(j) == old(self).slot(j),
            decreases index + 1 - self.components@.len(),
        {
            let ghost before = *self;
            self.components.push(HashMap::new());
            self.signatures.push(Vec::new());
            proof {
                assert forall|j: int| #![trigger self.slot(j)] self.slot(j) == old(self).slot(
                    j,
                ) by {
                    if j == before@.len() {
                        assert(self.slot(j) =~= Map::<u64, C>::empty());
                        assert(old(self).slot(j) =~= Map::<u64, C>::empty());
                    } else {
                        assert(self.slot(j) == before.slot(j));
                    }
                }
            }
        }
        let ghost grown_state = *self;
        let present = self.components[index].contains_key(&type_tag);
        if !present {
            let ghost g = *self;
            let sig = &mut self.signatures[index];
            sig.push(type_tag);
            proof {
                let s0 = g.signatures@[index as int]@;
                let s1 = self.signatures@[index as int]@;
                assert(s1 == s0.push(type_tag));
                assert(!s0.contains(type_tag));
                assert forall|a: int, b: int| 0 <= a < b < s1.len() implies s1[a] != s1[b] by {
                    if b < s0.len() {
                        assert(s0[a] != s0[b]);
                    } else {
                        assert(s0.contains(s0[a]));
                    }
                }
                assert(s1.no_duplicates());
                assert forall|t: u64| s1.contains(t) == (s0.contains(t) || t == type_tag) by {
                    lemma_push_contains(s0, type_tag, t);
                }
            }
        }
        proof {
            assert(self.components@.len() == self.signatures@.len());
            assert(self@.len() >= index + 1);
            assert forall|j: int|
                #![trigger self.slot(j)]
                #![trigger old(self).slot(j)]
                self.slot(j) == old(self).slot(j) by {
                assert(self.slot(j) == grown_state.slot(j));
            }
            assert(self.slot(index as int) == self.components@[index as int]@);
            assert(self.signatures@[index as int]@.no_duplicates());
            assert(forall|t: u64|
                #![trigger self.signatures@[index as int]@.contains(t)]
                self.signatures@[index as int]@.contains(t) <==> (
                self.components@[index as int]@.contains_key(t) || t == type_tag));
            assert(forall|i2: int|
                0 <= i2 < self.signatures@.len() ==> (
                #[trigger] self.signatures@[i2])@.no_duplicates());
            assert(forall|i2: int, t: u64|
                #![trigger self.signatures@[i2]@.contains(t)]
                #![trigger self.components@[i2]@.contains_key(t)]
                0 <= i2 < self.signatures@.len() && i2 != index ==> (
                self.signatures@[i2]@.contains(t) <==> self.components@[i2]@.contains_key(t)));
        }
        let m = &mut self.components[index];
        match m.entry(type_tag) {
            std::collections::hash_map::Entry::Occupied(mut occ) => {
                let _previous = occ.insert(component);
                occ.into_mut()
            },
            std::collections::hash_map::Entry::Vacant(vac) => vac.insert(component),
        }
    }

    /// Returns the component stored under `type_tag` at slot `index`, or
    /// `None` when the slot is out of range or the tag is absent.
    pub fn get_component(&self, index: usize, type_tag: u64) -> (r: Option<&C>)
        ensures
            match r {
                Some(c) => self.slot(index as int).contains_key(type_tag) && *c == self.slot(
                    index as int,
                )[type_tag],
                None => !self.slot(index as int).contains_key(type_tag),
            },
    {
        if index < self.components.len() {
            self.components[index].get(&type_tag)
        } else {
            None
        }
    }

    /// Returns a mutable reference to the component stored under
    /// `type_tag` at slot `index`, or `None` when the slot is out of
    /// range or the tag is absent.
    pub fn get_component_mut(&mut self, index: usize, type_tag: u64) -> (r: Option<&mut C>)
        requires
            old(self).wf(),
        ensures
            final(self).wf(),
            final(self)@.len() == old(self)@.len(),
            match r {
                Some(c) => {
                    &&& old(self).slot(index as int).contains_key(type_tag)
                    &&& *c == old(self).slot(index as int)[type_tag]
                    &&& final(self).slot(index as int) == old(self).slot(index as int).insert(
                        type_tag,
                        *final(c),
                    )
                    &&& forall|j: int| j != index ==> final(self).slot(j) == old(self).slot(j)
                    &&& forall|j: int|
                        0 <= j < final(self)@.len() && j != index ==> (#[trigger] final(self)@[j])
                            == old(self).slot(j)
                },
                None => {
                    &&& !old(self).slot(index as int).contains_key(type_tag)
                    &&& final(self)@ == old(self)@
                },
            },
    {
        if index >= self.components.len() {
            return None;
        }
        let present = self.components[index].contains_key(&type_tag);
        if !present {
            return None;
        }
        let m = &mut self.components[index];
        let e = m.entry(type_tag);
        match e {
            std::collections::hash_map::Entry::Occupied(occ) => Some(occ.into_mut()),
            std::collections::hash_map::Entry::Vacant(_vac) => {
                proof {
                    assert(false);
                }
                None
            },
        }
    }

    /// Removes and returns the component stored under `type_tag` at slot
    /// `index`, dropping the tag from the slot's signature; returns
    /// `None` when nothing was stored, which is not an error.
    pub fn remove_component(&mut self, index: usize, type_tag: u64) -> (r: Option<C>)
        requires
            old(self).wf(),
        ensures
            final(self).wf(),
            final(self)@ == (if 0 <= (index as int) < old(self)@.len() {
                old(self)@.update(index as int, old(self).slot(index as int).remove(type_tag))
            } else {
                old(self)@
            }),
            match r {
                Some(c) => old(self).slot(index as int).contains_key(type_tag) && c == old(
                    self,
                ).slot(index as int)[type_tag],
                None => !old(self).slot(index as int).contains_key(type_tag),
            },
    {
        if index < self.components.len() {
            let m = &mut self.components[index];
            let r = m.remove(&type_tag);
            if r.is_some() {
                let filtered = tags_without(&self.signatures[index], type_tag);
                self.signatures[index] = filtered;
            }
            proof {
                if r is None {
                    assert(old(self).slot(index as int).remove(type_tag) =~= old(self).slot(
                        index as int,
                    ));
                }
                assert(self@ =~= old(self)@.update(
                    index as int,
                    old(self).slot(index as int).remove(type_tag),
                ));
            }
            r
        } else {
            None
        }
    }

    /// Clears slot `index`: every component there is dropped and the
    /// signature becomes empty. Used when an entity's deferred
    /// destruction is finalized. The stripped values come back as a
    /// store of their own, holding them at the same slot, so that
    /// systems can still read an entity's final state while it is being
    /// destroyed; `None` when the slot was never touched.
    pub fn remove_all_components(&mut self, index: usize) -> (r: Option<Components<C>>)
        requires
            old(self).wf(),
        ensures
            final(self).wf(),
            final(self)@ == (if 0 <= (index as int) < old(self)@.len() {
                old(self)@.update(index as int, Map::<u64, C>::empty())
            } else {
                old(self)@
            }),
            match r {
                Some(c) => {
                    &&& 0 <= (index as int) < old(self)@.len()
                    &&& c.wf()
                    &&& c@.len() == index + 1
                    &&& c.slot(index as int) == old(self).slot(index as int)
                    &&& forall|j: int| j != index ==> c.slot(j) == Map::<u64, C>::empty()
                },
                None => old(self)@.len() <= index,
            },
    {
        if index < self.components.len() {
            let mut taken_map: HashMap<u64, C> = HashMap::new();
            let m = &mut self.components[index];
            core::mem::swap(&mut taken_map, m);
            let mut taken_sig: Vec<u64> = Vec::new();
            let sig = &mut self.signatures[index];
            core::mem::swap(&mut taken_sig, sig);
            proof {
                assert(self@ =~= old(self)@.update(index as int, Map::<u64, C>::empty()));
                assert(taken_map@ == old(self).slot(index as int));
            }
            let mut comps: Vec<HashMap<u64, C>> = Vec::new();
            let mut sigs: Vec<Vec<u64>> = Vec::new();
            while comps.len() < index
                invariant
                    comps@.len() == sigs@.len(),
                    comps@.len() <= index,
                    forall|j: int|
                        0 <= j < comps@.len() ==> (#[trigger] comps@[j])@ == Map::<u64, C>::empty(),
                    forall|j: int|
                        0 <= j < sigs@.len() ==> (#[trigger] sigs@[j])@ == Seq::<u64>::empty(),
                decreases index - comps@.len(),
            {
                comps.push(HashMap::new());
                sigs.push(Vec::new());
            }
            comps.push(taken_map);
            sigs.push(taken_sig);
            let removed = Components { components: comps, signatures: sigs };
            proof {
                assert(removed.slot(index as int) == old(self).slot(index as int));
                assert forall|j: int|
                    j != index implies removed.slot(j) == Map::<u64, C>::empty() by {
                    if 0 <= j < removed@.len() {
                        assert(removed@[j] == removed.components@[j]@);
                    }
                }
            }
            Some(removed)
        } else {
            None
        }
    }

    /// Resets the store to its empty state.
    pub fn clear(&mut self)
        ensures
            final(self).wf(),
            final(self)@ == Seq::<Map<u64, C>>::empty(),
    {
        *self = Components::new();
    }

    /// Merges `other` into `target`: every slot that is non-empty in
    /// `other` overwrites the corresponding slot (values and signature)
    /// of `target`, which grows as needed. `other` is consumed.
    pub fn merge(target: &mut Self, other: Self)
        requires
            old(target).wf(),
            other.wf(),
        ensures
            final(target).wf(),
            final(target)@.len() == (if old(target)@.len() >= other@.len() {
                old(target)@.len()
            } else {
                other@.len()
            }),
            forall|j: int|
                #![trigger final(target).slot(j)]
                final(target).slot(j) == (if 0 <= j < other@.len() && other.slot(j).len() != 0 {
                    other.slot(j)
                } else {
                    old(target).slot(j)
                }),
    {
        let mut other = other;
        let ghost other0 = other;
        let n = other.components.len();
        let mut i: usize = 0;
        while i < n
            invariant
                i <= n,
                n == other0@.len(),
                other.wf(),
                other0.wf(),
                target.wf(),
                other@.len() == other0@.len(),
                forall|j: int| i <= j < n ==> other.slot(j) == other0.slot(j),
                target@.len() >= old(target)@.len(),
                target@.len() >= i,
                target@.len() == (if old(target)@.len() >= i as int {
                    old(target)@.len() as int
                } else {
                    i as int
                }),
                forall|j: int|
                    #![trigger target.slot(j)]
                    target.slot(j) == (if 0 <= j < i && other0.slot(j).len() != 0 {
                        other0.slot(j)
                    } else {
                        old(target).slot(j)
                    }),
            decreases n - i,
        {
            while target.components.len() <= i
                invariant
                    target.wf(),
                    i < n <= usize::MAX,
                    forall|j: int|
                        #![trigger target.slot(j)]
                        target.slot(j) == (if 0 <= j < i && other0.slot(j).len() != 0 {
                            other0.slot(j)
                        } else {
                            old(target).slot(j)
                        }),
                    old(target)@.len() <= target@.len(),
                    target@.len() >= (if old(target)@.len() >= i as int {
                        old(target)@.len() as int
                    } else {
                        i as int
                    }),
                    target@.len() <= (if old(target)@.len() >= i + 1 {
                        old(target)@.len() as int
                    } else {
                        i + 1
                    }),
                decreases i + 1 - target.components@.len(),
            {
                let ghost before = *target;
                target.components.push(HashMap::new());
                target.signatures.push(Vec::new());
                proof {
                    assert forall|j: int|
                        #![trigger target.slot(j)]
                        target.slot(j) == (if 0 <= j < i && other0.slot(j).len() != 0 {
                            other0.slot(j)
                        } else {
                            old(target).slot(j)
                        }) by {
                        if j == before@.len() {
                            assert(target.slot(j) =~= Map::<u64, C>::empty());
                            assert(old(target).slot(j) =~= Map::<u64, C>::empty());
                        } else {
                            assert(target.slot(j) == before.slot(j));
                        }
                    }
                }
            }
            let ghost mid = *target;
            let nonempty = other.components[i].len() != 0;
            if nonempty {
                let mut taken_map: HashMap<u64, C> = HashMap::new();
                let om = &mut other.components[i];
                core::mem::swap(&mut taken_map, om);
                let mut taken_sig: Vec<u64> = Vec::new();
                let os = &mut other.signatures[i];
                core::mem::swap(&mut taken_sig, os);
                target.components[i] = taken_map;
                target.signatures[i] = taken_sig;
                proof {
                    assert(other.slot(i as int) =~= Map::<u64, C>::empty());
                    assert(target.slot(i as int) == other0.slot(i as int));
                    assert forall|j: int|
                        #![trigger target.slot(j)]
                        target.slot(j) == (if 0 <= j < i + 1 && other0.slot(j).len() != 0 {
                            other0.slot(j)
                        } else {
                            old(target).slot(j)
                        }) by {
                        if j != i {
                            assert(target.slot(j) == mid.slot(j));
                        }
                    }
                }
            } else {
                proof {
                    assert(other0.slot(i as int).len() == 0);
                }
            }
            i += 1;
        }
    }
}

/// After adding a component its value is readable under its tag; after
/// removing it the tag is gone, and removing again changes nothing and
/// finds nothing. Stated over the slot maps that the store's contracts
/// use.
pub proof fn lemma_component_roundtrip<C>(s: Map<u64, C>, t: u64, v: C)
    ensures
        s.insert(t, v).contains_key(t),
        s.insert(t, v)[t] == v,
        !s.insert(t, v).remove(t).contains_key(t),
        s.insert(t, v).remove(t).remove(t) == s.insert(t, v).remove(t),
{
    assert(s.insert(t, v).remove(t).remove(t) =~= s.insert(t, v).remove(t));
}

/// Returns a copy of `v`.
pub(crate) fn copied_tags(v: &Vec<u64>) -> (r: Vec<u64>)
    ensures
        r@ == v@,
{
    let mut r: Vec<u64> = Vec::new();
    let mut i: usize = 0;
    while i < v.len()
        invariant
            i <= v@.len(),
            r@ == v@.take(i as int),
        decreases v@.len() - i,
    {
        r.push(v[i]);
        proof {
            assert(r@ =~= v@.take(i + 1));
        }
        i += 1;
    }
    proof {
        assert(v@.take(v@.len() as int) =~= v@);
    }
    r
}

/// Returns `v` with every occurrence of `tag` dropped, keeping the order
/// and the distinctness of the rest.
fn tags_without(v: &Vec<u64>, tag: u64) -> (r: Vec<u64>)
    requires
        v@.no_duplicates(),
    ensures
        r@.no_duplicates(),
        forall|t: u64| r@.contains(t) <==> (v@.contains(t) && t != tag),
{
    let mut r: Vec<u64> = Vec::new();
    let mut i: usize = 0;
    while i < v.len()
        invariant
            i <= v@.len(),
            v@.no_duplicates(),
            r@.no_duplicates(),
            forall|t: u64| r@.contains(t) <==> (v@.take(i as int).contains(t) && t != tag),
        decreases v@.len() - i,
    {
        let ghost r0 = r@;
        if v[i] != tag {
            proof {
                assert(!v@.take(i as int).contains(v@[i as int])) by {
                    if v@.take(i as int).contains(v@[i as int]) {
                        let k = choose|k: int|
                            0 <= k < i && (#[trigger] v@.take(i as int)[k]) == v@[i as int];
                        assert(v@[k] == v@[i as int]);
                    }
                }
                assert(!r@.contains(v@[i as int]));
            }
            r.push(v[i]);
            proof {
                assert(r@.no_duplicates()) by {
                    assert forall|a: int, b: int| 0 <= a < b < r@.len() implies r@[a] != r@[b] by {
                        if b == r@.len() - 1 {
                            assert(r0.contains(r0[a]));
                        }
                    }
                }
            }
        }
        proof {
            lemma_take_push(v@, i as int);
            assert forall|t: u64|
                r@.contains(t) <==> (v@.take(i + 1).contains(t) && t != tag) by {
                lemma_push_contains(v@.take(i as int), v@[i as int], t);
                if v@[i as int] != tag {
                    lemma_push_contains(r0, v@[i as int], t);
                }
            }
        }
        i += 1;
    }
    proof {
        assert(v@.take(v@.len() as int) =~= v@);
    }
    r
}

} // verus!
