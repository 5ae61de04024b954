//! Small facts about sequences that several modules share.

use crate::entity::Entity;
use vstd::prelude::*;

verus! {

/// Membership in a sequence extended by one element.
pub(crate) proof fn lemma_push_contains<A>(s: Seq<A>, x: A, t: A)
    ensures
        s.push(x).contains(t) <==> (s.contains(t) || t == x),
{
    if s.push(x).contains(t) {
        let k = choose|k: int| 0 <= k < s.push(x).len() && (#[trigger] s.push(x)[k]) == t;
        if k < s.len() {
            assert(s[k] == t);
        }
    }
    if s.contains(t) {
        let k = choose|k: int| 0 <= k < s.len() && (#[trigger] s[k]) == t;
        assert(s.push(x)[k] == t);
    }
    assert(s.push(x)[s.len() as int] == x);
}

/// Taking one more element appends exactly that element.
pub(crate) proof fn lemma_take_push<A>(v: Seq<A>, i: int)
    requires
        0 <= i < v.len(),
    ensures
        v.take(i + 1) == v.take(i).push(v[i]),
{
    assert(v.take(i + 1) =~= v.take(i).push(v[i]));
}

/// Reports whether `x` occurs in `v`.
pub(crate) fn contains_tag(v: &Vec<u64>, x: u64) -> (r: bool)
    ensures
        r == v@.contains(x),
{
    let mut i: usize = 0;
    while i < v.len()
        invariant
            i <= v@.len(),
            forall|j: int| 0 <= j < i ==> v@[j] != x,
        decreases v@.len() - i,
    {
        if v[i] == x {
            assert(v@.contains(x));
            return true;
        }
        i += 1;
    }
    false
}

/// Reports whether `e` occurs in `v`.
pub(crate) fn contains_entity(v: &Vec<Entity>, e: Entity) -> (r: bool)
    ensures
        r == v@.contains(e),
        r == v@.to_set().contains(e),
{
    let mut i: usize = 0;
    while i < v.len()
        invariant
            i <= v@.len(),
            forall|j: int| 0 <= j < i ==> v@[j] != e,
        decreases v@.len() - i,
    {
        if v[i] == e {
            assert(v@.contains(e));
            return true;
        }
        i += 1;
    }
    false
}

} // verus!
