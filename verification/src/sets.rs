//! Unions and intersections of families of sets, and how their sizes
//! relate to the sizes of the members.

use vstd::prelude::*;
use vstd::set_lib::lemma_len_subset;

verus! {

/// What at least one of the sets holds.
pub open spec fn union_of<K>(sets: Seq<Set<K>>) -> Set<K> {
    Set::new(|k: K| exists|t: int| 0 <= t < sets.len() && (#[trigger] sets[t]).contains(k))
}

/// What every one of the sets holds.
pub open spec fn intersection_of<K>(sets: Seq<Set<K>>) -> Set<K> {
    Set::new(|k: K| forall|t: int| 0 <= t < sets.len() ==> (#[trigger] sets[t]).contains(k))
}

/// Whether every one of the sets is finite.
pub open spec fn all_finite<K>(sets: Seq<Set<K>>) -> bool {
    forall|t: int| 0 <= t < sets.len() ==> (#[trigger] sets[t]).finite()
}

/// The union of a family is the union of the family without its last
/// member, and that member.
pub proof fn lemma_union_step<K>(sets: Seq<Set<K>>)
    requires
        sets.len() > 0,
    ensures
        union_of(sets) == union_of(sets.drop_last()).union(sets.last()),
{
    let rest = sets.drop_last();
    assert forall|k: K| union_of(sets).contains(k) <==> union_of(rest).union(
        sets.last(),
    ).contains(k) by {
        if union_of(sets).contains(k) {
            let t = choose|t: int| 0 <= t < sets.len() && (#[trigger] sets[t]).contains(k);
            if t < rest.len() {
                assert(rest[t].contains(k));
            }
        }
        if union_of(rest).contains(k) {
            let t = choose|t: int| 0 <= t < rest.len() && (#[trigger] rest[t]).contains(k);
            assert(sets[t].contains(k));
        }
        if sets.last().contains(k) {
            assert(sets[sets.len() - 1].contains(k));
        }
    }
    assert(union_of(sets) =~= union_of(rest).union(sets.last()));
}

/// The union of finitely many finite sets is finite.
pub proof fn lemma_union_finite<K>(sets: Seq<Set<K>>)
    requires
        all_finite(sets),
    ensures
        union_of(sets).finite(),
    decreases sets.len(),
{
    if sets.len() == 0 {
        assert(union_of(sets) =~= Set::<K>::empty());
    } else {
        let rest = sets.drop_last();
        assert forall|t: int| 0 <= t < rest.len() implies (#[trigger] rest[t]).finite() by {
            assert(sets[t].finite());
        }
        lemma_union_finite(rest);
        lemma_union_step(sets);
        assert(sets[sets.len() - 1].finite());
        vstd::set::axiom_set_union_finite(union_of(rest), sets.last());
    }
}

/// The intersection of a family of finite sets is no larger than any
/// member, and their union is no smaller than any member.
pub proof fn lemma_set_bounds<K>(sets: Seq<Set<K>>, i: int)
    requires
        all_finite(sets),
        0 <= i < sets.len(),
    ensures
        intersection_of(sets).finite(),
        intersection_of(sets).len() <= sets[i].len(),
        union_of(sets).finite(),
        union_of(sets).len() >= sets[i].len(),
{
    assert(sets[i].finite());
    assert(intersection_of(sets).subset_of(sets[i]));
    lemma_len_subset(intersection_of(sets), sets[i]);
    lemma_union_finite(sets);
    assert(sets[i].subset_of(union_of(sets)));
    lemma_len_subset(sets[i], union_of(sets));
}

} // verus!
