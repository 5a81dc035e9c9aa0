//! What holds of every grouping: which species are listed and in what
//! order, and that the groups hold each animal once.

use crate::animal::Animal;
use crate::grouping::{
    animals_in, groups_of, has_animal_of, has_species, is_first_of, of_species, species_of,
};
use vstd::multiset::Multiset;
use vstd::prelude::*;
use vstd::seq_lib::{lemma_multiset_commutative, to_multiset_build};

verus! {

/// The species of one more animal is added at the end, unless it is listed.
pub proof fn lemma_species_push(s: Seq<Animal>, a: Animal)
    ensures
        species_of(s.push(a)) == if species_of(s).contains(a.species@) {
            species_of(s)
        } else {
            species_of(s).push(a.species@)
        },
{
    assert(s.push(a).drop_last() =~= s);
}

/// No species is listed twice.
pub proof fn lemma_species_distinct(s: Seq<Animal>)
    ensures
        species_of(s).no_duplicates(),
    decreases s.len(),
{
    if s.len() > 0 {
        lemma_species_distinct(s.drop_last());
    }
}

/// The species of every animal is listed.
pub proof fn lemma_species_complete(s: Seq<Animal>, i: int)
    requires
        0 <= i < s.len(),
    ensures
        species_of(s).contains(s[i].species@),
    decreases s.len(),
{
    let before = species_of(s.drop_last());
    if i < s.len() - 1 {
        lemma_species_complete(s.drop_last(), i);
        let k = choose|k: int| 0 <= k < before.len() && before[k] == s[i].species@;
        assert(species_of(s)[k] == s[i].species@);
    } else if before.contains(s.last().species@) {
    } else {
        assert(species_of(s)[before.len() as int] == s[i].species@);
    }
}

/// A species that is not listed has no animal.
pub proof fn lemma_unlisted_species(s: Seq<Animal>, sp: Seq<char>)
    requires
        !species_of(s).contains(sp),
    ensures
        of_species(s, sp).len() == 0,
    decreases s.len(),
{
    reveal(Seq::filter);
    if s.len() > 0 {
        lemma_species_complete(s, s.len() - 1);
        let before = species_of(s.drop_last());
        if before.contains(sp) {
            let k = choose|k: int| 0 <= k < before.len() && before[k] == sp;
            assert(species_of(s)[k] == sp);
        }
        lemma_unlisted_species(s.drop_last(), sp);
    }
}

/// A listed species has an animal.
pub proof fn lemma_listed_species(s: Seq<Animal>, k: int)
    requires
        0 <= k < species_of(s).len(),
    ensures
        of_species(s, species_of(s)[k]).len() > 0,
    decreases s.len(),
{
    reveal(Seq::filter);
    let front = s.drop_last();
    let before = species_of(front);
    if k < before.len() {
        lemma_listed_species(front, k);
    }
}

/// Every listed species is the species of some animal, so no group is empty.
pub proof fn lemma_groups_nonempty(s: Seq<Animal>)
    ensures
        forall|k: int| 0 <= k < groups_of(s).len() ==> (#[trigger] groups_of(s)[k]).len() > 0,
{
    assert forall|k: int| 0 <= k < groups_of(s).len() implies (#[trigger] groups_of(s)[k]).len()
        > 0 by {
        let sp = species_of(s)[k];
        if of_species(s, sp).len() == 0 {
            lemma_listed_species(s, k);
        }
    }
}

/// Some animal is of the species exactly when the animals of that species
/// are not none.
pub proof fn lemma_has_animal_of(s: Seq<Animal>, sp: Seq<char>)
    ensures
        has_animal_of(s, sp) <==> of_species(s, sp).len() > 0,
    decreases s.len(),
{
    reveal(Seq::filter);
    if s.len() > 0 {
        let front = s.drop_last();
        lemma_has_animal_of(front, sp);
        if has_animal_of(front, sp) {
            let i = choose|i: int| 0 <= i < front.len() && (#[trigger] front[i]).species@ == sp;
            assert(s[i].species@ == sp);
        }
        if has_animal_of(s, sp) && s.last().species@ != sp {
            let i = choose|i: int| 0 <= i < s.len() && (#[trigger] s[i]).species@ == sp;
            assert(front[i].species@ == sp);
        }
        if s.last().species@ == sp {
            assert(s[s.len() - 1].species@ == sp);
        }
    }
}

/// The species are listed in the order in which they first appear: of two
/// listed species, the one listed first appears first.
pub proof fn lemma_first_appearance_order(s: Seq<Animal>, k1: int, k2: int, i1: int, i2: int)
    requires
        0 <= k1 < k2 < species_of(s).len(),
        is_first_of(s, species_of(s)[k1], i1),
        is_first_of(s, species_of(s)[k2], i2),
    ensures
        i1 < i2,
    decreases s.len(),
{
    let front = s.drop_last();
    let before = species_of(front);
    let last = s.len() - 1;
    lemma_listed_species(front, k1);
    lemma_has_animal_of(front, before[k1]);
    let w1 = choose|i: int| 0 <= i < front.len() && (#[trigger] front[i]).species@ == before[k1];
    assert(s[w1].species@ == before[k1]);
    assert(i1 <= w1);
    if k2 < before.len() {
        lemma_listed_species(front, k2);
        lemma_has_animal_of(front, before[k2]);
        let w2 = choose|i: int|
            0 <= i < front.len() && (#[trigger] front[i]).species@ == before[k2];
        assert(s[w2].species@ == before[k2]);
        assert(i2 <= w2);
        assert(is_first_of(front, before[k1], i1)) by {
            assert forall|j: int| 0 <= j < i1 implies (#[trigger] front[j]).species@
                != before[k1] by {
                assert(s[j].species@ != before[k1]);
            }
        }
        assert(is_first_of(front, before[k2], i2)) by {
            assert forall|j: int| 0 <= j < i2 implies (#[trigger] front[j]).species@
                != before[k2] by {
                assert(s[j].species@ != before[k2]);
            }
        }
        lemma_first_appearance_order(front, k1, k2, i1, i2);
    } else {
        if i2 < last {
            lemma_species_complete(front, i2);
        }
    }
}

/// What one more animal does to the groups: it joins the group of its
/// species at the end, or, as the first of its species, makes a new last
/// group.
pub proof fn lemma_groups_push(s: Seq<Animal>, a: Animal)
    ensures
        groups_of(s.push(a)) == if species_of(s).contains(a.species@) {
            let k = species_of(s).index_of(a.species@);
            groups_of(s).update(k, groups_of(s)[k].push(a))
        } else {
            groups_of(s).push(seq![a])
        },
{
    let listed = species_of(s);
    lemma_species_push(s, a);
    lemma_species_distinct(s);
    assert forall|k: int| 0 <= k < listed.len() implies #[trigger] of_species(
        s.push(a),
        listed[k],
    ) == if listed[k] == a.species@ {
        of_species(s, listed[k]).push(a)
    } else {
        of_species(s, listed[k])
    } by {
        s.lemma_filter_push(a, has_species(listed[k]));
    }
    if listed.contains(a.species@) {
        let k = listed.index_of(a.species@);
        assert(groups_of(s.push(a)) =~= groups_of(s).update(k, groups_of(s)[k].push(a)));
    } else {
        lemma_unlisted_species(s, a.species@);
        s.lemma_filter_push(a, has_species(a.species@));
        assert(of_species(s, a.species@) =~= Seq::<Animal>::empty());
        assert(groups_of(s.push(a)) =~= groups_of(s).push(seq![a]));
    }
}

/// Where there is no animal, the animals are none.
pub proof fn lemma_no_animals()
    ensures
        Seq::<Animal>::empty().to_multiset() == Multiset::<Animal>::empty(),
        animals_in(Seq::empty()) == Multiset::<Animal>::empty(),
{
    broadcast use vstd::multiset::group_multiset_axioms;

    let none = Seq::<Animal>::empty();
    none.to_multiset_ensures();
    assert forall|a: Animal| none.to_multiset().count(a) == 0 by {
        assert(!none.contains(a));
    }
    assert(none.to_multiset() =~= Multiset::<Animal>::empty());
    assert(Seq::<Seq<Animal>>::empty().flatten() =~= none);
}

/// Animals that join one of the groups are added to the animals of the
/// groups, and nothing else changes.
pub proof fn lemma_joining_adds_animals(groups: Seq<Seq<Animal>>, i: int, joining: Seq<Animal>)
    requires
        0 <= i < groups.len(),
    ensures
        animals_in(groups.update(i, groups[i] + joining)) == animals_in(groups).add(
            joining.to_multiset(),
        ),
    decreases groups.len(),
{
    broadcast use vstd::multiset::group_multiset_axioms;

    let joined = groups.update(i, groups[i] + joining);
    let rest = groups.drop_first();
    lemma_multiset_commutative(groups[0], rest.flatten());
    if i == 0 {
        assert(joined.drop_first() =~= rest);
        lemma_multiset_commutative(groups[0] + joining, rest.flatten());
        lemma_multiset_commutative(groups[0], joining);
    } else {
        assert(joined.drop_first() =~= rest.update(i - 1, rest[i - 1] + joining));
        lemma_joining_adds_animals(rest, i - 1, joining);
        lemma_multiset_commutative(groups[0], joined.drop_first().flatten());
    }
    assert(animals_in(joined) =~= animals_in(groups).add(joining.to_multiset()));
}

/// Grouping neither drops an animal nor holds one twice: the groups together
/// hold the animals that were grouped.
pub proof fn lemma_groups_keep_animals(s: Seq<Animal>)
    ensures
        animals_in(groups_of(s)) == s.to_multiset(),
    decreases s.len(),
{
    broadcast use vstd::multiset::group_multiset_axioms;

    if s.len() == 0 {
        assert(groups_of(s) =~= Seq::<Seq<Animal>>::empty());
        assert(groups_of(s).flatten() =~= s);
    } else {
        let front = s.drop_last();
        let a = s.last();
        assert(front.push(a) =~= s);
        lemma_groups_keep_animals(front);
        lemma_groups_push(front, a);
        to_multiset_build(front, a);
        let groups = groups_of(front);
        if species_of(front).contains(a.species@) {
            let k = species_of(front).index_of(a.species@);
            assert(groups[k].push(a) =~= groups[k] + seq![a]);
            lemma_joining_adds_animals(groups, k, seq![a]);
            to_multiset_build(Seq::<Animal>::empty(), a);
            assert(Seq::<Animal>::empty().push(a) =~= seq![a]);
            lemma_no_animals();
        } else {
            groups.lemma_flatten_push(seq![a]);
            assert(groups.flatten() + seq![a] =~= groups.flatten().push(a));
            to_multiset_build(groups.flatten(), a);
        }
        assert(animals_in(groups_of(s)) =~= s.to_multiset());
    }
}

/// The law of grouping. There is one group for each species that occurs and
/// none for any other; the groups stand in the order in which their species
/// first appear; each group holds the animals of its species in the order
/// they have in `s`; and the groups together hold every animal once.
pub proof fn lemma_grouping(s: Seq<Animal>)
    ensures
        groups_of(s).len() == species_of(s).len(),
        species_of(s).no_duplicates(),
        forall|i: int| 0 <= i < s.len() ==> species_of(s).contains((#[trigger] s[i]).species@),
        forall|k: int|
            0 <= k < species_of(s).len() ==> has_animal_of(s, #[trigger] species_of(s)[k]),
        forall|k: int|
            0 <= k < groups_of(s).len() ==> #[trigger] groups_of(s)[k] == of_species(
                s,
                species_of(s)[k],
            ),
        forall|k1: int, k2: int, i1: int, i2: int|
            0 <= k1 < k2 < species_of(s).len() && #[trigger] is_first_of(s, species_of(s)[k1], i1)
                && #[trigger] is_first_of(s, species_of(s)[k2], i2) ==> i1 < i2,
        animals_in(groups_of(s)) == s.to_multiset(),
{
    lemma_species_distinct(s);
    lemma_groups_keep_animals(s);
    assert forall|i: int| 0 <= i < s.len() implies species_of(s).contains(
        (#[trigger] s[i]).species@,
    ) by {
        lemma_species_complete(s, i);
    }
    assert forall|k: int| 0 <= k < species_of(s).len() implies has_animal_of(
        s,
        #[trigger] species_of(s)[k],
    ) by {
        lemma_listed_species(s, k);
        lemma_has_animal_of(s, species_of(s)[k]);
    }
    assert forall|k1: int, k2: int, i1: int, i2: int|
        0 <= k1 < k2 < species_of(s).len() && #[trigger] is_first_of(s, species_of(s)[k1], i1)
            && #[trigger] is_first_of(s, species_of(s)[k2], i2) implies i1 < i2 by {
        lemma_first_appearance_order(s, k1, k2, i1, i2);
    }
}

} // verus!
