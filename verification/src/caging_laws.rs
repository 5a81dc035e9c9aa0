//! Caging loses no animal and makes none up.

use crate::allocation::{lemma_relocated_keeps_animals, relocated};
use crate::animal::Animal;
use crate::caging::{
    caged, carnivore_groups, fed_groups, has_carnivore_besides, herbivore_groups, is_carnivore,
    is_herbivore, strongest_first_key,
};
use crate::food::lacks_species;
use crate::grouping::{animals_in, groups_of, has_species, of_species, reordered};
use crate::grouping_laws::{
    lemma_groups_keep_animals, lemma_joining_adds_animals, lemma_no_animals,
    lemma_species_complete,
};
use crate::order::{comes_before, is_stable_order, lemma_stable_order_exists, stable_order};
use vstd::prelude::*;
use vstd::seq_lib::{lemma_multiset_commutative, to_multiset_build};

verus! {

/// Two tests, of which every animal passes one and only one, split the
/// animals into two lists that together hold each animal once.
pub proof fn lemma_split_keeps_animals(
    s: Seq<Animal>,
    one: spec_fn(Animal) -> bool,
    other: spec_fn(Animal) -> bool,
)
    requires
        forall|a: Animal| #[trigger] one(a) != #[trigger] other(a),
    ensures
        s.filter(one).to_multiset().add(s.filter(other).to_multiset()) == s.to_multiset(),
    decreases s.len(),
{
    broadcast use vstd::multiset::group_multiset_axioms;

    if s.len() == 0 {
        reveal(Seq::filter);
        lemma_no_animals();
        assert(s =~= Seq::<Animal>::empty());
    } else {
        let front = s.drop_last();
        let a = s.last();
        assert(front.push(a) =~= s);
        lemma_split_keeps_animals(front, one, other);
        front.lemma_filter_push(a, one);
        front.lemma_filter_push(a, other);
        to_multiset_build(front, a);
        to_multiset_build(front.filter(one), a);
        to_multiset_build(front.filter(other), a);
    }
    assert(s.filter(one).to_multiset().add(s.filter(other).to_multiset()) =~= s.to_multiset());
}

/// A group that is put between the groups adds its animals to theirs.
pub proof fn lemma_inserting_adds_animals(groups: Seq<Seq<Animal>>, j: int, group: Seq<Animal>)
    requires
        0 <= j <= groups.len(),
    ensures
        animals_in(groups.insert(j, group)) == animals_in(groups).add(group.to_multiset()),
    decreases groups.len(),
{
    broadcast use vstd::multiset::group_multiset_axioms;

    let longer = groups.insert(j, group);
    if j == 0 {
        assert(longer.drop_first() =~= groups);
        lemma_multiset_commutative(group, groups.flatten());
    } else {
        let rest = groups.drop_first();
        assert(longer.drop_first() =~= rest.insert(j - 1, group));
        lemma_inserting_adds_animals(rest, j - 1, group);
        lemma_multiset_commutative(groups[0], rest.flatten());
        lemma_multiset_commutative(groups[0], longer.drop_first().flatten());
    }
    assert(animals_in(longer) =~= animals_in(groups).add(group.to_multiset()));
}

/// Sorting the groups changes their order and nothing else: the sorted groups
/// hold the animals of the groups.
pub proof fn lemma_reordering_keeps_animals(
    groups: Seq<Seq<Animal>>,
    keys: Seq<usize>,
    order: Seq<int>,
)
    requires
        keys.len() == groups.len(),
        is_stable_order(keys, order),
    ensures
        animals_in(reordered(groups, order)) == animals_in(groups),
    decreases groups.len(),
{
    broadcast use vstd::multiset::group_multiset_axioms;

    if groups.len() == 0 {
        assert(reordered(groups, order) =~= groups);
    } else {
        let last = groups.len() - 1;
        assert(order.contains(last));
        let j = order.index_of(last);
        let shorter = order.remove(j);
        let front_keys = keys.drop_last();
        let front = groups.drop_last();
        assert forall|t: int| 0 <= t < order.len() && t != j implies order[t] != last by {
            if t < j {
                assert(comes_before(keys, order[t], order[j]));
            } else {
                assert(comes_before(keys, order[j], order[t]));
            }
        }
        assert forall|x: int| 0 <= x < front_keys.len() implies #[trigger] shorter.contains(
            x,
        ) by {
            assert(order.contains(x));
            let t = order.index_of(x);
            if t < j {
                assert(shorter[t] == x);
            } else {
                assert(shorter[t - 1] == x);
            }
        }
        assert forall|t: int, u: int| 0 <= t < u < shorter.len() implies comes_before(
            front_keys,
            #[trigger] shorter[t],
            #[trigger] shorter[u],
        ) by {
            let t0 = if t < j {
                t
            } else {
                t + 1
            };
            let u0 = if u < j {
                u
            } else {
                u + 1
            };
            assert(comes_before(keys, order[t0], order[u0]));
        }
        assert(is_stable_order(front_keys, shorter));
        lemma_reordering_keeps_animals(front, front_keys, shorter);
        assert(reordered(groups, order) =~= reordered(front, shorter).insert(j, groups[last]));
        lemma_inserting_adds_animals(reordered(front, shorter), j, groups[last]);
        assert(front.push(groups[last]) =~= groups);
        front.lemma_flatten_push(groups[last]);
        lemma_multiset_commutative(front.flatten(), groups[last]);
    }
    assert(animals_in(reordered(groups, order)) =~= animals_in(groups));
}

/// Caging neither drops an animal nor holds one twice: where it succeeds, the
/// cages together hold the animals that were handed in, the food among them.
pub proof fn lemma_caging_keeps_animals(animals: Seq<Animal>, food: Option<&str>)
    requires
        food matches Some(species) ==> has_carnivore_besides(animals, species@),
    ensures
        animals_in(
            relocated(fed_groups(animals, food), Seq::empty(), herbivore_groups(animals, food)),
        ) == animals.to_multiset(),
{
    broadcast use vstd::multiset::group_multiset_axioms;

    let kept = caged(animals, food);
    let carnivores = kept.filter(is_carnivore());
    let herbivores = kept.filter(is_herbivore());
    let groups = groups_of(carnivores);
    let keys = Seq::new(groups.len(), |k: int| strongest_first_key(groups[k]));
    let sorted = carnivore_groups(animals, food);
    let fed = fed_groups(animals, food);

    lemma_stable_order_exists(keys);
    lemma_reordering_keeps_animals(groups, keys, stable_order(keys));
    lemma_groups_keep_animals(carnivores);
    lemma_groups_keep_animals(herbivores);
    lemma_split_keeps_animals(kept, is_carnivore(), is_herbivore());
    lemma_relocated_keeps_animals(fed, Seq::empty(), herbivore_groups(animals, food));
    lemma_no_animals();
    assert(animals_in(sorted) == carnivores.to_multiset());
    match food {
        Some(species) => {
            let i = choose|i: int|
                0 <= i < animals.len() && (#[trigger] animals[i]).carnivore && animals[i].species@
                    != species@;
            animals.lemma_filter_contains(lacks_species(species@), i);
            let j = kept.index_of(animals[i]);
            kept.lemma_filter_contains(is_carnivore(), j);
            lemma_species_complete(carnivores, 0);
            assert(sorted.len() > 0);
            lemma_joining_adds_animals(sorted, 0, of_species(animals, species@));
            lemma_split_keeps_animals(animals, has_species(species@), lacks_species(species@));
            assert(animals_in(fed) =~= carnivores.to_multiset().add(
                of_species(animals, species@).to_multiset(),
            ));
        },
        None => {},
    }
    assert(animals_in(
        relocated(fed, Seq::empty(), herbivore_groups(animals, food)),
    ) =~= animals.to_multiset());
}

} // verus!
