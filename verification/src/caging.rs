//! Caging the whole zoo: food is set aside, carnivores and herbivores are
//! grouped by species, the food is delivered, and the herbivores are
//! relocated.

use crate::allocation::{relocatable, relocate_animals, relocated};
use crate::animal::Animal;
use crate::cage::{food_too_strong, lemma_weakest_exists, strongest_index, weakest_index, Cage};
use crate::error::{Error, Result};
use crate::food::{extract_food, lacks_species, not_of_species};
use crate::grouping::{
    animal_groups, contents, groups_of, has_animal_of, has_species, keyed, of_species, reordered,
    sorted_animal_groups, species_of,
};
use crate::grouping_laws::{lemma_groups_nonempty, lemma_species_complete};
use crate::order::{lemma_stable_order_exists, stable_order};
use vstd::prelude::*;

verus! {

/// The test "eats meat".
pub open spec fn is_carnivore() -> spec_fn(Animal) -> bool {
    |a: Animal| a.carnivore
}

/// The test "eats plants".
pub open spec fn is_herbivore() -> spec_fn(Animal) -> bool {
    |a: Animal| !a.carnivore
}

/// The key by which the stronger group comes first: the smaller, the
/// stronger the strongest animal of the group.
pub open spec fn strongest_first_key(group: Seq<Animal>) -> usize {
    (usize::MAX - group[strongest_index(group)].strength) as usize
}

/// The groups with the group of the strongest animal first; groups whose
/// strongest animals are equally strong keep their order.
pub open spec fn strongest_first(groups: Seq<Seq<Animal>>) -> Seq<Seq<Animal>> {
    reordered(
        groups,
        stable_order(Seq::new(groups.len(), |k: int| strongest_first_key(groups[k]))),
    )
}

/// The animals that are caged: all of them, or all but those of the food
/// species.
pub open spec fn caged(animals: Seq<Animal>, food: Option<&str>) -> Seq<Animal> {
    match food {
        Some(species) => not_of_species(animals, species@),
        None => animals,
    }
}

/// The carnivore cages before any food is delivered: one for each species of
/// carnivore, the cage of the strongest carnivore first.
pub open spec fn carnivore_groups(animals: Seq<Animal>, food: Option<&str>) -> Seq<Seq<Animal>> {
    strongest_first(groups_of(caged(animals, food).filter(is_carnivore())))
}

/// The herbivore groups: one for each species of herbivore, in the order in
/// which the species first appear.
pub open spec fn herbivore_groups(animals: Seq<Animal>, food: Option<&str>) -> Seq<Seq<Animal>> {
    groups_of(caged(animals, food).filter(is_herbivore()))
}

/// The carnivore cages after the food has gone to the end of the first one.
pub open spec fn fed_groups(animals: Seq<Animal>, food: Option<&str>) -> Seq<Seq<Animal>> {
    let groups = carnivore_groups(animals, food);
    match food {
        Some(species) => groups.update(0, groups[0] + of_species(animals, species@)),
        None => groups,
    }
}

/// Whether a carnivore is left to take the food: some carnivore is not of the
/// food species.
pub open spec fn has_carnivore_besides(animals: Seq<Animal>, species: Seq<char>) -> bool {
    exists|i: int|
        0 <= i < animals.len() && (#[trigger] animals[i]).carnivore && animals[i].species@
            != species
}

/// Splits the animals into carnivores and herbivores, both in the order they
/// came in.
pub fn split_by_diet(animals: Vec<Animal>) -> (r: (Vec<Animal>, Vec<Animal>))
    ensures
        r.0@ == animals@.filter(is_carnivore()),
        r.1@ == animals@.filter(is_herbivore()),
{
    let ghost all = animals@;
    let mut carnivores: Vec<Animal> = Vec::new();
    let mut herbivores: Vec<Animal> = Vec::new();
    assert(all.subrange(0, 0) =~= Seq::<Animal>::empty());
    assert(Seq::<Animal>::empty().filter(is_carnivore()) =~= Seq::<Animal>::empty()
        && Seq::<Animal>::empty().filter(is_herbivore()) =~= Seq::<Animal>::empty()) by {
        reveal(Seq::filter);
    }
    for animal in it: animals.into_iter()
        invariant
            it.seq() == all,
            carnivores@ == all.subrange(0, it.index() as int).filter(is_carnivore()),
            herbivores@ == all.subrange(0, it.index() as int).filter(is_herbivore()),
    {
        proof {
            let seen = all.subrange(0, it.index() as int);
            assert(all.subrange(0, it.index() + 1) =~= seen.push(animal));
            seen.lemma_filter_push(animal, is_carnivore());
            seen.lemma_filter_push(animal, is_herbivore());
        }
        if animal.carnivore {
            carnivores.push(animal);
        } else {
            herbivores.push(animal);
        }
    }
    assert(all.subrange(0, all.len() as int) =~= all);
    (carnivores, herbivores)
}

/// The sort key of a cage that puts the cage of the strongest animal first.
pub fn key_strongest_first(cage: &Cage) -> (k: usize)
    requires
        cage@.len() > 0,
    ensures
        k == strongest_first_key(cage@),
{
    usize::MAX - cage.strongest().unwrap().strength
}

/// Every group of a grouping can be relocated, where no animal is a
/// carnivore.
proof fn lemma_herbivore_groups_relocatable(herbivores: Seq<Animal>, k: int)
    requires
        forall|i: int| 0 <= i < herbivores.len() ==> !(#[trigger] herbivores[i]).carnivore,
        0 <= k < groups_of(herbivores).len(),
        groups_of(herbivores)[k].len() > 0,
    ensures
        relocatable(groups_of(herbivores)[k]),
{
    let group = groups_of(herbivores)[k];
    let species = species_of(herbivores)[k];
    assert(group == of_species(herbivores, species));
    assert forall|i: int| 0 <= i < group.len() implies !(#[trigger] group[i]).carnivore by {
        assert(herbivores.filter(has_species(species)).contains(group[i]));
        herbivores.lemma_filter_contains_rev(has_species(species), group[i]);
    }
    lemma_weakest_exists(group);
}

/// Cages the animals.
///
/// The animals of the food species, if one is given, are set aside. The
/// others are grouped by species. The carnivore cages are put in order, the
/// cage of the strongest carnivore first, and the food goes to the end of the
/// first of them. Each group of herbivores then joins the first carnivore cage
/// that its weakest animal fits into; the groups that fit nowhere share one
/// more cage, the last of the result.
///
/// Fails with `Error::NoFood` where no animal is of the food species, and
/// with `Error::FoodTooStrong` where the strongest food animal is at least as
/// strong as the weakest animal of the first carnivore cage.
pub fn cage_em_all(animals: Vec<Animal>, food: Option<&str>) -> (r: Result<Vec<Cage>>)
    requires
        food matches Some(species) ==> (has_animal_of(animals@, species@)
            ==> has_carnivore_besides(animals@, species@)),
    ensures
        match food {
            Some(species) if !has_animal_of(animals@, species@) => r matches Err(
                Error::NoFood(name),
            ) && name@ == species@,
            Some(species) if food_too_strong(
                carnivore_groups(animals@, food)[0],
                of_species(animals@, species@),
            ) => {
                let residents = carnivore_groups(animals@, food)[0];
                let food_animals = of_species(animals@, species@);
                r matches Err(Error::FoodTooStrong(strongest_food, weakest_resident))
                    && strongest_food == food_animals[strongest_index(food_animals)]
                    && weakest_resident == residents[weakest_index(residents)]
            },
            _ => r matches Ok(cages) && contents(cages@) == relocated(
                fed_groups(animals@, food),
                Seq::empty(),
                herbivore_groups(animals@, food),
            ),
        },
{
    let ghost all = animals@;
    let (food_animals, filtered_animals) = match extract_food(animals, food) {
        Ok(parts) => parts,
        Err(e) => {
            return Err(e);
        },
    };
    assert(filtered_animals@ == caged(all, food));
    let (carnivores, herbivores) = split_by_diet(filtered_animals);

    let mut carnivore_cages = sorted_animal_groups(carnivores.as_slice(), key_strongest_first);
    proof {
        let groups = groups_of(carnivores@);
        let (cages, keys) = choose|cages: Seq<Cage>, keys: Seq<usize>|
            {
                &&& #[trigger] keyed(key_strongest_first, cages, keys)
                &&& contents(cages) == groups
                &&& contents(carnivore_cages@) == reordered(groups, stable_order(keys))
            };
        lemma_groups_nonempty(carnivores@);
        lemma_stable_order_exists(keys);
        assert forall|k: int| 0 <= k < keys.len() implies keys[k] == strongest_first_key(
            groups[k],
        ) by {
            assert(contents(cages)[k] == cages[k]@);
            assert(call_ensures(key_strongest_first, (&cages[k],), keys[k]));
        }
        assert(keys =~= Seq::new(groups.len(), |k: int| strongest_first_key(groups[k])));
        assert(contents(carnivore_cages@) == carnivore_groups(all, food));
    }

    let herbivore_cages = animal_groups(herbivores.as_slice());
    proof {
        assert forall|k: int| 0 <= k < herbivore_cages.len() implies relocatable(
            (#[trigger] herbivore_cages[k])@,
        ) by {
            assert(contents(herbivore_cages@)[k] == herbivore_cages[k]@);
            assert forall|i: int| 0 <= i < herbivores.len() implies !(
            #[trigger] herbivores@[i]).carnivore by {
                filtered_animals@.lemma_filter_pred(is_herbivore(), i);
            }
            lemma_herbivore_groups_relocatable(herbivores@, k);
        }
    }

    if let Some(food_animals) = food_animals {
        proof {
            let species = food.unwrap()@;
            let i = choose|i: int|
                0 <= i < all.len() && (#[trigger] all[i]).carnivore && all[i].species@ != species;
            all.lemma_filter_contains(lacks_species(species), i);
            let j = filtered_animals@.index_of(all[i]);
            filtered_animals@.lemma_filter_contains(is_carnivore(), j);
            assert(carnivores@.len() > 0);
            lemma_species_complete(carnivores@, 0);
            assert(groups_of(carnivores@).len() > 0);
            assert(carnivore_cages.len() > 0);
        }
        let ghost before = carnivore_cages@;
        match carnivore_cages[0].deliver_food(Cage::from(food_animals)) {
            Ok(()) => {
                assert(contents(carnivore_cages@) =~= contents(before).update(
                    0,
                    before[0]@ + food_animals@,
                ));
            },
            Err(e) => {
                return Err(e);
            },
        }
    }
    Ok(relocate_animals(carnivore_cages, herbivore_cages))
}

} // verus!
