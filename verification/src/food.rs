//! Setting aside the animals that are to be fed to the carnivores.

use crate::animal::Animal;
use crate::error::{Error, Result};
use crate::grouping::{has_animal_of, has_species, of_species};
use crate::grouping_laws::lemma_has_animal_of;
use vstd::prelude::*;

verus! {

/// The test "is not of species `sp`".
pub open spec fn lacks_species(sp: Seq<char>) -> spec_fn(Animal) -> bool {
    |a: Animal| a.species@ != sp
}

/// The animals of `s` that are not of species `sp`, each once, in the order
/// they have in `s`.
pub open spec fn not_of_species(s: Seq<Animal>, sp: Seq<char>) -> Seq<Animal> {
    s.filter(lacks_species(sp))
}

/// Takes the animals of the food species out of the list.
///
/// Without a food species nothing is taken out. With one, the animals of that
/// species are returned apart from the others, both in the order they came
/// in; where no animal is of that species, the call fails with
/// `Error::NoFood` and the name of the species.
pub fn extract_food(animals: Vec<Animal>, food: Option<&str>) -> (r: Result<
    (Option<Vec<Animal>>, Vec<Animal>),
>)
    ensures
        match food {
            None => r matches Ok((None, rest)) && rest == animals,
            Some(species) => if has_animal_of(animals@, species@) {
                r matches Ok((Some(food_animals), rest)) && food_animals@ == of_species(
                    animals@,
                    species@,
                ) && rest@ == not_of_species(animals@, species@)
            } else {
                r matches Err(Error::NoFood(name)) && name@ == species@
            },
        },
{
    let species = match food {
        Some(species) => species.to_owned(),
        None => {
            return Ok((None, animals));
        },
    };
    let ghost all = animals@;
    let mut food_animals: Vec<Animal> = Vec::new();
    let mut rest: Vec<Animal> = Vec::new();
    assert(all.subrange(0, 0) =~= Seq::<Animal>::empty());
    assert(of_species(Seq::<Animal>::empty(), species@) =~= Seq::<Animal>::empty()
        && not_of_species(Seq::<Animal>::empty(), species@) =~= Seq::<Animal>::empty()) by {
        reveal(Seq::filter);
    }
    for animal in it: animals.into_iter()
        invariant
            it.seq() == all,
            food_animals@ == of_species(all.subrange(0, it.index() as int), species@),
            rest@ == not_of_species(all.subrange(0, it.index() as int), species@),
    {
        proof {
            let seen = all.subrange(0, it.index() as int);
            assert(all.subrange(0, it.index() + 1) =~= seen.push(animal));
            seen.lemma_filter_push(animal, has_species(species@));
            seen.lemma_filter_push(animal, lacks_species(species@));
        }
        if animal.species == species {
            food_animals.push(animal);
        } else {
            rest.push(animal);
        }
    }
    proof {
        assert(all.subrange(0, all.len() as int) =~= all);
        lemma_has_animal_of(all, species@);
    }
    if food_animals.len() == 0 {
        Err(Error::NoFood(species))
    } else {
        Ok((Some(food_animals), rest))
    }
}

} // verus!
