//! Placing herbivores: the first cage that a herbivore fits into, and the
//! relocation of whole groups of herbivores.

use crate::animal::Animal;
use crate::cage::{fits_in, weakest_index, Cage};
use crate::grouping::{animals_in, contents};
use crate::grouping_laws::{lemma_joining_adds_animals, lemma_no_animals};
use vstd::prelude::*;
use vstd::seq_lib::lemma_multiset_commutative;

verus! {

/// `i` is the place of the first group that the herbivore fits into.
pub open spec fn is_first_fit(groups: Seq<Seq<Animal>>, herbivore: Animal, i: int) -> bool {
    &&& 0 <= i < groups.len()
    &&& fits_in(groups[i], herbivore)
    &&& forall|j: int| 0 <= j < i ==> !fits_in(#[trigger] groups[j], herbivore)
}

/// The place of the first group, in the order of the list, that the herbivore
/// fits into; nothing where it fits into none.
pub open spec fn first_fit(groups: Seq<Seq<Animal>>, herbivore: Animal) -> Option<int> {
    if exists|i: int| is_first_fit(groups, herbivore, i) {
        Some(choose|i: int| is_first_fit(groups, herbivore, i))
    } else {
        None
    }
}

/// Only one place is the place of the first fit.
pub proof fn lemma_first_fit_unique(groups: Seq<Seq<Animal>>, herbivore: Animal, i: int)
    requires
        is_first_fit(groups, herbivore, i),
    ensures
        first_fit(groups, herbivore) == Some(i),
{
    let k = choose|k: int| is_first_fit(groups, herbivore, k);
    if k < i {
        assert(!fits_in(groups[k], herbivore));
    } else if i < k {
        assert(!fits_in(groups[i], herbivore));
    }
}

/// Where the herbivore fits into no group, there is no first fit.
pub proof fn lemma_no_fit(groups: Seq<Seq<Animal>>, herbivore: Animal)
    requires
        forall|j: int| 0 <= j < groups.len() ==> !fits_in(#[trigger] groups[j], herbivore),
    ensures
        first_fit(groups, herbivore) is None,
{
}

/// The place of the first cage that the herbivore fits into.
fn fitting_place(cages: &[Cage], herbivore: &Animal) -> (r: Option<usize>)
    requires
        !herbivore.carnivore,
    ensures
        match r {
            Some(i) => first_fit(contents(cages@), *herbivore) == Some(i as int),
            None => first_fit(contents(cages@), *herbivore) is None,
        },
{
    let mut i: usize = 0;
    while i < cages.len()
        invariant
            i <= cages.len(),
            !herbivore.carnivore,
            forall|j: int| 0 <= j < i ==> !fits_in(#[trigger] contents(cages@)[j], *herbivore),
        decreases cages.len() - i,
    {
        if cages[i].fits(herbivore) {
            proof {
                lemma_first_fit_unique(contents(cages@), *herbivore, i as int);
            }
            return Some(i);
        }
        i += 1;
    }
    proof {
        lemma_no_fit(contents(cages@), *herbivore);
    }
    None
}

/// The first cage, in the order of the list, that the herbivore fits into.
/// Cages after it are not looked at, however well they would fit.
pub fn fitting_cage<'a>(cages: &'a mut [Cage], herbivore: &Animal) -> (r: Option<&'a mut Cage>)
    requires
        !herbivore.carnivore,
    ensures
        match r {
            Some(cage) => first_fit(contents(old(cages)@), *herbivore) matches Some(i) && *cage
                == old(cages)@[i] && final(cages)@ == old(cages)@.update(i, *final(cage)),
            None => first_fit(contents(old(cages)@), *herbivore) is None && final(cages)@ == old(
                cages,
            )@,
        },
{
    match fitting_place(cages, herbivore) {
        Some(i) => Some(&mut cages[i]),
        None => None,
    }
}

/// Whether a group of herbivores can be relocated: it has animals, and its
/// weakest animal is a herbivore.
pub open spec fn relocatable(group: Seq<Animal>) -> bool {
    group.len() > 0 && !group[weakest_index(group)].carnivore
}

/// The cages after the groups of herbivores have been relocated, one group
/// after the other in the order of their list.
///
/// A group goes as a whole to the end of the first carnivore cage that its
/// weakest animal fits into, as the cages stand when its turn comes. A group
/// whose weakest animal fits into none goes to the end of `leftover`. The
/// outcome is the carnivore cages followed by `leftover`.
pub open spec fn relocated(
    carnivores: Seq<Seq<Animal>>,
    leftover: Seq<Animal>,
    herbivores: Seq<Seq<Animal>>,
) -> Seq<Seq<Animal>>
    decreases herbivores.len(),
{
    if herbivores.len() == 0 {
        carnivores.push(leftover)
    } else {
        let group = herbivores[0];
        match first_fit(carnivores, group[weakest_index(group)]) {
            Some(i) => relocated(
                carnivores.update(i, carnivores[i] + group),
                leftover,
                herbivores.drop_first(),
            ),
            None => relocated(carnivores, leftover + group, herbivores.drop_first()),
        }
    }
}

/// Relocation adds one cage, and neither drops an animal nor holds one
/// twice: the cages that come out hold the animals of the carnivore cages, of
/// the leftover cage and of the groups of herbivores.
pub proof fn lemma_relocated_keeps_animals(
    carnivores: Seq<Seq<Animal>>,
    leftover: Seq<Animal>,
    herbivores: Seq<Seq<Animal>>,
)
    ensures
        relocated(carnivores, leftover, herbivores).len() == carnivores.len() + 1,
        animals_in(relocated(carnivores, leftover, herbivores)) == animals_in(carnivores).add(
            leftover.to_multiset(),
        ).add(animals_in(herbivores)),
    decreases herbivores.len(),
{
    broadcast use vstd::multiset::group_multiset_axioms;

    let outcome = relocated(carnivores, leftover, herbivores);
    if herbivores.len() == 0 {
        carnivores.lemma_flatten_push(leftover);
        lemma_multiset_commutative(carnivores.flatten(), leftover);
        assert(herbivores =~= Seq::<Seq<Animal>>::empty());
        lemma_no_animals();
    } else {
        let group = herbivores[0];
        let rest = herbivores.drop_first();
        lemma_multiset_commutative(group, rest.flatten());
        match first_fit(carnivores, group[weakest_index(group)]) {
            Some(i) => {
                assert(is_first_fit(carnivores, group[weakest_index(group)], i));
                lemma_joining_adds_animals(carnivores, i, group);
                lemma_relocated_keeps_animals(
                    carnivores.update(i, carnivores[i] + group),
                    leftover,
                    rest,
                );
            },
            None => {
                lemma_multiset_commutative(leftover, group);
                lemma_relocated_keeps_animals(carnivores, leftover + group, rest);
            },
        }
    }
    assert(animals_in(outcome) =~= animals_in(carnivores).add(leftover.to_multiset()).add(
        animals_in(herbivores),
    ));
}

/// Puts each group of herbivores into the first carnivore cage that its
/// weakest animal fits into. The groups that fit nowhere are gathered, in the
/// order of their turn, in one more cage, which is the last of the result.
pub fn relocate_animals(carnivore_cages: Vec<Cage>, herbivore_cages: Vec<Cage>) -> (r: Vec<Cage>)
    requires
        forall|k: int|
            0 <= k < herbivore_cages.len() ==> relocatable((#[trigger] herbivore_cages[k])@),
    ensures
        contents(r@) == relocated(
            contents(carnivore_cages@),
            Seq::empty(),
            contents(herbivore_cages@),
        ),
{
    let mut cages = carnivore_cages;
    let mut weak_herbivores = Cage::default();
    let ghost groups = contents(herbivore_cages@);
    let ghost outcome = relocated(contents(carnivore_cages@), Seq::empty(), groups);
    assert(groups.subrange(0, groups.len() as int) =~= groups);

    for herbivores in it: herbivore_cages.into_iter()
        invariant
            it.seq() == herbivore_cages@,
            groups == contents(herbivore_cages@),
            forall|k: int|
                0 <= k < herbivore_cages.len() ==> relocatable((#[trigger] herbivore_cages[k])@),
            outcome == relocated(
                contents(cages@),
                weak_herbivores@,
                groups.subrange(it.index() as int, groups.len() as int),
            ),
    {
        let ghost rest = groups.subrange(it.index() as int, groups.len() as int);
        let ghost before = contents(cages@);
        assert(rest.drop_first() =~= groups.subrange(it.index() + 1, groups.len() as int));
        assert(rest[0] == herbivores@);
        let weakest_herbivore = herbivores.weakest().unwrap();
        match fitting_cage(cages.as_mut_slice(), weakest_herbivore) {
            Some(cage) => {
                cage.move_from(herbivores);
                proof {
                    let i = first_fit(before, *weakest_herbivore).unwrap();
                    assert(contents(cages@) =~= before.update(i, before[i] + rest[0]));
                }
            },
            None => {
                weak_herbivores.move_from(herbivores);
                assert(contents(cages@) =~= before);
            },
        }
    }
    cages.push(weak_herbivores);
    assert(contents(cages@) =~= contents(cages@.drop_last()).push(weak_herbivores@));
    cages
}

} // verus!
