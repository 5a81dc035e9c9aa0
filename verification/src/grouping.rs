//! Grouping animals into one cage per species, and sorting the cages by a
//! key.

use crate::animal::Animal;
use crate::cage::Cage;
use crate::grouping_laws::{lemma_groups_nonempty, lemma_groups_push, lemma_species_distinct};
use crate::order::{
    comes_before, insertion_place, is_stable_order, lemma_stable_order_unique, stable_order,
};
use vstd::multiset::Multiset;
use vstd::prelude::*;

verus! {

/// The test "is of species `sp`".
pub open spec fn has_species(sp: Seq<char>) -> spec_fn(Animal) -> bool {
    |a: Animal| a.species@ == sp
}

/// The animals of `s` that are of species `sp`, each once, in the order they
/// have in `s`.
pub open spec fn of_species(s: Seq<Animal>, sp: Seq<char>) -> Seq<Animal> {
    s.filter(has_species(sp))
}

/// The species that occur in `s`, each once, in the order in which they first
/// appear.
pub open spec fn species_of(s: Seq<Animal>) -> Seq<Seq<char>>
    decreases s.len(),
{
    if s.len() == 0 {
        Seq::empty()
    } else {
        let before = species_of(s.drop_last());
        if before.contains(s.last().species@) {
            before
        } else {
            before.push(s.last().species@)
        }
    }
}

/// The groups of `s`: for each species, in order of first appearance, the
/// animals of that species.
pub open spec fn groups_of(s: Seq<Animal>) -> Seq<Seq<Animal>> {
    Seq::new(species_of(s).len(), |k: int| of_species(s, species_of(s)[k]))
}

/// What a list of cages holds, cage by cage.
pub open spec fn contents(cages: Seq<Cage>) -> Seq<Seq<Animal>> {
    Seq::new(cages.len(), |k: int| cages[k]@)
}

/// Whether some animal of `s` is of species `sp`.
pub open spec fn has_animal_of(s: Seq<Animal>, sp: Seq<char>) -> bool {
    exists|i: int| 0 <= i < s.len() && (#[trigger] s[i]).species@ == sp
}

/// `i` is the place at which the species `sp` first appears in `s`.
pub open spec fn is_first_of(s: Seq<Animal>, sp: Seq<char>, i: int) -> bool {
    &&& 0 <= i < s.len()
    &&& s[i].species@ == sp
    &&& forall|j: int| 0 <= j < i ==> (#[trigger] s[j]).species@ != sp
}

/// All the animals of the groups, each as often as the groups hold it.
pub open spec fn animals_in(groups: Seq<Seq<Animal>>) -> Multiset<Animal> {
    groups.flatten().to_multiset()
}

/// The groups, listed in the given order of their places.
pub open spec fn reordered(groups: Seq<Seq<Animal>>, order: Seq<int>) -> Seq<Seq<Animal>> {
    Seq::new(order.len(), |i: int| groups[order[i]])
}

/// `keys` are keys that `key` has given for `cages`, one for each cage.
pub open spec fn keyed<F: Fn(&Cage) -> usize>(key: F, cages: Seq<Cage>, keys: Seq<usize>) -> bool {
    &&& keys.len() == cages.len()
    &&& forall|k: int| 0 <= k < cages.len() ==> call_ensures(key, (&#[trigger] cages[k],), keys[k])
}

/// The place of the first cage whose animals are of the given species.
fn find_species(cages: &Vec<Cage>, species: &String) -> (r: Option<usize>)
    requires
        forall|k: int| 0 <= k < cages.len() ==> (#[trigger] cages[k])@.len() > 0,
    ensures
        match r {
            Some(k) => k < cages.len() && cages[k as int]@[0].species@ == species@,
            None => forall|k: int|
                0 <= k < cages.len() ==> (#[trigger] cages[k])@[0].species@ != species@,
        },
{
    let mut k: usize = 0;
    while k < cages.len()
        invariant
            k <= cages.len(),
            forall|j: int| 0 <= j < cages.len() ==> (#[trigger] cages[j])@.len() > 0,
            forall|j: int| 0 <= j < k ==> (#[trigger] cages[j])@[0].species@ != species@,
        decreases cages.len() - k,
    {
        if cages[k].animals[0].species == *species {
            return Some(k);
        }
        k += 1;
    }
    None
}

/// Groups the animals by species: one cage for each species, the cages in the
/// order in which their species first appear, and in each cage the animals of
/// its species in the order they came in.
pub fn animal_groups(animals: &[Animal]) -> (r: Vec<Cage>)
    ensures
        contents(r@) == groups_of(animals@),
        forall|k: int| 0 <= k < r.len() ==> (#[trigger] r[k])@.len() > 0,
{
    let mut cages: Vec<Cage> = Vec::new();
    let mut i: usize = 0;
    assert(groups_of(animals@.subrange(0, 0)) =~= contents(cages@));
    while i < animals.len()
        invariant
            i <= animals.len(),
            contents(cages@) == groups_of(animals@.subrange(0, i as int)),
        decreases animals.len() - i,
    {
        let ghost seen = animals@.subrange(0, i as int);
        let ghost listed = species_of(seen);
        let ghost before = cages@;
        let animal = animals[i].clone();
        proof {
            assert(animals@.subrange(0, i + 1) =~= seen.push(animal));
            lemma_groups_push(seen, animal);
            lemma_species_distinct(seen);
            lemma_groups_nonempty(seen);
            assert forall|k: int| 0 <= k < cages.len() implies (#[trigger] cages[k])@.len() > 0
                && cages[k]@[0].species@ == listed[k] by {
                assert(cages[k]@ == contents(cages@)[k]);
                seen.lemma_filter_pred(has_species(listed[k]), 0);
            }
        }
        match find_species(&cages, &animal.species) {
            Some(k) => {
                assert(listed[k as int] == animal.species@);
                cages[k].animals.push(animal);
                assert(contents(cages@) =~= contents(before).update(
                    k as int,
                    before[k as int]@.push(animal),
                ));
            },
            None => {
                proof {
                    if listed.contains(animal.species@) {
                        let k = listed.index_of(animal.species@);
                        assert(cages[k]@[0].species@ == listed[k]);
                    }
                }
                let mut first: Vec<Animal> = Vec::new();
                first.push(animal);
                cages.push(Cage { animals: first });
                assert(contents(cages@) =~= contents(before).push(seq![animal]));
            },
        }
        i += 1;
    }
    proof {
        assert(animals@.subrange(0, i as int) =~= animals@);
        lemma_groups_nonempty(animals@);
        assert forall|k: int| 0 <= k < cages.len() implies (#[trigger] cages[k])@.len() > 0 by {
            assert(cages[k]@ == contents(cages@)[k]);
        }
    }
    cages
}

/// Groups the animals by species as `animal_groups` does, then sorts the
/// cages by ascending key. The sort is stable: cages with equal keys keep the
/// order of the grouping.
///
/// `key` is asked once for each cage of the grouping, and has to accept every
/// cage that holds an animal. The result lists the groups in the stable order
/// of the keys that `key` gave.
pub fn sorted_animal_groups<F: Fn(&Cage) -> usize>(animals: &[Animal], key: F) -> (r: Vec<Cage>)
    requires
        forall|c: Cage| c@.len() > 0 ==> call_requires(key, (&c,)),
    ensures
        exists|cages: Seq<Cage>, keys: Seq<usize>|
            {
                &&& #[trigger] keyed(key, cages, keys)
                &&& contents(cages) == groups_of(animals@)
                &&& contents(r@) == reordered(groups_of(animals@), stable_order(keys))
            },
{
    let mut cages = animal_groups(animals);
    let ghost groups = cages@;
    let n = cages.len();
    let mut keys: Vec<usize> = Vec::new();
    let mut i: usize = 0;
    while i < n
        invariant
            cages@ == groups,
            n == groups.len(),
            i <= n,
            keys.len() == i,
            forall|c: Cage| c@.len() > 0 ==> call_requires(key, (&c,)),
            forall|k: int| 0 <= k < n ==> (#[trigger] groups[k])@.len() > 0,
            forall|k: int| 0 <= k < i ==> call_ensures(key, (&#[trigger] groups[k],), keys[k]),
        decreases n - i,
    {
        let k = key(&cages[i]);
        keys.push(k);
        i += 1;
    }
    let ghost all_keys = keys@;
    let mut sorted: Vec<Cage> = Vec::new();
    let mut sorted_keys: Vec<usize> = Vec::new();
    let ghost mut order: Seq<int> = Seq::empty();
    while cages.len() > 0
        invariant
            n == groups.len(),
            all_keys.len() == n,
            cages.len() <= n,
            cages@ == groups.subrange(0, cages.len() as int),
            keys@ == all_keys.subrange(0, cages.len() as int),
            sorted.len() == n - cages.len(),
            sorted_keys.len() == sorted.len(),
            order.len() == sorted.len(),
            forall|t: int| 0 <= t < order.len() ==> cages.len() <= #[trigger] order[t] < n,
            forall|t: int| 0 <= t < order.len() ==> (#[trigger] sorted[t]) == groups[order[t]],
            forall|t: int|
                0 <= t < order.len() ==> (#[trigger] sorted_keys[t]) == all_keys[order[t]],
            forall|x: int| cages.len() <= x < n ==> #[trigger] order.contains(x),
            forall|t: int, u: int|
                0 <= t < u < order.len() ==> comes_before(
                    all_keys,
                    #[trigger] order[t],
                    #[trigger] order[u],
                ),
        decreases cages.len(),
    {
        let ghost place = cages.len() - 1;
        let ghost old_order = order;
        let ghost old_keys = sorted_keys@;
        let cage = cages.pop().unwrap();
        let k = keys.pop().unwrap();
        let j = insertion_place(&sorted_keys, k);
        sorted.insert(j, cage);
        sorted_keys.insert(j, k);
        proof {
            order = old_order.insert(j as int, place);
            assert forall|t: int| j <= t < old_order.len() implies all_keys[old_order[t]] >= k by {
                if t > j {
                    assert(comes_before(all_keys, old_order[j as int], old_order[t]));
                }
                assert(old_keys[j as int] == all_keys[old_order[j as int]]);
                assert(old_keys[t] == all_keys[old_order[t]]);
            }
            assert forall|x: int| cages.len() <= x < n implies #[trigger] order.contains(x) by {
                if x == place {
                    assert(order[j as int] == x);
                } else {
                    assert(old_order.contains(x));
                    let t = choose|t: int| 0 <= t < old_order.len() && old_order[t] == x;
                    if t < j {
                        assert(order[t] == x);
                    } else {
                        assert(order[t + 1] == x);
                    }
                }
            }
            assert forall|t: int, u: int| 0 <= t < u < order.len() implies comes_before(
                all_keys,
                #[trigger] order[t],
                #[trigger] order[u],
            ) by {
                if t < j && u < j {
                    assert(order[t] == old_order[t] && order[u] == old_order[u]);
                } else if t < j && u == j {
                    assert(order[t] == old_order[t]);
                    assert(old_keys[t] == all_keys[old_order[t]]);
                } else if t < j {
                    assert(order[t] == old_order[t] && order[u] == old_order[u - 1]);
                } else if t == j {
                    assert(order[u] == old_order[u - 1]);
                } else {
                    assert(order[t] == old_order[t - 1] && order[u] == old_order[u - 1]);
                }
            }
            assert forall|t: int| 0 <= t < order.len() implies (#[trigger] sorted[t])
                == groups[order[t]] by {
                if t < j {
                    assert(order[t] == old_order[t]);
                } else if t > j {
                    assert(order[t] == old_order[t - 1]);
                }
            }
            assert forall|t: int| 0 <= t < order.len() implies (#[trigger] sorted_keys[t])
                == all_keys[order[t]] by {
                if t < j {
                    assert(order[t] == old_order[t]);
                } else if t > j {
                    assert(order[t] == old_order[t - 1]);
                }
            }
        }
    }
    proof {
        assert(is_stable_order(all_keys, order));
        lemma_stable_order_unique(all_keys, order);
        assert(keyed(key, groups, all_keys));
        assert(contents(sorted@) =~= reordered(groups_of(animals@), order)) by {
            assert forall|t: int| 0 <= t < order.len() implies (#[trigger] sorted[t])@
                == groups_of(animals@)[order[t]] by {
                assert(contents(groups)[order[t]] == groups[order[t]]@);
            }
        }
    }
    sorted
}

} // verus!
