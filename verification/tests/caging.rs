use my_zoo::caging::{key_strongest_first, split_by_diet};
use my_zoo::{cage_em_all, relocate_animals, Animal, Cage, Error};

fn animal(name: &str, species: &str, strength: usize, carnivore: bool) -> Animal {
    Animal {
        name: String::from(name),
        species: String::from(species),
        strength,
        carnivore,
    }
}

fn names(cages: &[Cage]) -> Vec<Vec<&str>> {
    cages
        .iter()
        .map(|cage| cage.animals.iter().map(|a| a.name.as_str()).collect())
        .collect()
}

#[test]
fn diet_splits_the_animals_in_order() {
    let (carnivores, herbivores) = split_by_diet(vec![
        animal("A", "S", 1, false),
        animal("B", "T", 2, true),
        animal("C", "S", 3, false),
        animal("D", "U", 4, true),
    ]);
    let carnivores: Vec<&str> = carnivores.iter().map(|a| a.name.as_str()).collect();
    let herbivores: Vec<&str> = herbivores.iter().map(|a| a.name.as_str()).collect();
    assert_eq!(carnivores, vec!["B", "D"]);
    assert_eq!(herbivores, vec!["A", "C"]);
}

#[test]
fn key_falls_as_the_strongest_animal_grows() {
    let cage = Cage::from(vec![animal("A", "S", 3, true), animal("B", "S", 8, true)]);
    assert_eq!(key_strongest_first(&cage), usize::MAX - 8);
    let giant = Cage::from(vec![animal("G", "S", usize::MAX, true)]);
    assert_eq!(key_strongest_first(&giant), 0);
}

#[test]
fn groups_join_the_first_cage_they_fit_into() {
    let carnivores = vec![
        Cage::from(vec![animal("L", "Lion", 20, true)]),
        Cage::from(vec![animal("C", "Cat", 5, true)]),
        Cage::from(vec![animal("M", "Mink", 2, true)]),
    ];
    let herbivores = vec![
        // The weakest gnu, of strength 10, fits with the cat; the cage then
        // holds an animal of strength 12.
        Cage::from(vec![animal("G1", "Gnu", 12, false), animal("G2", "Gnu", 10, false)]),
        // 11 is below 12 now, so the hens go on to the mink.
        Cage::from(vec![animal("H1", "Hen", 11, false)]),
        // 1 fits nowhere.
        Cage::from(vec![animal("I1", "Ibis", 1, false)]),
        // 2 is not above the mink's 2, nor above anything else.
        Cage::from(vec![animal("J1", "Jay", 2, false), animal("J2", "Jay", 9, false)]),
    ];

    let cages = relocate_animals(carnivores, herbivores);

    assert_eq!(
        names(&cages),
        vec![
            vec!["L"],
            vec!["C", "G1", "G2"],
            vec!["M", "H1"],
            vec!["I1", "J1", "J2"],
        ]
    );
}

#[test]
fn without_herbivores_the_last_cage_is_empty() {
    let cages = relocate_animals(vec![Cage::from(vec![animal("L", "Lion", 20, true)])], vec![]);
    assert_eq!(names(&cages), vec![vec!["L"], vec![]]);
    let cages = relocate_animals(vec![], vec![]);
    assert_eq!(names(&cages), vec![Vec::<&str>::new()]);
}

#[test]
fn without_carnivores_all_herbivores_share_the_last_cage() {
    let herbivores = vec![
        Cage::from(vec![animal("G", "Gnu", 12, false)]),
        Cage::from(vec![animal("H", "Hen", 1, false)]),
    ];
    let cages = relocate_animals(vec![], herbivores);
    assert_eq!(names(&cages), vec![vec!["G", "H"]]);
}

fn zoo() -> Vec<Animal> {
    vec![
        animal("C1", "Cat", 3, true),
        animal("G1", "Gnu", 10, false),
        animal("L1", "Lion", 20, true),
        animal("H1", "Hen", 1, false),
        animal("C2", "Cat", 5, true),
        animal("W1", "Wolf", 20, true),
        animal("G2", "Gnu", 12, false),
        animal("E1", "Elk", 30, false),
    ]
}

#[test]
fn the_zoo_is_caged() {
    let cages = cage_em_all(zoo(), None).unwrap();
    // Lions and wolves are equally strong and keep their order; the cats come
    // last. The gnus withstand the cats, the elk withstands the lion, and the
    // hen nobody.
    assert_eq!(
        names(&cages),
        vec![
            vec!["L1", "E1"],
            vec!["W1"],
            vec!["C1", "C2", "G1", "G2"],
            vec!["H1"],
        ]
    );
}

#[test]
fn food_goes_to_the_strongest_carnivores() {
    let cages = cage_em_all(zoo(), Some("Hen")).unwrap();
    assert_eq!(
        names(&cages),
        vec![
            vec!["L1", "H1", "E1"],
            vec!["W1"],
            vec!["C1", "C2", "G1", "G2"],
            vec![],
        ]
    );
}

#[test]
fn food_that_nobody_is_fails() {
    match cage_em_all(zoo(), Some("Yak")) {
        Err(Error::NoFood(species)) => assert_eq!(species, "Yak"),
        _ => panic!("no animal is a yak"),
    }
}

#[test]
fn food_as_strong_as_the_lion_fails() {
    let mut animals = zoo();
    animals.push(animal("B1", "Bull", 20, false));
    match cage_em_all(animals, Some("Bull")) {
        Err(Error::FoodTooStrong(food, resident)) => {
            assert_eq!(food.name, "B1");
            assert_eq!(resident.name, "L1");
        }
        _ => panic!("the bull is as strong as the lion"),
    }
}

#[test]
fn carnivores_can_be_food() {
    let cages = cage_em_all(zoo(), Some("Cat")).unwrap();
    assert_eq!(
        names(&cages),
        vec![
            vec!["L1", "C1", "C2", "E1"],
            vec!["W1"],
            vec!["G1", "G2", "H1"],
        ]
    );
}

#[test]
fn an_empty_zoo_gives_one_empty_cage() {
    let cages = cage_em_all(vec![], None).unwrap();
    assert_eq!(names(&cages), vec![Vec::<&str>::new()]);
}

#[test]
fn herbivores_and_carnivores_are_grouped_apart() {
    let animals = vec![
        animal("A1", "S1", 10, false),
        animal("A2", "S1", 11, false),
        animal("B1", "S2", 5, true),
        animal("B2", "S2", 6, true),
    ];

    let (carnivores, herbivores) = split_by_diet(animals);

    assert_eq!(names(&my_zoo::animal_groups(&herbivores)), vec![vec!["A1", "A2"]]);
    assert_eq!(names(&my_zoo::animal_groups(&carnivores)), vec![vec!["B1", "B2"]]);
}
