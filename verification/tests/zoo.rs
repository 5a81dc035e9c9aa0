use my_zoo::{
    animal_groups, extract_food, fitting_cage, sorted_animal_groups, Animal, Cage, Error,
};

fn animal(name: &str, species: &str, strength: usize, carnivore: bool) -> Animal {
    Animal {
        name: String::from(name),
        species: String::from(species),
        strength,
        carnivore,
    }
}

/// No animal equals another, so lists of animals are compared field by field.
fn same_animals(left: &[Animal], right: &[Animal]) -> bool {
    left.len() == right.len()
        && left.iter().zip(right).all(|(a, b)| {
            a.name == b.name
                && a.species == b.species
                && a.strength == b.strength
                && a.carnivore == b.carnivore
        })
}

fn same_cages(left: &[Cage], right: &[Cage]) -> bool {
    left.len() == right.len()
        && left
            .iter()
            .zip(right)
            .all(|(a, b)| same_animals(&a.animals, &b.animals))
}

#[test]
fn animal_grouping() {
    let a1 = animal("A1", "S1", 10, false);
    let a2 = animal("A2", "S1", 11, false);
    let b1 = animal("B1", "S2", 5, true);
    let b2 = animal("B2", "S2", 6, true);

    let animals = vec![a1.clone(), a2.clone(), b1.clone(), b2.clone()];

    let grouping = animal_groups(&animals);

    let cage1 = Cage {
        animals: vec![a1, a2],
    };
    let cage2 = Cage {
        animals: vec![b1, b2],
    };

    assert!(same_cages(&grouping, &[cage1, cage2]));
}

#[test]
fn sorted_animal_grouping() {
    let a1 = animal("A1", "S1", 9, true);
    let a2 = animal("A2", "S1", 11, true);
    let b1 = animal("B1", "S2", 10, true);
    let b2 = animal("B2", "S2", 8, true);

    let animals = vec![a1.clone(), a2.clone(), b1.clone(), b2.clone()];

    // Sort from weak to strong
    let grouping = sorted_animal_groups(&animals, |cage: &Cage| {
        cage.strongest().unwrap().strength
    });

    let cage1 = Cage {
        animals: vec![a1, a2],
    };
    let cage2 = Cage {
        animals: vec![b1, b2],
    };

    assert!(same_cages(&grouping, &[cage2, cage1]));
}

#[test]
fn fits_cage() {
    let a1 = animal("A1", "S1", 9, true);
    let a2 = animal("A2", "S1", 11, true);
    let b1 = animal("B1", "S2", 10, false);
    let b2 = animal("B2", "S2", 11, false);
    let b3 = animal("B3", "S2", 12, false);

    let cage1 = Cage {
        animals: vec![a1, a2],
    };

    assert!(fitting_cage(&mut [cage1.clone()], &b1).is_none());
    assert!(fitting_cage(&mut [cage1.clone()], &b2).is_none());
    assert!(fitting_cage(&mut [cage1], &b3).is_some());
}

#[test]
fn food_extraction() {
    let a1 = animal("A1", "S1", 10, true);
    let b1 = animal("B1", "S2", 9, false);

    let (food, rest) = extract_food(vec![a1.clone()], None).unwrap();
    assert!(food.is_none());
    assert!(same_animals(&rest, &[a1.clone()]));

    let (food, rest) = extract_food(vec![a1.clone(), b1.clone()], Some("S2")).unwrap();
    assert!(same_animals(&food.unwrap(), &[b1.clone()]));
    assert!(same_animals(&rest, &[a1.clone()]));

    assert!(extract_food(vec![a1], Some("S2")).is_err());
}

#[test]
fn food_delivery() {
    let a1 = animal("A1", "S1", 10, true);
    let b1 = animal("B1", "S2", 9, false);
    let b2 = animal("B2", "S2", 10, false);
    let b3 = animal("B3", "S2", 11, false);

    let mut cage1 = Cage { animals: vec![a1] };
    let food_cage1 = Cage { animals: vec![b1] };
    let food_cage2 = Cage { animals: vec![b2] };
    let food_cage3 = Cage { animals: vec![b3] };

    assert!(cage1.deliver_food(food_cage1).is_ok());
    assert!(cage1.deliver_food(food_cage2).is_err());
    assert!(cage1.deliver_food(food_cage3).is_err());
}

#[test]
fn extraction_names_the_missing_species() {
    let a1 = animal("A1", "S1", 10, true);
    match extract_food(vec![a1], Some("S2")) {
        Err(Error::NoFood(species)) => assert_eq!(species, "S2"),
        _ => panic!("the species has no animal"),
    }
}

#[test]
fn groups_follow_first_appearance() {
    let animals = vec![
        animal("Z1", "Zebra", 4, false),
        animal("A1", "Ant", 1, false),
        animal("Z2", "Zebra", 3, false),
        animal("M1", "Mole", 2, false),
        animal("A2", "Ant", 1, false),
    ];

    let grouping = animal_groups(&animals);

    let zebras = Cage {
        animals: vec![animals[0].clone(), animals[2].clone()],
    };
    let ants = Cage {
        animals: vec![animals[1].clone(), animals[4].clone()],
    };
    let moles = Cage {
        animals: vec![animals[3].clone()],
    };
    assert!(same_cages(&grouping, &[zebras, ants, moles]));
}

#[test]
fn grouping_nothing_gives_no_cage() {
    assert!(animal_groups(&[]).is_empty());
}

#[test]
fn sorting_keeps_the_order_of_equal_keys() {
    let animals = vec![
        animal("C1", "Cat", 7, true),
        animal("D1", "Dog", 5, true),
        animal("E1", "Eel", 7, true),
        animal("F1", "Fox", 5, true),
    ];

    let grouping = sorted_animal_groups(&animals, |cage: &Cage| {
        cage.strongest().unwrap().strength
    });

    let species: Vec<&str> = grouping
        .iter()
        .map(|cage| cage.animals[0].species.as_str())
        .collect();
    assert_eq!(species, vec!["Dog", "Fox", "Cat", "Eel"]);
}

#[test]
fn extraction_keeps_the_order_on_both_sides() {
    let animals = vec![
        animal("G1", "Gnu", 3, false),
        animal("H1", "Hen", 1, false),
        animal("G2", "Gnu", 2, false),
        animal("I1", "Ibis", 1, false),
        animal("H2", "Hen", 1, false),
    ];

    let (food, rest) = extract_food(animals.clone(), Some("Hen")).unwrap();

    assert!(same_animals(
        &food.unwrap(),
        &[animals[1].clone(), animals[4].clone()]
    ));
    assert!(same_animals(
        &rest,
        &[animals[0].clone(), animals[2].clone(), animals[3].clone()]
    ));
}

#[test]
fn first_fitting_cage_is_taken() {
    let strong = Cage {
        animals: vec![animal("L1", "Lion", 30, true)],
    };
    let weak = Cage {
        animals: vec![animal("C1", "Cat", 3, true)],
    };
    let weaker = Cage {
        animals: vec![animal("M1", "Mink", 2, true)],
    };
    let herbivore = animal("G1", "Gnu", 10, false);

    let mut cages = [strong, weak, weaker];
    let found = fitting_cage(&mut cages, &herbivore).unwrap();
    assert_eq!(found.animals[0].name, "C1");

    assert!(fitting_cage(&mut [], &herbivore).is_none());
}
