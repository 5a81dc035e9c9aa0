use my_zoo::{Animal, Cage, Error};
use std::cmp::Ordering;

fn animal(name: &str, species: &str, strength: usize, carnivore: bool) -> Animal {
    Animal {
        name: String::from(name),
        species: String::from(species),
        strength,
        carnivore,
    }
}

fn names(cage: &Cage) -> Vec<&str> {
    cage.animals.iter().map(|a| a.name.as_str()).collect()
}

#[test]
fn no_animal_equals_another() {
    let a = animal("A", "S", 1, false);
    let twin = a.clone();
    assert!(a != twin);
    assert!(!(a == twin));
}

#[test]
fn animals_are_ordered_by_strength_alone() {
    let weak = animal("Z", "Zebra", 1, true);
    let strong = animal("A", "Ant", 2, false);
    let tie = animal("M", "Mole", 2, true);

    assert_eq!(weak.cmp(&strong), Ordering::Less);
    assert_eq!(strong.cmp(&weak), Ordering::Greater);
    assert_eq!(strong.cmp(&tie), Ordering::Equal);
    assert_eq!(strong.partial_cmp(&tie), Some(Ordering::Equal));
    assert!(weak < strong);
    assert!(strong <= tie && strong >= tie);
    assert!(!(strong < tie) && !(strong > tie));
}

#[test]
fn clone_keeps_every_field() {
    let a = animal("A", "S", 7, true);
    let b = a.clone();
    assert_eq!(b.name, "A");
    assert_eq!(b.species, "S");
    assert_eq!(b.strength, 7);
    assert!(b.carnivore);
}

#[test]
fn empty_cage_has_no_weakest_and_no_strongest() {
    let cage = Cage::default();
    assert!(cage.animals.is_empty());
    assert!(cage.weakest().is_none());
    assert!(cage.strongest().is_none());
}

#[test]
fn first_of_equally_strong_animals_is_picked() {
    let cage = Cage::from(vec![
        animal("A", "S", 5, true),
        animal("B", "S", 9, true),
        animal("C", "S", 2, true),
        animal("D", "S", 9, true),
        animal("E", "S", 2, true),
    ]);
    assert_eq!(cage.weakest().unwrap().name, "C");
    assert_eq!(cage.strongest().unwrap().name, "B");
    assert!(cage.weakest().unwrap().strength <= cage.strongest().unwrap().strength);
}

#[test]
fn move_from_appends_in_order() {
    let mut cage = Cage::from(vec![animal("A", "S", 1, true), animal("B", "S", 2, true)]);
    let other = Cage::from(vec![animal("C", "T", 3, false), animal("D", "T", 4, false)]);
    cage.move_from(other);
    assert_eq!(names(&cage), vec!["A", "B", "C", "D"]);
    cage.move_from(Cage::default());
    assert_eq!(names(&cage), vec!["A", "B", "C", "D"]);
}

#[test]
fn cage_clone_holds_the_same_animals() {
    let cage = Cage::from(vec![animal("A", "S", 1, true), animal("B", "S", 2, true)]);
    let copy = cage.clone();
    assert_eq!(names(&copy), vec!["A", "B"]);
    assert_eq!(copy.animals[1].strength, 2);
}

#[test]
fn only_empty_cages_are_equal() {
    assert!(Cage::default() == Cage::default());
    let cage = Cage::from(vec![animal("A", "S", 1, true)]);
    assert!(cage != cage.clone());
}

#[test]
fn herbivore_fits_only_above_the_strongest() {
    let cage = Cage::from(vec![animal("A", "S", 9, true), animal("B", "S", 11, true)]);
    assert!(!cage.fits(&animal("H", "T", 10, false)));
    assert!(!cage.fits(&animal("H", "T", 11, false)));
    assert!(cage.fits(&animal("H", "T", 12, false)));
    assert!(Cage::default().fits(&animal("H", "T", 0, false)));
}

#[test]
fn food_goes_to_the_end_of_the_cage() {
    let mut cage = Cage::from(vec![animal("A", "S", 10, true), animal("B", "S", 12, true)]);
    let food = Cage::from(vec![animal("F", "T", 9, false), animal("G", "T", 3, true)]);
    assert!(cage.deliver_food(food).is_ok());
    assert_eq!(names(&cage), vec!["A", "B", "F", "G"]);
}

#[test]
fn food_too_strong_names_both_animals_and_changes_nothing() {
    let mut cage = Cage::from(vec![
        animal("A", "S", 12, true),
        animal("B", "S", 10, true),
        animal("C", "S", 10, true),
    ]);
    let food = Cage::from(vec![
        animal("F", "T", 9, false),
        animal("G", "T", 10, false),
        animal("H", "T", 10, false),
    ]);
    match cage.deliver_food(food) {
        Err(Error::FoodTooStrong(strongest_food, weakest_resident)) => {
            assert_eq!(strongest_food.name, "G");
            assert_eq!(weakest_resident.name, "B");
        }
        _ => panic!("the food is as strong as the weakest resident"),
    }
    assert_eq!(names(&cage), vec!["A", "B", "C"]);
}

#[test]
fn empty_cages_take_and_give_any_food() {
    let mut cage = Cage::default();
    let food = Cage::from(vec![animal("F", "T", 99, false)]);
    assert!(cage.deliver_food(food).is_ok());
    assert_eq!(names(&cage), vec!["F"]);
    assert!(cage.deliver_food(Cage::default()).is_ok());
    assert_eq!(names(&cage), vec!["F"]);
}

#[test]
fn food_has_to_be_weaker_than_the_resident() {
    let resident = || Cage::from(vec![animal("A1", "S1", 10, true)]);

    let mut cage = resident();
    assert!(cage
        .deliver_food(Cage::from(vec![animal("B1", "S2", 9, false)]))
        .is_ok());
    assert_eq!(names(&cage), vec!["A1", "B1"]);

    let mut cage = resident();
    assert!(matches!(
        cage.deliver_food(Cage::from(vec![animal("B2", "S2", 10, false)])),
        Err(Error::FoodTooStrong(_, _))
    ));
    assert_eq!(names(&cage), vec!["A1"]);

    let mut cage = resident();
    assert!(matches!(
        cage.deliver_food(Cage::from(vec![animal("B3", "S2", 11, false)])),
        Err(Error::FoodTooStrong(_, _))
    ));
    assert_eq!(names(&cage), vec!["A1"]);
}
