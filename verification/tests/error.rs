use my_zoo::{Animal, Error};

fn animal(name: &str, species: &str, strength: usize, carnivore: bool) -> Animal {
    Animal {
        name: String::from(name),
        species: String::from(species),
        strength,
        carnivore,
    }
}

#[test]
fn missing_food_is_named() {
    let error = Error::NoFood(String::from("Hen"));
    assert_eq!(
        error.message(),
        "There is no food species with the name Hen!"
    );
}

#[test]
fn strong_food_is_named_with_the_resident() {
    let error = Error::FoodTooStrong(
        animal("Berta", "Bull", 20, false),
        animal("Leo", "Lion", 20, true),
    );
    assert_eq!(
        error.message(),
        "`Berta` of species `Bull` is to strong for `Leo` of species `Lion`."
    );
}

#[test]
fn io_errors_are_passed_on() {
    let inner = std::io::Error::new(std::io::ErrorKind::NotFound, "no such zoo");
    let words = inner.to_string();
    let error = Error::from(inner);
    assert!(matches!(error, Error::IOError(_)));
    assert_eq!(error.message(), words);
    assert_eq!(error.message(), "no such zoo");
}

#[test]
fn json_errors_are_passed_on() {
    let inner = serde_json::from_str::<Vec<usize>>("[1, 2").unwrap_err();
    let words = inner.to_string();
    let error = Error::from(inner);
    assert!(matches!(error, Error::Serialization(_)));
    assert_eq!(error.message(), words);
}
