//! The reasons for which caging a zoo can fail.

use crate::animal::Animal;
use serde_json::Error as JsonError;
use vstd::prelude::*;
use vstd::std_specs::convert::FromSpecImpl;
use vstd::string::{to_string_from_display_ensures, StringExecFns};

verus! {

/// `std::io::Error`, the error of reading or writing a file. It is carried
/// through as it is; nothing is known of what it holds.
#[verifier::external_type_specification]
#[verifier::external_body]
pub struct ExIoError(std::io::Error);

/// `serde_json::Error`, the error of decoding or encoding a document. It is
/// carried through as it is; nothing is known of what it holds.
#[verifier::external_type_specification]
#[verifier::external_body]
pub struct ExJsonError(JsonError);

/// Why a run failed. Every failure ends the run; none is retried.
#[derive(Debug)]
pub enum Error {
    /// The document could not be read or written.
    IOError(std::io::Error),
    /// The document is not a list of animals.
    Serialization(JsonError),
    /// No animal of the species that was asked for as food exists.
    NoFood(String),
    /// The first animal, meant as food, is at least as strong as the second,
    /// the weakest resident of the cage it was delivered to.
    FoodTooStrong(Animal, Animal),
}

/// The result of an operation of this crate.
pub type Result<T> = core::result::Result<T, Error>;

/// What is said of a food species that no animal has.
pub open spec fn no_food_message(species: Seq<char>) -> Seq<char> {
    "There is no food species with the name "@ + species + "!"@
}

/// What is said of a food animal that is too strong for a resident.
pub open spec fn food_too_strong_message(food: Animal, resident: Animal) -> Seq<char> {
    "`"@ + food.name@ + "` of species `"@ + food.species@ + "` is to strong for `"@
        + resident.name@ + "` of species `"@ + resident.species@ + "`."@
}

impl Error {
    /// The failure in words, for the user.
    ///
    /// For a failure of reading, writing or decoding, the words are those of
    /// the error that was passed on.
    pub fn message(&self) -> (r: String)
        ensures
            match self {
                Error::IOError(err) => to_string_from_display_ensures(err, r),
                Error::Serialization(err) => to_string_from_display_ensures(err, r),
                Error::NoFood(species) => r@ == no_food_message(species@),
                Error::FoodTooStrong(food, resident) => r@ == food_too_strong_message(
                    *food,
                    *resident,
                ),
            },
    {
        match self {
            Error::IOError(err) => err.to_string(),
            Error::Serialization(err) => err.to_string(),
            Error::NoFood(species) => {
                let mut text = String::from_str("There is no food species with the name ");
                text.append(species.as_str());
                text.append("!");
                text
            },
            Error::FoodTooStrong(food, resident) => {
                let mut text = String::from_str("`");
                text.append(food.name.as_str());
                text.append("` of species `");
                text.append(food.species.as_str());
                text.append("` is to strong for `");
                text.append(resident.name.as_str());
                text.append("` of species `");
                text.append(resident.species.as_str());
                text.append("`.");
                text
            },
        }
    }
}

impl From<std::io::Error> for Error {
    fn from(err: std::io::Error) -> (r: Self) {
        Error::IOError(err)
    }
}

impl FromSpecImpl<std::io::Error> for Error {
    open spec fn obeys_from_spec() -> bool {
        true
    }

    open spec fn from_spec(err: std::io::Error) -> Self {
        Error::IOError(err)
    }
}

impl From<JsonError> for Error {
    fn from(err: JsonError) -> (r: Self) {
        Error::Serialization(err)
    }
}

impl FromSpecImpl<JsonError> for Error {
    open spec fn obeys_from_spec() -> bool {
        true
    }

    open spec fn from_spec(err: JsonError) -> Self {
        Error::Serialization(err)
    }
}

} // verus!
