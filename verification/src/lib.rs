//! Caging a zoo: animals are grouped by species, carnivore groups are ordered
//! by strength, and herbivore groups are placed with carnivores they can
//! withstand.

pub mod allocation;
pub mod animal;
pub mod cage;
pub mod caging;
pub mod caging_laws;
pub mod error;
pub mod food;
pub mod grouping;
pub mod grouping_laws;
pub mod order;
pub mod practices;

pub use allocation::{fitting_cage, relocate_animals};
pub use animal::Animal;
pub use cage::Cage;
pub use caging::cage_em_all;
pub use error::{Error, Result};
pub use food::extract_food;
pub use grouping::{animal_groups, sorted_animal_groups};
pub use practices::panic_result_example;
