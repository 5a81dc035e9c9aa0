//! A cage: an ordered group of animals that grows by taking over the animals
//! of other cages.

use crate::animal::Animal;
use crate::error::{Error, Result};
use vstd::prelude::*;
use vstd::std_specs::convert::FromSpecImpl;

verus! {

/// An ordered group of animals. The order is the order in which the animals
/// were put in.
#[derive(Debug, PartialEq, Eq)]
pub struct Cage {
    pub animals: Vec<Animal>,
}

impl View for Cage {
    type V = Seq<Animal>;

    open spec fn view(&self) -> Seq<Animal> {
        self.animals@
    }
}

/// `i` is the place of the weakest animal of `s`: no animal of `s` is weaker,
/// and every animal before it is stronger.
pub open spec fn is_weakest_at(s: Seq<Animal>, i: int) -> bool {
    &&& 0 <= i < s.len()
    &&& forall|j: int| 0 <= j < s.len() ==> s[i].strength <= (#[trigger] s[j]).strength
    &&& forall|j: int| 0 <= j < i ==> s[i].strength < (#[trigger] s[j]).strength
}

/// `i` is the place of the strongest animal of `s`: no animal of `s` is
/// stronger, and every animal before it is weaker.
pub open spec fn is_strongest_at(s: Seq<Animal>, i: int) -> bool {
    &&& 0 <= i < s.len()
    &&& forall|j: int| 0 <= j < s.len() ==> (#[trigger] s[j]).strength <= s[i].strength
    &&& forall|j: int| 0 <= j < i ==> (#[trigger] s[j]).strength < s[i].strength
}

/// The place of the weakest animal of a group that is not empty.
pub open spec fn weakest_index(s: Seq<Animal>) -> int {
    choose|i: int| is_weakest_at(s, i)
}

/// The place of the strongest animal of a group that is not empty.
pub open spec fn strongest_index(s: Seq<Animal>) -> int {
    choose|i: int| is_strongest_at(s, i)
}

/// The weakest animal of the group, the first of them where several are
/// equally weak; nothing for an empty group.
pub open spec fn weakest_of(s: Seq<Animal>) -> Option<Animal> {
    if s.len() == 0 {
        None
    } else {
        Some(s[weakest_index(s)])
    }
}

/// The strongest animal of the group, the first of them where several are
/// equally strong; nothing for an empty group.
pub open spec fn strongest_of(s: Seq<Animal>) -> Option<Animal> {
    if s.len() == 0 {
        None
    } else {
        Some(s[strongest_index(s)])
    }
}

/// Whether a herbivore may join the group: the group is empty, or its
/// strongest animal is strictly weaker than the herbivore.
pub open spec fn fits_in(s: Seq<Animal>, herbivore: Animal) -> bool {
    match strongest_of(s) {
        Some(strongest) => strongest.strength < herbivore.strength,
        None => true,
    }
}

/// Whether `food` must not be delivered to `residents`: both groups have
/// animals, and the strongest food animal is at least as strong as the weakest
/// resident.
pub open spec fn food_too_strong(residents: Seq<Animal>, food: Seq<Animal>) -> bool {
    match (strongest_of(food), weakest_of(residents)) {
        (Some(strongest_food), Some(weakest_resident)) => strongest_food.strength
            >= weakest_resident.strength,
        _ => false,
    }
}

/// A group that is not empty has a weakest animal.
pub proof fn lemma_weakest_exists(s: Seq<Animal>)
    requires
        s.len() > 0,
    ensures
        is_weakest_at(s, weakest_index(s)),
    decreases s.len(),
{
    if s.len() == 1 {
        assert(is_weakest_at(s, 0));
    } else {
        let front = s.drop_last();
        let last = s.len() - 1;
        lemma_weakest_exists(front);
        let w = weakest_index(front);
        let i = if s[last].strength < s[w].strength {
            last
        } else {
            w
        };
        assert forall|j: int| 0 <= j < s.len() implies s[i].strength <= (
        #[trigger] s[j]).strength by {
            if j < last {
                assert(front[w].strength <= front[j].strength);
            }
        }
        assert forall|j: int| 0 <= j < i implies s[i].strength < (#[trigger] s[j]).strength by {
            assert(front[w].strength <= front[j].strength);
            if j < w {
                assert(front[w].strength < front[j].strength);
            }
        }
        assert(is_weakest_at(s, i));
    }
}

/// A group that is not empty has a strongest animal.
pub proof fn lemma_strongest_exists(s: Seq<Animal>)
    requires
        s.len() > 0,
    ensures
        is_strongest_at(s, strongest_index(s)),
    decreases s.len(),
{
    if s.len() == 1 {
        assert(is_strongest_at(s, 0));
    } else {
        let front = s.drop_last();
        let last = s.len() - 1;
        lemma_strongest_exists(front);
        let g = strongest_index(front);
        let i = if s[last].strength > s[g].strength {
            last
        } else {
            g
        };
        assert forall|j: int| 0 <= j < s.len() implies (#[trigger] s[j]).strength
            <= s[i].strength by {
            if j < last {
                assert(front[j].strength <= front[g].strength);
            }
        }
        assert forall|j: int| 0 <= j < i implies (#[trigger] s[j]).strength < s[i].strength by {
            assert(front[j].strength <= front[g].strength);
            if j < g {
                assert(front[j].strength < front[g].strength);
            }
        }
        assert(is_strongest_at(s, i));
    }
}

/// In a group that is not empty, the weakest animal is not stronger than the
/// strongest.
pub proof fn lemma_weakest_below_strongest(s: Seq<Animal>)
    requires
        s.len() > 0,
    ensures
        weakest_of(s) matches Some(weakest) && strongest_of(s) matches Some(strongest)
            && weakest.strength <= strongest.strength,
{
    lemma_weakest_exists(s);
    lemma_strongest_exists(s);
    assert(s[weakest_index(s)].strength <= s[strongest_index(s)].strength);
}

/// Only one place is the place of the weakest animal.
pub proof fn lemma_weakest_unique(s: Seq<Animal>, i: int)
    requires
        is_weakest_at(s, i),
    ensures
        weakest_index(s) == i,
        weakest_of(s) == Some(s[i]),
{
    let k = weakest_index(s);
    assert(is_weakest_at(s, k));
    if k < i {
        assert(s[i].strength < s[k].strength);
        assert(s[k].strength <= s[i].strength);
    } else if i < k {
        assert(s[k].strength < s[i].strength);
        assert(s[i].strength <= s[k].strength);
    }
}

/// Only one place is the place of the strongest animal.
pub proof fn lemma_strongest_unique(s: Seq<Animal>, i: int)
    requires
        is_strongest_at(s, i),
    ensures
        strongest_index(s) == i,
        strongest_of(s) == Some(s[i]),
{
    let k = strongest_index(s);
    assert(is_strongest_at(s, k));
    if k < i {
        assert(s[k].strength < s[i].strength);
        assert(s[i].strength <= s[k].strength);
    } else if i < k {
        assert(s[i].strength < s[k].strength);
        assert(s[k].strength <= s[i].strength);
    }
}

impl Clone for Cage {
    fn clone(&self) -> (r: Self)
        ensures
            r@ == self@,
    {
        let mut animals: Vec<Animal> = Vec::new();
        let mut i: usize = 0;
        while i < self.animals.len()
            invariant
                i <= self.animals.len(),
                animals@ == self.animals@.subrange(0, i as int),
            decreases self.animals.len() - i,
        {
            animals.push(self.animals[i].clone());
            i += 1;
        }
        Cage { animals }
    }
}

impl Default for Cage {
    fn default() -> (r: Self)
        ensures
            r@ == Seq::<Animal>::empty(),
    {
        Cage { animals: Vec::new() }
    }
}

impl From<Vec<Animal>> for Cage {
    fn from(animals: Vec<Animal>) -> (r: Self) {
        Cage { animals }
    }
}

impl FromSpecImpl<Vec<Animal>> for Cage {
    open spec fn obeys_from_spec() -> bool {
        true
    }

    open spec fn from_spec(animals: Vec<Animal>) -> Self {
        Cage { animals }
    }
}

impl Cage {
    /// Moves every animal of `cage` to the end of this cage, in their order.
    pub fn move_from(&mut self, cage: Cage)
        ensures
            final(self)@ == old(self)@ + cage@,
    {
        let mut moved = cage.animals;
        self.animals.append(&mut moved);
    }

    /// The weakest animal of the cage, the first of them where several are
    /// equally weak.
    pub fn weakest(&self) -> (r: Option<&Animal>)
        ensures
            match r {
                Some(a) => is_weakest_at(self@, weakest_index(self@)) && weakest_of(self@) == Some(
                    *a,
                ),
                None => weakest_of(self@) is None,
            },
    {
        let n = self.animals.len();
        if n == 0 {
            return None;
        }
        let mut best: usize = 0;
        let mut i: usize = 1;
        while i < n
            invariant
                n == self.animals.len(),
                best < i <= n,
                forall|j: int|
                    0 <= j < i ==> self@[best as int].strength <= (#[trigger] self@[j]).strength,
                forall|j: int|
                    0 <= j < best ==> self@[best as int].strength < (#[trigger] self@[j]).strength,
            decreases n - i,
        {
            if self.animals[i].strength < self.animals[best].strength {
                best = i;
            }
            i += 1;
        }
        proof {
            lemma_weakest_unique(self@, best as int);
        }
        Some(&self.animals[best])
    }

    /// The strongest animal of the cage, the first of them where several are
    /// equally strong.
    pub fn strongest(&self) -> (r: Option<&Animal>)
        ensures
            match r {
                Some(a) => is_strongest_at(self@, strongest_index(self@)) && strongest_of(self@)
                    == Some(*a),
                None => strongest_of(self@) is None,
            },
    {
        let n = self.animals.len();
        if n == 0 {
            return None;
        }
        let mut best: usize = 0;
        let mut i: usize = 1;
        while i < n
            invariant
                n == self.animals.len(),
                best < i <= n,
                forall|j: int|
                    0 <= j < i ==> (#[trigger] self@[j]).strength <= self@[best as int].strength,
                forall|j: int|
                    0 <= j < best ==> (#[trigger] self@[j]).strength < self@[best as int].strength,
            decreases n - i,
        {
            if self.animals[i].strength > self.animals[best].strength {
                best = i;
            }
            i += 1;
        }
        proof {
            lemma_strongest_unique(self@, best as int);
        }
        Some(&self.animals[best])
    }

    /// Whether the herbivore can be put into this cage: the cage is empty, or
    /// its strongest animal is strictly weaker than the herbivore. An animal
    /// as strong as the herbivore keeps it out.
    pub fn fits(&self, herbivore: &Animal) -> (r: bool)
        requires
            !herbivore.carnivore,
        ensures
            r == fits_in(self@, *herbivore),
    {
        match self.strongest() {
            Some(strongest) => strongest.strength < herbivore.strength,
            None => true,
        }
    }

    /// Moves the animals of `food_cage` into this cage as food.
    ///
    /// Fails, and leaves this cage as it was, when both cages hold animals and
    /// the strongest food animal is at least as strong as the weakest
    /// resident; the error names the two.
    pub fn deliver_food(&mut self, food_cage: Cage) -> (r: Result<()>)
        ensures
            r is Err <==> food_too_strong(old(self)@, food_cage@),
            r is Ok ==> final(self)@ == old(self)@ + food_cage@,
            r is Err ==> final(self)@ == old(self)@,
            r matches Err(e) ==> e == Error::FoodTooStrong(
                food_cage@[strongest_index(food_cage@)],
                old(self)@[weakest_index(old(self)@)],
            ),
    {
        match (food_cage.strongest(), self.weakest()) {
            (Some(strongest_food), Some(weakest_resident)) => {
                if strongest_food.strength >= weakest_resident.strength {
                    return Err(
                        Error::FoodTooStrong(strongest_food.clone(), weakest_resident.clone()),
                    );
                }
            },
            _ => {},
        }
        self.move_from(food_cage);
        Ok(())
    }
}

} // verus!
