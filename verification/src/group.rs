use vstd::prelude::*;

verus! {

/// A group identifier together with the number of participants that carry
/// it within some set under consideration.
#[derive(Clone, Copy, Debug, PartialEq, Eq, Structural)]
pub struct Group {
    pub number: u16,
    pub size: u16,
}

impl Group {
    pub fn new(number: u16, size: u16) -> (g: Group)
        ensures
            g.number == number,
            g.size == size,
    {
        Group { number, size }
    }
}

} // verus!
