use vstd::prelude::*;

verus! {

/// The letter that marks a cell with nothing written in it.
pub const EMPTY: char = ' ';

/// A set of alignment classes. Two words that run through a cell along the same
/// class would be writing over one another, so a crossing needs disjoint sets.
#[derive(Clone, Copy, PartialEq, Eq, Structural, Debug)]
pub struct CharDirection {
    pub n: bool,
    pub ne: bool,
    pub e: bool,
    pub se: bool,
}

impl CharDirection {
    pub open spec fn spec_intersects(self, o: CharDirection) -> bool {
        (self.n && o.n) || (self.ne && o.ne) || (self.e && o.e) || (self.se && o.se)
    }

    pub open spec fn spec_union(self, o: CharDirection) -> CharDirection {
        CharDirection { n: self.n || o.n, ne: self.ne || o.ne, e: self.e || o.e, se: self.se || o.se }
    }

    pub open spec fn spec_none() -> CharDirection {
        CharDirection { n: false, ne: false, e: false, se: false }
    }

    /// The empty set.
    pub fn none() -> (r: CharDirection)
        ensures
            r == CharDirection::spec_none(),
    {
        CharDirection { n: false, ne: false, e: false, se: false }
    }

    /// The vertical class (north and south).
    pub fn north() -> (r: CharDirection)
        ensures
            r == (CharDirection { n: true, ne: false, e: false, se: false }),
    {
        CharDirection { n: true, ne: false, e: false, se: false }
    }

    /// The rising diagonal class (north-east and south-west).
    pub fn north_east() -> (r: CharDirection)
        ensures
            r == (CharDirection { n: false, ne: true, e: false, se: false }),
    {
        CharDirection { n: false, ne: true, e: false, se: false }
    }

    /// The horizontal class (east and west).
    pub fn east() -> (r: CharDirection)
        ensures
            r == (CharDirection { n: false, ne: false, e: true, se: false }),
    {
        CharDirection { n: false, ne: false, e: true, se: false }
    }

    /// The falling diagonal class (south-east and north-west).
    pub fn south_east() -> (r: CharDirection)
        ensures
            r == (CharDirection { n: false, ne: false, e: false, se: true }),
    {
        CharDirection { n: false, ne: false, e: false, se: true }
    }

    /// Whether the two sets share a class.
    pub fn intersects(&self, o: &CharDirection) -> (r: bool)
        ensures
            r == self.spec_intersects(*o),
    {
        (self.n && o.n) || (self.ne && o.ne) || (self.e && o.e) || (self.se && o.se)
    }

    /// The union of the two sets.
    pub fn union(&self, o: &CharDirection) -> (r: CharDirection)
        ensures
            r == self.spec_union(*o),
    {
        CharDirection { n: self.n || o.n, ne: self.ne || o.ne, e: self.e || o.e, se: self.se || o.se }
    }
}

impl Default for CharDirection {
    fn default() -> (r: CharDirection)
        ensures
            r == CharDirection::spec_none(),
    {
        CharDirection::none()
    }
}

/// One cell of a board or a pattern: a letter (or `EMPTY`) and the classes of
/// the words written through it.
#[derive(Clone, Copy, PartialEq, Eq, Structural, Debug)]
pub struct Character {
    pub letter: char,
    pub directions: CharDirection,
}

impl Character {
    pub open spec fn spec_is_empty(self) -> bool {
        self.letter == EMPTY
    }

    /// Whether `incoming` may be merged into this cell: the cell is empty, or it
    /// already holds the same letter.
    pub open spec fn accepts(self, incoming: Character) -> bool {
        self.spec_is_empty() || self.letter == incoming.letter
    }

    /// The cell after `incoming` is merged into it.
    pub open spec fn merged(self, incoming: Character) -> Character {
        Character {
            letter: if self.spec_is_empty() { incoming.letter } else { self.letter },
            directions: self.directions.spec_union(incoming.directions),
        }
    }

    pub open spec fn spec_empty() -> Character {
        Character { letter: EMPTY, directions: CharDirection::spec_none() }
    }

    /// Whether no letter has been written here.
    pub fn is_empty(&self) -> (r: bool)
        ensures
            r == self.spec_is_empty(),
    {
        self.letter == EMPTY
    }

    /// Merges `other` into this cell: an empty cell takes its letter, and the
    /// direction sets are joined. A cell that holds a different letter cannot be
    /// merged into, which callers establish beforehand.
    pub fn combine_with(&mut self, other: &Character)
        requires
            old(self).accepts(*other),
        ensures
            *final(self) == old(self).merged(*other),
    {
        if self.is_empty() {
            self.letter = other.letter;
        }
        self.directions = self.directions.union(&other.directions);
    }
}

impl Default for Character {
    fn default() -> (r: Character)
        ensures
            r == Character::spec_empty(),
    {
        Character { letter: EMPTY, directions: CharDirection::none() }
    }
}

impl From<char> for Character {
    fn from(value: char) -> (r: Character) {
        Character { letter: value, directions: CharDirection::none() }
    }
}

impl vstd::std_specs::convert::FromSpecImpl<char> for Character {
    open spec fn obeys_from_spec() -> bool {
        true
    }

    open spec fn from_spec(v: char) -> Character {
        Character { letter: v, directions: CharDirection::spec_none() }
    }
}

/// The eight compass directions a word can be read in.
#[derive(Clone, Copy, PartialEq, Eq, Structural, Debug)]
pub enum Direction {
    EE,
    NE,
    NN,
    NW,
    WW,
    SW,
    SS,
    SE,
}

} // verus!
