use vstd::prelude::*;

verus! {

/// One of the nine symbols a Sudoku cell can hold.
#[derive(Clone, Copy, Debug, Hash, PartialEq, Eq, Structural)]
pub enum Space {
    One,
    Two,
    Three,
    Four,
    Five,
    Six,
    Seven,
    Eight,
    Nine,
}

/// Position of a value among the nine, from 0 (for `One`) to 8 (for `Nine`).
pub open spec fn space_idx(s: Space) -> int {
    match s {
        Space::One => 0,
        Space::Two => 1,
        Space::Three => 2,
        Space::Four => 3,
        Space::Five => 4,
        Space::Six => 5,
        Space::Seven => 6,
        Space::Eight => 7,
        Space::Nine => 8,
    }
}

/// The value at position `k` (0 to 8).
pub open spec fn space_at(k: int) -> Space {
    if k <= 0 {
        Space::One
    } else if k == 1 {
        Space::Two
    } else if k == 2 {
        Space::Three
    } else if k == 3 {
        Space::Four
    } else if k == 4 {
        Space::Five
    } else if k == 5 {
        Space::Six
    } else if k == 6 {
        Space::Seven
    } else if k == 7 {
        Space::Eight
    } else {
        Space::Nine
    }
}

pub proof fn lemma_space_idx(s: Space)
    ensures
        0 <= space_idx(s) < 9,
        space_at(space_idx(s)) == s,
{
}

pub proof fn lemma_space_at(k: int)
    requires
        0 <= k < 9,
    ensures
        space_idx(space_at(k)) == k,
{
}

impl Space {
    /// Position of the value among the nine (its number minus one).
    pub fn idx(&self) -> (r: usize)
        ensures
            r == space_idx(*self),
    {
        let n: usize = usize::from(*self);
        n - 1
    }

    /// The next larger value, `None` after `Nine`.
    pub fn succ(&self) -> (r: Option<Space>)
        ensures
            space_idx(*self) < 8 ==> r == Some(space_at(space_idx(*self) + 1)),
            space_idx(*self) == 8 ==> r.is_none(),
    {
        match self {
            Space::One => Some(Space::Two),
            Space::Two => Some(Space::Three),
            Space::Three => Some(Space::Four),
            Space::Four => Some(Space::Five),
            Space::Five => Some(Space::Six),
            Space::Six => Some(Space::Seven),
            Space::Seven => Some(Space::Eight),
            Space::Eight => Some(Space::Nine),
            Space::Nine => None,
        }
    }

    /// The value at position `k` among the nine.
    pub fn at(k: usize) -> (r: Space)
        requires
            k < 9,
        ensures
            r == space_at(k as int),
            space_idx(r) == k,
    {
        match k {
            0 => Space::One,
            1 => Space::Two,
            2 => Space::Three,
            3 => Space::Four,
            4 => Space::Five,
            5 => Space::Six,
            6 => Space::Seven,
            7 => Space::Eight,
            _ => Space::Nine,
        }
    }

    /// The value with number `n`, or `None` when `n` is not in 1 to 9.
    pub fn from_number(n: usize) -> (r: Option<Space>)
        ensures
            1 <= n <= 9 ==> r == Some(space_at(n - 1)),
            !(1 <= n <= 9) ==> r.is_none(),
    {
        if 1 <= n && n <= 9 {
            Some(Space::at(n - 1))
        } else {
            None
        }
    }
}

impl From<Space> for usize {
    fn from(value: Space) -> (r: usize) {
        match value {
            Space::One => 1,
            Space::Two => 2,
            Space::Three => 3,
            Space::Four => 4,
            Space::Five => 5,
            Space::Six => 6,
            Space::Seven => 7,
            Space::Eight => 8,
            Space::Nine => 9,
        }
    }
}

impl vstd::std_specs::convert::FromSpecImpl<Space> for usize {
    open spec fn obeys_from_spec() -> bool {
        true
    }

    open spec fn from_spec(v: Space) -> usize {
        (space_idx(v) + 1) as usize
    }
}

} // verus!
