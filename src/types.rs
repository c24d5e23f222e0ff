use vstd::prelude::*;

verus! {

/// The direction pointer: one of the four cardinal directions.
#[derive(Copy, Clone, PartialEq, Eq, Structural, Debug)]
pub enum Direction {
    RIGHT,
    DOWN,
    LEFT,
    UP,
}

/// The colour of one result of a navigation step together with the size of
/// the block it belongs to.
#[derive(Copy, Clone, PartialEq, Eq, Structural, Debug)]
pub struct ColorInfo {
    pub color: RGB,
    pub size: i32,
}

/// A position in the image; `x` grows rightward and `y` downward.
#[derive(Copy, Clone, PartialEq, Eq, Structural, Debug)]
pub struct Coordinates {
    pub x: i32,
    pub y: i32,
}

/// The codel chooser, which breaks ties on the exit edge of a block.
#[derive(Copy, Clone, PartialEq, Eq, Structural, Debug)]
pub enum CodelChooser {
    LEFT,
    RIGHT,
}

/// A 24-bit colour.
#[derive(Copy, Clone, PartialEq, Eq, Structural, Debug)]
pub struct RGB(pub u8, pub u8, pub u8);

/// Unit step of a direction, as a pair of integers.
pub open spec fn step_x(d: Direction) -> int {
    match d {
        Direction::RIGHT => 1,
        Direction::LEFT => -1,
        _ => 0,
    }
}

pub open spec fn step_y(d: Direction) -> int {
    match d {
        Direction::DOWN => 1,
        Direction::UP => -1,
        _ => 0,
    }
}

/// The direction a quarter turn clockwise from `d`.
pub open spec fn clockwise(d: Direction) -> Direction {
    match d {
        Direction::RIGHT => Direction::DOWN,
        Direction::DOWN => Direction::LEFT,
        Direction::LEFT => Direction::UP,
        Direction::UP => Direction::RIGHT,
    }
}

/// The direction a quarter turn counterclockwise from `d`.
pub open spec fn counterclockwise(d: Direction) -> Direction {
    match d {
        Direction::RIGHT => Direction::UP,
        Direction::DOWN => Direction::RIGHT,
        Direction::LEFT => Direction::DOWN,
        Direction::UP => Direction::LEFT,
    }
}

/// `d` turned clockwise `n` times.
pub open spec fn rotated(d: Direction, n: nat) -> Direction
    decreases n,
{
    if n == 0 {
        d
    } else {
        clockwise(rotated(d, (n - 1) as nat))
    }
}

/// The other side of the codel chooser.
pub open spec fn toggled(c: CodelChooser) -> CodelChooser {
    match c {
        CodelChooser::LEFT => CodelChooser::RIGHT,
        CodelChooser::RIGHT => CodelChooser::LEFT,
    }
}

impl Direction {
    /// The unit step of this direction.
    pub fn cords(&self) -> (r: Coordinates)
        ensures
            r.x == step_x(*self),
            r.y == step_y(*self),
    {
        match self {
            Direction::RIGHT => Coordinates { x: 1, y: 0 },
            Direction::DOWN => Coordinates { x: 0, y: 1 },
            Direction::LEFT => Coordinates { x: -1, y: 0 },
            Direction::UP => Coordinates { x: 0, y: -1 },
        }
    }

    /// The direction a quarter turn clockwise.
    pub fn next(&self) -> (r: Direction)
        ensures
            r == clockwise(*self),
    {
        match self {
            Direction::RIGHT => Direction::DOWN,
            Direction::DOWN => Direction::LEFT,
            Direction::LEFT => Direction::UP,
            Direction::UP => Direction::RIGHT,
        }
    }
}

impl CodelChooser {
    /// The other side.
    pub fn toggle(&self) -> (r: CodelChooser)
        ensures
            r == toggled(*self),
    {
        match self {
            CodelChooser::LEFT => CodelChooser::RIGHT,
            CodelChooser::RIGHT => CodelChooser::LEFT,
        }
    }
}

/// Four clockwise quarter turns bring a direction back to itself.
pub proof fn lemma_clockwise_four_times(d: Direction)
    ensures
        clockwise(clockwise(clockwise(clockwise(d)))) == d,
        rotated(d, 4) == d,
{
    reveal_with_fuel(rotated, 5);
}

/// Toggling the codel chooser twice restores it.
pub proof fn lemma_toggle_twice(c: CodelChooser)
    ensures
        toggled(toggled(c)) == c,
{
}

} // verus!
