use vstd::prelude::*;

verus! {

/// Width of the game board in cells.
pub const BOARD_WIDTH: usize = 16;

/// Height of the game board in cells.
pub const BOARD_HEIGHT: usize = 13;

/// Total number of board cells, `BOARD_WIDTH * BOARD_HEIGHT`; also the
/// capacity of the snake's ring buffer, since the snake can never be longer
/// than the board has cells.
pub const BOARD_SIZE: usize = 208;

/// The snake starts every game with this many segments.
pub const INITIAL_LENGTH: usize = 4;

/// Granularity of the injected random source.  One draw is an integer `r`
/// with `0 <= r < RAND_DENOM`, standing for the real number `r / RAND_DENOM`
/// in `[0, 1)`.  The denominator is 2^53, so every value the host obtains
/// from a double-precision uniform source can be handed over exactly.
pub const RAND_DENOM: u64 = 9007199254740992;

/// The possible directions the inputs can map to.
#[derive(Copy, Clone, PartialEq, Eq, Debug, Structural)]
pub enum Direction {
    Up,
    Left,
    Down,
    Right,
}

/// The result of running one tick of the game.  Lets the caller know how to
/// proceed.
#[derive(Copy, Clone, PartialEq, Eq, Debug, Structural)]
pub enum UpdateResult {
    Running,
    GameOver,
}

/// A single part of the snake: one cell on the game board, together with the
/// direction the snake was moving when the segment was laid down (used by
/// renderers for orientation).
#[derive(Copy, Clone, PartialEq, Eq, Debug, Structural)]
pub struct SnakePart {
    pub board_index: u8,
    pub direction: Direction,
}

impl Default for SnakePart {
    fn default() -> (r: Self)
        ensures
            r == (SnakePart { board_index: 0, direction: Direction::Right }),
    {
        SnakePart { board_index: 0, direction: Direction::Right }
    }
}

/// The 180-degree opposite of a direction.
pub open spec fn opposite(d: Direction) -> Direction {
    match d {
        Direction::Up => Direction::Down,
        Direction::Down => Direction::Up,
        Direction::Left => Direction::Right,
        Direction::Right => Direction::Left,
    }
}

/// The direction actually taken on a tick: absent input and exact-reversal
/// input both keep the previous direction (a reversal request is silently
/// ignored, so the snake cannot instantly bite its own neck); any other
/// input is adopted.
pub open spec fn resolve_direction(input: Option<Direction>, prev: Direction) -> Direction {
    match input {
        Option::None => prev,
        Option::Some(d) => if d == opposite(prev) {
            prev
        } else {
            d
        },
    }
}

/// The row of a cell index (row-major addressing).
pub open spec fn row_of(c: int) -> int {
    c / (BOARD_WIDTH as int)
}

/// The column of a cell index (row-major addressing).
pub open spec fn col_of(c: int) -> int {
    c % (BOARD_WIDTH as int)
}

/// Whether a cell index lies on the board.
pub open spec fn valid_cell(c: int) -> bool {
    0 <= c < BOARD_SIZE
}

/// Whether the cell `c` has an in-board neighbour in direction `d`; moving
/// off any edge of the board is not a step.
pub open spec fn can_step(c: int, d: Direction) -> bool {
    match d {
        Direction::Up => c >= BOARD_WIDTH,
        Direction::Down => c < BOARD_SIZE - BOARD_WIDTH,
        Direction::Left => col_of(c) != 0,
        Direction::Right => col_of(c) != BOARD_WIDTH - 1,
    }
}

/// The neighbouring cell index in direction `d` (meaningful when
/// `can_step(c, d)` holds).
pub open spec fn cell_step(c: int, d: Direction) -> int {
    match d {
        Direction::Up => c - BOARD_WIDTH,
        Direction::Down => c + BOARD_WIDTH,
        Direction::Left => c - 1,
        Direction::Right => c + 1,
    }
}

/// A resolved direction is never the reverse of the direction it was
/// resolved against: reversal requests are suppressed.
pub proof fn lemma_resolve_never_reverses(input: Option<Direction>, prev: Direction)
    ensures
        resolve_direction(input, prev) != opposite(prev),
{
}

} // verus!
