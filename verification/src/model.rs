use crate::parts::can_step;
use crate::parts::cell_step;
use crate::parts::col_of;
use crate::parts::opposite;
use crate::parts::resolve_direction;
use crate::parts::row_of;
use crate::parts::valid_cell;
use crate::parts::Direction;
use crate::parts::SnakePart;
use crate::parts::BOARD_HEIGHT;
use crate::parts::BOARD_SIZE;
use crate::parts::BOARD_WIDTH;
use crate::parts::INITIAL_LENGTH;
use crate::parts::RAND_DENOM;
use vstd::prelude::*;

verus! {

/// The abstract state of a game: the score, the apple cell (if any), and
/// the live body as a sequence of segments, head first.  `body[0]` is the
/// head; `body[len - 1]` is the tail, the next segment to be retired.
pub ghost struct GameModel {
    pub score: int,
    pub apple: Option<u8>,
    pub body: Seq<SnakePart>,
}

/// Whether some live segment of `body` occupies the cell `c`.
pub open spec fn occupied(body: Seq<SnakePart>, c: int) -> bool {
    exists|i: int| 0 <= i < body.len() && body[i].board_index as int == c
}

/// Whether all segments of `body` lie on pairwise-distinct cells.
pub open spec fn distinct_cells(body: Seq<SnakePart>) -> bool {
    forall|i: int, j: int|
        0 <= i < j < body.len() ==> #[trigger] body[i].board_index != #[trigger] body[j].board_index
}

/// Whether segments of `body` share a cell only as immediate neighbours.
/// Growing on an apple writes the new head twice, and that pair then
/// travels down the body until it falls off the tail, so full distinctness
/// cannot hold of every reachable state; this is the strongest separation
/// that does.
pub open spec fn almost_distinct(body: Seq<SnakePart>) -> bool {
    forall|i: int, j: int|
        0 <= i < j < body.len() && #[trigger] body[i].board_index == #[trigger] body[j].board_index
            ==> j == i + 1
}

/// How a segment may sit behind the one in front of it.  Either the newer
/// segment was laid down by one legal step out of the older segment's cell,
/// or the two are the duplicated pair that growing on an apple leaves
/// behind: same cell, same direction.
pub open spec fn link_ok(older: SnakePart, newer: SnakePart) -> bool {
    ||| (can_step(older.board_index as int, newer.direction) && newer.board_index as int
        == cell_step(older.board_index as int, newer.direction))
    ||| (newer.board_index == older.board_index && newer.direction == older.direction)
}

/// Well-formedness of a game state.  The body is never empty and never
/// longer than the board; the score counts exactly the segments gained over
/// the initial four; every live segment lies on the board; consecutive
/// segments are linked by legal steps (or are a growth pair); cells are
/// shared by adjacent segments at most; and the apple, when present, lies
/// on the board, on no live segment, and only while the snake still has
/// room to grow.
pub open spec fn wf_model(m: GameModel) -> bool {
    &&& 1 <= m.body.len() <= BOARD_SIZE
    &&& m.score == m.body.len() - INITIAL_LENGTH
    &&& (forall|i: int| 0 <= i < m.body.len() ==> valid_cell((#[trigger] m.body[i]).board_index as int))
    &&& (forall|i: int| 0 <= i < m.body.len() - 1 ==> link_ok(m.body[i + 1], #[trigger] m.body[i]))
    &&& almost_distinct(m.body)
    &&& match m.apple {
        Option::Some(a) => valid_cell(a as int) && !occupied(m.body, a as int) && m.body.len()
            < BOARD_SIZE,
        Option::None => true,
    }
}

/// The cell the head occupies.
pub open spec fn head_cell(m: GameModel) -> int {
    m.body[0].board_index as int
}

/// The direction a tick with input `input` moves in: the input, unless it
/// is absent or the exact reversal of the head's direction.
pub open spec fn step_direction(m: GameModel, input: Option<Direction>) -> Direction {
    resolve_direction(input, m.body[0].direction)
}

/// Whether the resolved move would cross an edge of the board.
pub open spec fn hits_wall(m: GameModel, input: Option<Direction>) -> bool {
    !can_step(head_cell(m), step_direction(m, input))
}

/// The cell the resolved move leads to (meaningful when the move stays on
/// the board).
pub open spec fn next_cell(m: GameModel, input: Option<Direction>) -> int {
    cell_step(head_cell(m), step_direction(m, input))
}

/// Whether the resolved move runs into the snake's own body.  Only a snake
/// longer than the initial four segments can catch itself; segments at
/// offsets 0 to 2 cannot lie in the way geometrically, and the tail is
/// skipped because it vacates its cell as the snake advances.
pub open spec fn hits_self(m: GameModel, input: Option<Direction>) -> bool {
    &&& m.body.len() > INITIAL_LENGTH
    &&& exists|i: int|
        3 <= i < m.body.len() - 1 && (#[trigger] m.body[i]).board_index as int == next_cell(
            m,
            input,
        )
}

/// Whether the tick ends the game: the move leaves the board or bites the
/// body.
pub open spec fn blocked(m: GameModel, input: Option<Direction>) -> bool {
    hits_wall(m, input) || hits_self(m, input)
}

/// Whether the tick eats the apple: the move is legal and leads onto the
/// apple's cell.
pub open spec fn eats(m: GameModel, input: Option<Direction>) -> bool {
    &&& !blocked(m, input)
    &&& match m.apple {
        Option::Some(a) => a as int == next_cell(m, input),
        Option::None => false,
    }
}

/// The segment a legal tick writes at the front of the body.
pub open spec fn new_head(m: GameModel, input: Option<Direction>) -> SnakePart {
    SnakePart { board_index: next_cell(m, input) as u8, direction: step_direction(m, input) }
}

/// The body after a legal tick.  The tail cell is always retired; eating
/// writes the new head twice, which grows the snake by one segment without
/// touching the tail.
pub open spec fn stepped_body(m: GameModel, input: Option<Direction>) -> Seq<SnakePart> {
    if eats(m, input) {
        seq![new_head(m, input), new_head(m, input)] + m.body.subrange(0, m.body.len() - 1)
    } else {
        seq![new_head(m, input)] + m.body.subrange(0, m.body.len() - 1)
    }
}

/// How many of the cells `0 .. c` are free of the snake `body`.
pub open spec fn free_below(body: Seq<SnakePart>, c: int) -> int
    decreases c,
{
    if c <= 0 {
        0
    } else {
        free_below(body, c - 1) + if occupied(body, c - 1) {
            0int
        } else {
            1int
        }
    }
}

/// The ordinal of the free cell a draw selects: `floor(r * free)` for the
/// real number `r = rand / RAND_DENOM`.
pub open spec fn apple_target(rand: u64, free: int) -> int {
    (rand * free) / (RAND_DENOM as int)
}

/// What placing the apple with draw `rand` against the snake `body` must
/// yield: no apple when the board is full, and otherwise exactly the
/// `apple_target`-th free cell in ascending index order.
pub open spec fn placed_apple_ok(body: Seq<SnakePart>, rand: u64, apple: Option<u8>) -> bool {
    let free = BOARD_SIZE - body.len();
    if free == 0 {
        apple == Option::<u8>::None
    } else {
        match apple {
            Option::Some(a) => valid_cell(a as int) && !occupied(body, a as int) && free_below(
                body,
                a as int,
            ) == apple_target(rand, free),
            Option::None => false,
        }
    }
}

/// How many of the cells `0 .. c` are unmarked in an occupancy mask.
pub open spec fn free_in_mask_below(mask: Seq<bool>, c: int) -> int
    decreases c,
{
    if c <= 0 {
        0
    } else {
        free_in_mask_below(mask, c - 1) + if mask[c - 1] {
            0int
        } else {
            1int
        }
    }
}

/// A mask that marks exactly the cells the snake occupies counts the same
/// free cells as the body does.
pub(crate) proof fn lemma_counts_agree(body: Seq<SnakePart>, mask: Seq<bool>, c: int)
    requires
        forall|j: int| 0 <= j < c ==> #[trigger] mask[j] == occupied(body, j),
    ensures
        free_in_mask_below(mask, c) == free_below(body, c),
    decreases c,
{
    if c > 0 {
        lemma_counts_agree(body, mask, c - 1);
    }
}

/// Marking one cell of a mask loses at most that one cell from the free
/// count, and loses nothing if the cell was already marked.
pub(crate) proof fn lemma_mask_update(mask: Seq<bool>, idx: int, c: int)
    requires
        0 <= idx < mask.len(),
        c <= mask.len(),
    ensures
        free_in_mask_below(mask.update(idx, true), c) == free_in_mask_below(mask, c) - (
        if idx < c && !mask[idx] {
            1int
        } else {
            0int
        }),
    decreases c,
{
    if c > 0 {
        lemma_mask_update(mask, idx, c - 1);
    }
}

/// An untouched mask counts every cell as free.
pub(crate) proof fn lemma_count_all_free(mask: Seq<bool>, c: int)
    requires
        forall|j: int| 0 <= j < c ==> !mask[j],
    ensures
        free_in_mask_below(mask, c) == if c >= 0 {
            c
        } else {
            0int
        },
    decreases c,
{
    if c > 0 {
        lemma_count_all_free(mask, c - 1);
    }
}

/// The free count grows as the bound grows, and strictly passes every free
/// cell.
pub(crate) proof fn lemma_free_below_strict(body: Seq<SnakePart>, c1: int, c2: int)
    requires
        0 <= c1 < c2,
        !occupied(body, c1),
    ensures
        free_below(body, c2) >= free_below(body, c1) + 1,
    decreases c2 - c1,
{
    if c2 > c1 + 1 {
        lemma_free_below_strict(body, c1, c2 - 1);
    }
}

/// The draw's target ordinal always falls among the free cells:
/// `0 <= floor(r * free) < free` for any draw `r` in `[0, 1)`.
pub proof fn lemma_apple_target_in_range(rand: u64, free: int)
    requires
        rand < RAND_DENOM,
        1 <= free,
    ensures
        0 <= apple_target(rand, free) < free,
{
    vstd::arithmetic::mul::lemma_mul_nonnegative(rand as int, free);
    vstd::arithmetic::div_mod::lemma_div_pos_is_pos(rand * free, RAND_DENOM as int);
    vstd::arithmetic::mul::lemma_mul_strict_inequality(rand as int, RAND_DENOM as int, free);
    vstd::arithmetic::mul::lemma_mul_is_commutative(RAND_DENOM as int, free);
    vstd::arithmetic::div_mod::lemma_multiply_divide_lt(rand * free, RAND_DENOM as int, free);
}

/// One draw names one cell: the apple-placement contract pins the placed
/// apple down uniquely.
pub proof fn lemma_placed_apple_unique(
    body: Seq<SnakePart>,
    rand: u64,
    a1: Option<u8>,
    a2: Option<u8>,
)
    requires
        placed_apple_ok(body, rand, a1),
        placed_apple_ok(body, rand, a2),
    ensures
        a1 == a2,
{
    if BOARD_SIZE - body.len() != 0 {
        let c1 = a1.unwrap();
        let c2 = a2.unwrap();
        if (c1 as int) < c2 as int {
            lemma_free_below_strict(body, c1 as int, c2 as int);
        }
        if (c2 as int) < c1 as int {
            lemma_free_below_strict(body, c2 as int, c1 as int);
        }
    }
}

/// The body every game starts with, and returns to on reset: four segments
/// on contiguous cells near the board's centre, all facing right, head
/// first.
pub open spec fn initial_body() -> Seq<SnakePart> {
    seq![
        SnakePart { board_index: 105, direction: Direction::Right },
        SnakePart { board_index: 104, direction: Direction::Right },
        SnakePart { board_index: 103, direction: Direction::Right },
        SnakePart { board_index: 102, direction: Direction::Right },
    ]
}

/// The candidate next cell differs from the cells of the head and of the
/// two segments behind it.  The head is trivial (a step moves); the neck is
/// safe because reversals are suppressed; the third segment is safe because
/// no three unit steps on the grid can cancel out.  This is the geometric
/// ground for skipping offsets 0 to 2 in the self-collision scan.
pub proof fn lemma_fresh_head(m: GameModel, input: Option<Direction>)
    requires
        wf_model(m),
        !hits_wall(m, input),
    ensures
        forall|i: int|
            0 <= i < m.body.len() && i < 3 ==> (#[trigger] m.body[i]).board_index as int
                != next_cell(m, input),
{
    let p = m.body[0].direction;
    let c = next_cell(m, input);
    crate::parts::lemma_resolve_never_reverses(input, p);
    assert(m.body[0].board_index as int != c);
    if m.body.len() >= 2 {
        assert(link_ok(m.body[1], m.body[0]));
        assert(m.body[1].board_index as int != c);
    }
    if m.body.len() >= 3 {
        assert(link_ok(m.body[2], m.body[1]));
        assert(m.body[2].board_index as int != c);
    }
}

/// A legal move lands on the board.
pub proof fn lemma_next_cell_valid(m: GameModel, input: Option<Direction>)
    requires
        wf_model(m),
        !hits_wall(m, input),
    ensures
        valid_cell(next_cell(m, input)),
{
    let h = head_cell(m);
    vstd::arithmetic::div_mod::lemma_fundamental_div_mod(h, BOARD_WIDTH as int);
    vstd::arithmetic::div_mod::lemma_mod_bound(h, BOARD_WIDTH as int);
}

/// A snake whose segments sat on pairwise-distinct cells still does after
/// any legal tick that does not eat.  (Eating deliberately writes the new
/// head twice, so a growth tick leaves one duplicated pair until it has
/// travelled off the tail.)
pub proof fn lemma_step_keeps_distinct(m: GameModel, input: Option<Direction>)
    requires
        wf_model(m),
        distinct_cells(m.body),
        !blocked(m, input),
        !eats(m, input),
    ensures
        distinct_cells(stepped_body(m, input)),
{
    lemma_fresh_head(m, input);
    lemma_next_cell_valid(m, input);
    let b = stepped_body(m, input);
    let c = next_cell(m, input);
    assert forall|i: int, j: int| 0 <= i < j < b.len() implies b[i].board_index
        != b[j].board_index by {
        if i == 0 {
            assert(b[j] == m.body[j - 1]);
            if j - 1 >= 3 {
                assert(!(3 <= j - 1 < m.body.len() - 1 && m.body[j - 1].board_index as int == c));
            }
            assert(m.body[j - 1].board_index as int != c);
        } else {
            assert(b[i] == m.body[i - 1]);
            assert(b[j] == m.body[j - 1]);
        }
    };
}

/// A head on the edge of the board, moving over that edge, ends the game:
/// row 0 moving up, the bottom row moving down, column 0 moving left, or
/// the rightmost column moving right.
pub proof fn lemma_boundary_blocked(m: GameModel, input: Option<Direction>)
    requires
        wf_model(m),
        (step_direction(m, input) == Direction::Up && row_of(head_cell(m)) == 0) || (
        step_direction(m, input) == Direction::Down && row_of(head_cell(m)) == BOARD_HEIGHT - 1)
            || (step_direction(m, input) == Direction::Left && col_of(head_cell(m)) == 0) || (
        step_direction(m, input) == Direction::Right && col_of(head_cell(m)) == BOARD_WIDTH - 1),
    ensures
        blocked(m, input),
{
    let h = head_cell(m);
    vstd::arithmetic::div_mod::lemma_fundamental_div_mod(h, BOARD_WIDTH as int);
    vstd::arithmetic::div_mod::lemma_mod_bound(h, BOARD_WIDTH as int);
}

/// Reversal suppression: input pointing exactly backwards leaves the
/// direction of travel unchanged.
pub proof fn lemma_reversal_suppressed(m: GameModel, input: Option<Direction>)
    requires
        input == Option::Some(opposite(m.body[0].direction)),
    ensures
        step_direction(m, input) == m.body[0].direction,
{
}

} // verus!
