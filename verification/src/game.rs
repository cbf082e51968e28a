use crate::model::blocked;
use crate::model::eats;
use crate::model::free_in_mask_below;
use crate::model::hits_self;
use crate::model::hits_wall;
use crate::model::initial_body;
use crate::model::lemma_apple_target_in_range;
use crate::model::lemma_count_all_free;
use crate::model::lemma_counts_agree;
use crate::model::lemma_mask_update;
use crate::model::lemma_next_cell_valid;
use crate::model::link_ok;
use crate::model::new_head;
use crate::model::next_cell;
use crate::model::occupied;
use crate::model::placed_apple_ok;
use crate::model::step_direction;
use crate::model::stepped_body;
use crate::model::wf_model;
use crate::model::GameModel;
use crate::parts::valid_cell;
use crate::parts::Direction;
use crate::parts::SnakePart;
use crate::parts::UpdateResult;
use crate::parts::BOARD_HEIGHT;
use crate::parts::BOARD_SIZE;
use crate::parts::BOARD_WIDTH;
use crate::parts::INITIAL_LENGTH;
use crate::parts::RAND_DENOM;
use vstd::prelude::*;

verus! {

/// The full game state for snake.  The body lives in a fixed-capacity ring
/// buffer of one part per board cell: `snake_head` points at the part most
/// recently written (the snake's head), and the `snake_len` live parts are
/// read by walking backwards from there, wrapping modulo the capacity.
pub struct Game {
    score: u16,
    apple: Option<u8>,
    snake_buffer: Vec<SnakePart>,
    snake_head: u8,
    snake_len: u8,
}

/// Position of the part `n` places behind the head cursor `h` in the ring.
pub open spec fn ring_index(h: int, n: int) -> int {
    (h + BOARD_SIZE - n) % (BOARD_SIZE as int)
}

/// Closed form of `ring_index` for in-range arguments: walking `n` back
/// from `h` either stays above zero or wraps once around the capacity.
pub proof fn lemma_ring_index(h: int, n: int)
    requires
        0 <= h < BOARD_SIZE,
        0 <= n < BOARD_SIZE,
    ensures
        ring_index(h, n) == if n <= h {
            h - n
        } else {
            h + BOARD_SIZE - n
        },
        0 <= ring_index(h, n) < BOARD_SIZE,
{
    let m = BOARD_SIZE as int;
    if n <= h {
        vstd::arithmetic::div_mod::lemma_mod_add_multiples_vanish(h - n, m);
        vstd::arithmetic::div_mod::lemma_small_mod((h - n) as nat, m as nat);
    } else {
        vstd::arithmetic::div_mod::lemma_small_mod((h + m - n) as nat, m as nat);
    }
}

/// Closed form of one cursor advance: the cursor wraps to zero exactly
/// when it leaves the last slot.
proof fn lemma_head_advance(h: int)
    requires
        0 <= h < BOARD_SIZE,
    ensures
        (h + 1) % (BOARD_SIZE as int) == if h == BOARD_SIZE - 1 {
            0int
        } else {
            h + 1
        },
{
    if h == BOARD_SIZE - 1 {
        vstd::arithmetic::div_mod::lemma_mod_self_0(BOARD_SIZE as int);
    } else {
        vstd::arithmetic::div_mod::lemma_small_mod((h + 1) as nat, BOARD_SIZE as nat);
    }
}

impl View for Game {
    type V = GameModel;

    /// The abstract state: the score, the apple, and the live body read
    /// head-first out of the ring buffer.
    closed spec fn view(&self) -> GameModel {
        GameModel {
            score: self.score as int,
            apple: self.apple,
            body: Seq::new(
                self.snake_len as nat,
                |i: int| self.snake_buffer@[ring_index(self.snake_head as int, i)],
            ),
        }
    }
}

impl Game {
    /// Structural soundness of the ring buffer itself: full capacity
    /// allocated, the cursor and the live count in range.
    pub closed spec fn buffer_ok(&self) -> bool {
        &&& self.snake_buffer@.len() == BOARD_SIZE
        &&& (self.snake_head as int) < BOARD_SIZE
        &&& 1 <= self.snake_len as int <= BOARD_SIZE
    }

    /// A game state the public operations keep: a sound ring buffer whose
    /// abstract state is well formed.
    pub closed spec fn wf(&self) -> bool {
        &&& self.buffer_ok()
        &&& wf_model(self@)
    }

    /// A well-formed game has a well-formed abstract state.  `wf` is kept
    /// closed, so this is the bridge callers use to reason about the model
    /// behind a game the public operations handed them.
    pub proof fn lemma_wf_model(&self)
        requires
            self.wf(),
        ensures
            wf_model(self@),
    {
    }

    /// Get the width of the game board.
    pub fn get_width(&self) -> (r: usize)
        ensures
            r == BOARD_WIDTH,
    {
        BOARD_WIDTH
    }

    /// Get the height of the game board.
    pub fn get_height(&self) -> (r: usize)
        ensures
            r == BOARD_HEIGHT,
    {
        BOARD_HEIGHT
    }

    /// Get the number of live snake segments.
    pub fn get_snake_len(&self) -> (r: u8)
        ensures
            r as int == self@.body.len(),
    {
        self.snake_len
    }

    /// Get the apple's cell, if an apple is on the board.
    pub fn get_apple(&self) -> (r: Option<u8>)
        ensures
            r == self@.apple,
    {
        self.apple
    }

    /// Get the current score.
    pub fn get_score(&self) -> (r: u16)
        ensures
            r as int == self@.score,
    {
        self.score
    }

    /// Get the `n`th part of the snake, counted from the head towards the
    /// tail.  Asking past the live length is a caller error, ruled out by
    /// the precondition.
    pub fn get_snake_part(&self, n: u8) -> (r: SnakePart)
        requires
            self.wf(),
            (n as int) < self@.body.len(),
        ensures
            r == self@.body[n as int],
    {
        self.get_snake_point(n)
    }

    /// Create a new game instance: score zero, the initial four-segment
    /// snake, and one apple placed with the given draw.
    pub fn new(rand: u64) -> (g: Game)
        requires
            rand < RAND_DENOM,
        ensures
            g.wf(),
            g@.body == initial_body(),
            g@.score == 0,
            placed_apple_ok(initial_body(), rand, g@.apple),
    {
        let mut buffer: Vec<SnakePart> = Vec::new();
        let mut i: usize = 0;
        while i < BOARD_SIZE
            invariant
                buffer@.len() == i,
                i <= BOARD_SIZE,
            decreases BOARD_SIZE - i,
        {
            buffer.push(SnakePart::default());
            i += 1;
        }
        let mut game = Game {
            score: 0,
            apple: Option::None,
            snake_buffer: buffer,
            snake_head: 3,
            snake_len: 4,
        };
        game.snake_buffer.set(0, SnakePart { board_index: 102, direction: Direction::Right });
        game.snake_buffer.set(1, SnakePart { board_index: 103, direction: Direction::Right });
        game.snake_buffer.set(2, SnakePart { board_index: 104, direction: Direction::Right });
        game.snake_buffer.set(3, SnakePart { board_index: 105, direction: Direction::Right });
        proof {
            game.lemma_initial_state();
        }
        game.place_apple(rand);
        game
    }

    /// Reset the game to the initial configuration, reusing the ring
    /// buffer's storage.
    pub fn reset(&mut self, rand: u64)
        requires
            old(self).wf(),
            rand < RAND_DENOM,
        ensures
            final(self).wf(),
            final(self)@.body == initial_body(),
            final(self)@.score == 0,
            placed_apple_ok(initial_body(), rand, final(self)@.apple),
    {
        self.score = 0;
        self.apple = Option::None;
        self.snake_head = 3;
        self.snake_len = 4;
        self.snake_buffer.set(0, SnakePart { board_index: 102, direction: Direction::Right });
        self.snake_buffer.set(1, SnakePart { board_index: 103, direction: Direction::Right });
        self.snake_buffer.set(2, SnakePart { board_index: 104, direction: Direction::Right });
        self.snake_buffer.set(3, SnakePart { board_index: 105, direction: Direction::Right });
        proof {
            self.lemma_initial_state();
        }
        self.place_apple(rand);
    }

    /// A freshly written initial configuration has the initial body and is
    /// well formed apart from its (absent) apple.
    proof fn lemma_initial_state(&self)
        requires
            self.snake_buffer@.len() == BOARD_SIZE,
            self.snake_head == 3,
            self.snake_len == 4,
            self.score == 0,
            self.apple == Option::<u8>::None,
            self.snake_buffer@[0] == (SnakePart { board_index: 102, direction: Direction::Right }),
            self.snake_buffer@[1] == (SnakePart { board_index: 103, direction: Direction::Right }),
            self.snake_buffer@[2] == (SnakePart { board_index: 104, direction: Direction::Right }),
            self.snake_buffer@[3] == (SnakePart { board_index: 105, direction: Direction::Right }),
        ensures
            self.wf(),
            self@.body == initial_body(),
    {
        lemma_ring_index(3, 0);
        lemma_ring_index(3, 1);
        lemma_ring_index(3, 2);
        lemma_ring_index(3, 3);
        assert(self@.body =~= initial_body());
        assert(wf_model(self@)) by {
            assert(forall|i: int|
                0 <= i < 3 ==> link_ok(self@.body[i + 1], #[trigger] self@.body[i]));
        }
    }

    /// Attempts to find a free location to place an apple: the
    /// `floor(rand/RAND_DENOM * free)`-th free cell in ascending index
    /// order, or none when the snake covers the whole board.
    fn place_apple(&mut self, rand: u64)
        requires
            old(self).buffer_ok(),
            rand < RAND_DENOM,
            forall|i: int|
                0 <= i < old(self)@.body.len() ==> valid_cell(
                    (#[trigger] old(self)@.body[i]).board_index as int,
                ),
        ensures
            final(self).buffer_ok(),
            final(self).score == old(self).score,
            final(self).snake_buffer == old(self).snake_buffer,
            final(self).snake_head == old(self).snake_head,
            final(self).snake_len == old(self).snake_len,
            final(self)@.body == old(self)@.body,
            placed_apple_ok(old(self)@.body, rand, final(self)@.apple),
    {
        let ghost body = self@.body;
        let num_free_spaces: u8 = (BOARD_SIZE as u8) - self.snake_len;
        if num_free_spaces > 0 {
            proof {
                lemma_apple_target_in_range(rand, num_free_spaces as int);
                assert(rand * (num_free_spaces as u64) <= 0xffff_ffff_ffff_ffffu64)
                    by (nonlinear_arith)
                    requires
                        rand < RAND_DENOM,
                        num_free_spaces <= 208,
                        RAND_DENOM == 9007199254740992u64,
                ;
            }
            // Choose the nth random free slot.
            let space: u64 = rand * (num_free_spaces as u64) / RAND_DENOM;

            // Mark which cells of the board are free/filled.
            let mut free_cells: Vec<bool> = Vec::new();
            let mut fill: usize = 0;
            while fill < BOARD_SIZE
                invariant
                    free_cells@.len() == fill,
                    fill <= BOARD_SIZE,
                    forall|j: int| 0 <= j < fill ==> !(#[trigger] free_cells@[j]),
                decreases BOARD_SIZE - fill,
            {
                free_cells.push(false);
                fill += 1;
            }
            proof {
                lemma_count_all_free(free_cells@, BOARD_SIZE as int);
            }
            let mut i: u8 = 0;
            while i < self.snake_len
                invariant
                    self.buffer_ok(),
                    self@.body == body,
                    rand < RAND_DENOM,
                    forall|j: int|
                        0 <= j < body.len() ==> valid_cell(
                            (#[trigger] body[j]).board_index as int,
                        ),
                    i <= self.snake_len,
                    body.len() == self.snake_len as int,
                    free_cells@.len() == BOARD_SIZE,
                    forall|c: int|
                        0 <= c < BOARD_SIZE ==> ((#[trigger] free_cells@[c]) <==> exists|j: int|
                            0 <= j < i && body[j].board_index as int == c),
                    free_in_mask_below(free_cells@, BOARD_SIZE as int) >= BOARD_SIZE - i,
                decreases self.snake_len - i,
            {
                let index = self.get_snake_point(i).board_index;
                proof {
                    lemma_mask_update(free_cells@, index as int, BOARD_SIZE as int);
                }
                let ghost prior = free_cells@;
                free_cells.set(index as usize, true);
                proof {
                    assert forall|c: int|
                        0 <= c < BOARD_SIZE implies ((#[trigger] free_cells@[c])
                        <==> exists|j: int|
                        0 <= j < i + 1 && body[j].board_index as int == c) by {
                        if c == index as int {
                            assert(body[i as int].board_index as int == c);
                        } else {
                            assert(free_cells@[c] == prior[c]);
                            assert(forall|j: int|
                                0 <= j < i + 1 && (#[trigger] body[j]).board_index as int == c
                                    ==> j < i);
                        }
                    }
                }
                i += 1;
            }
            proof {
                assert forall|c: int| 0 <= c < BOARD_SIZE implies ((#[trigger] free_cells@[c])
                    <==> occupied(body, c)) by {}
                lemma_counts_agree(body, free_cells@, BOARD_SIZE as int);
            }
            // Find the board index of the random slot.
            let ghost total = free_in_mask_below(free_cells@, BOARD_SIZE as int);
            let mut idx: usize = 0;
            let mut counter: u64 = 0;
            let mut next_apple: u8 = 0;
            let mut found: bool = false;
            while idx < BOARD_SIZE && !found
                invariant
                    free_cells@.len() == BOARD_SIZE,
                    idx <= BOARD_SIZE,
                    total == free_in_mask_below(free_cells@, BOARD_SIZE as int),
                    total > space,
                    !found ==> counter as int == free_in_mask_below(free_cells@, idx as int),
                    !found ==> counter <= space,
                    found ==> valid_cell(next_apple as int) && !free_cells@[next_apple as int]
                        && free_in_mask_below(free_cells@, next_apple as int) == space,
                decreases BOARD_SIZE - idx + if found {
                    0int
                } else {
                    1int
                },
            {
                if !free_cells[idx] {
                    if counter == space {
                        next_apple = idx as u8;
                        found = true;
                    } else {
                        counter = counter + 1;
                        idx += 1;
                    }
                } else {
                    idx += 1;
                }
            }
            proof {
                if !found {
                    assert(counter as int == total);
                    assert(false);
                }
            }
            // Store the new location of the apple.
            self.apple = Option::Some(next_apple);
            proof {
                lemma_counts_agree(body, free_cells@, next_apple as int);
                assert(self@.body =~= body);
            }
        } else {
            // There's no free places to put the apple.
            self.apple = Option::None;
            proof {
                assert(self@.body =~= body);
            }
        }
    }

    /// Update the game state to the next state: resolve the input against
    /// the head's direction, end the game on a wall or body collision
    /// without touching the state, and otherwise advance the snake, eating
    /// (and growing, scoring, and re-placing the apple with the given draw)
    /// when the move lands on the apple.
    #[verifier::rlimit(50)]
    pub fn update(&mut self, input: Option<Direction>, rand: u64) -> (r: UpdateResult)
        requires
            old(self).wf(),
            rand < RAND_DENOM,
        ensures
            final(self).wf(),
            r == UpdateResult::GameOver <==> blocked(old(self)@, input),
            blocked(old(self)@, input) ==> *final(self) == *old(self),
            !blocked(old(self)@, input) ==> final(self)@.body == stepped_body(old(self)@, input),
            !blocked(old(self)@, input) ==> final(self)@.score == old(self)@.score + (if eats(
                old(self)@,
                input,
            ) {
                1int
            } else {
                0int
            }),
            !blocked(old(self)@, input) && !eats(old(self)@, input) ==> final(self)@.apple == old(
                self,
            )@.apple,
            !blocked(old(self)@, input) && eats(old(self)@, input) ==> placed_apple_ok(
                stepped_body(old(self)@, input),
                rand,
                final(self)@.apple,
            ),
            final(self)@.body.len() >= old(self)@.body.len(),
            !blocked(old(self)@, input) && eats(old(self)@, input) ==> final(self)@.body.len()
                == old(self)@.body.len() + 1,
    {
        let ghost g0 = *self;
        let board_size = BOARD_SIZE as u8;
        let board_width = BOARD_WIDTH as u8;

        // Figure out which way snake is moving and fix direction if the user
        // input is not valid.
        let prev = self.get_snake_point(0);
        let head = prev.board_index;
        let prev_dir = prev.direction;

        let dir = match (input, prev_dir) {
            (Option::None, _) => prev_dir,
            (Option::Some(Direction::Up), Direction::Down) => prev_dir,
            (Option::Some(Direction::Left), Direction::Right) => prev_dir,
            (Option::Some(Direction::Down), Direction::Up) => prev_dir,
            (Option::Some(Direction::Right), Direction::Left) => prev_dir,
            (Option::Some(d), _) => d,
        };
        proof {
            assert(dir == step_direction(g0@, input));
        }

        // Get next head position. Return a GameOver if the snake has collided
        // with the edge.
        let next_point = match dir {
            Direction::Up if head < board_width => {
                return UpdateResult::GameOver;
            },
            Direction::Down if head >= board_size - board_width => {
                return UpdateResult::GameOver;
            },
            Direction::Left if head % board_width == 0 => {
                return UpdateResult::GameOver;
            },
            Direction::Right if head % board_width == board_width - 1 => {
                return UpdateResult::GameOver;
            },
            Direction::Up => head - board_width,
            Direction::Down => head + board_width,
            Direction::Left => head - 1,
            Direction::Right => head + 1,
        };
        proof {
            assert(!hits_wall(g0@, input));
            lemma_next_cell_valid(g0@, input);
            assert(next_point as int == next_cell(g0@, input));
        }

        // Return a GameOver if the snake has hit its own tail.
        // The snake can only collide with itself if it has a length of 5 or
        // more. Don't check the last tail position as it will be moving out
        // of its cell.
        if self.snake_len > (INITIAL_LENGTH as u8) {
            let mut i: u8 = 3;
            while i < self.snake_len - 1
                invariant
                    *self == g0,
                    g0.buffer_ok(),
                    g0.snake_len > INITIAL_LENGTH,
                    g0.wf(),
                    g0 == *old(self),
                    next_point as int == next_cell(g0@, input),
                    3 <= i <= self.snake_len - 1,
                    forall|j: int|
                        3 <= j < i ==> (#[trigger] g0@.body[j]).board_index != next_point,
                decreases self.snake_len - 1 - i,
            {
                let snake_point = self.get_snake_point(i).board_index;
                if next_point == snake_point {
                    return UpdateResult::GameOver;
                }
                i += 1;
            }
        }
        proof {
            assert(!hits_self(g0@, input));
        }

        // Move the snake
        self.snake_head = (self.snake_head + 1) % board_size;
        let snake_part = SnakePart { board_index: next_point, direction: dir };
        let set_at = self.snake_head as usize;
        self.snake_buffer.set(set_at, snake_part);
        proof {
            self.lemma_body_after_advance(g0, snake_part);
            assert(snake_part == new_head(g0@, input));
            assert(self@.body =~= seq![new_head(g0@, input)] + g0@.body.subrange(
                0,
                g0@.body.len() - 1,
            ));
        }

        // Update the apple
        match self.apple {
            Option::Some(apple) => {
                if next_point == apple {
                    // If the snake has collided with the apple we add a copy
                    // of the head to the snake. This will cause the snake to
                    // grow as expected.
                    let ghost g1 = *self;
                    self.snake_len = self.snake_len + 1;
                    self.snake_head = (self.snake_head + 1) % board_size;
                    let set_again = self.snake_head as usize;
                    self.snake_buffer.set(set_again, snake_part);
                    self.score = self.score + 1;
                    proof {
                        assert(eats(g0@, input));
                        self.lemma_body_after_growth(g1, snake_part);
                        assert(self@.body =~= stepped_body(g0@, input));
                        assert forall|i: int| 0 <= i < self@.body.len() implies valid_cell(
                            (#[trigger] self@.body[i]).board_index as int,
                        ) by {
                            if i >= 2 {
                                assert(self@.body[i] == g0@.body[i - 2]);
                            }
                        }
                    }
                    // Attempt to replace the apple.
                    self.place_apple(rand);
                    proof {
                        match self@.apple {
                            Option::Some(_) => {
                                assert((BOARD_SIZE as int) - self@.body.len() != 0);
                            },
                            Option::None => {},
                        }
                        self.lemma_wf_after_step(g0, input);
                    }
                }
            },
            // There is no apple to collide with or draw. Technically signals
            // the end of the game, but following the logic of the 3310 game
            // the user has to end the game even on a perfect run.
            _ => (),
        };
        proof {
            if !eats(g0@, input) {
                assert(self@.body =~= stepped_body(g0@, input));
                self.lemma_apple_still_clear(g0, input);
                self.lemma_wf_after_step(g0, input);
            }
        }

        // Let the caller know to keep continuing the game.
        UpdateResult::Running
    }

    /// After one cursor advance and one write, the abstract body is the
    /// written part followed by all but the last of the old segments.
    proof fn lemma_body_after_advance(&self, g0: Game, part: SnakePart)
        requires
            g0.buffer_ok(),
            self.snake_head as int == (g0.snake_head as int + 1) % (BOARD_SIZE as int),
            self.snake_buffer@ == g0.snake_buffer@.update(self.snake_head as int, part),
            self.snake_len == g0.snake_len,
            self.score == g0.score,
            self.apple == g0.apple,
        ensures
            self.buffer_ok(),
            self@.body == seq![part] + g0@.body.subrange(0, g0@.body.len() - 1),
    {
        let h0 = g0.snake_head as int;
        let h1 = self.snake_head as int;
        lemma_head_advance(h0);
        assert forall|i: int| 0 <= i < self.snake_len implies self@.body[i] == (seq![part]
            + g0@.body.subrange(0, g0@.body.len() - 1))[i] by {
            lemma_ring_index(h1, i);
            if i > 0 {
                lemma_ring_index(h0, i - 1);
                assert(ring_index(h1, i) == ring_index(h0, i - 1));
                assert(ring_index(h1, i) != h1);
            }
        }
        assert(self@.body =~= seq![part] + g0@.body.subrange(0, g0@.body.len() - 1));
    }

    /// After the growth write (length bumped, cursor advanced again, the
    /// same part written again), the abstract body gains one more copy of
    /// the new head in front.
    proof fn lemma_body_after_growth(&self, g1: Game, part: SnakePart)
        requires
            g1.buffer_ok(),
            g1.snake_len < BOARD_SIZE,
            self.snake_head as int == (g1.snake_head as int + 1) % (BOARD_SIZE as int),
            self.snake_buffer@ == g1.snake_buffer@.update(self.snake_head as int, part),
            self.snake_len == g1.snake_len + 1,
            g1.snake_buffer@[g1.snake_head as int] == part,
        ensures
            self.buffer_ok(),
            self@.body == seq![part] + g1@.body,
    {
        let h1 = g1.snake_head as int;
        let h2 = self.snake_head as int;
        lemma_head_advance(h1);
        assert forall|i: int| 0 <= i < self.snake_len implies self@.body[i] == (seq![part]
            + g1@.body)[i] by {
            lemma_ring_index(h2, i);
            if i > 0 {
                lemma_ring_index(h1, i - 1);
                assert(ring_index(h2, i) == ring_index(h1, i - 1));
                assert(ring_index(h2, i) != h2);
            }
        }
        assert(self@.body =~= seq![part] + g1@.body);
    }

    /// A state whose abstract body is the stepped body of a well-formed
    /// state, with the score and apple adjusted as the step demands, is
    /// well formed again.
    proof fn lemma_wf_after_step(&self, g0: Game, input: Option<Direction>)
        requires
            g0.wf(),
            !blocked(g0@, input),
            self.buffer_ok(),
            self@.body == stepped_body(g0@, input),
            self@.score == g0@.score + (if eats(g0@, input) {
                1int
            } else {
                0int
            }),
            match self@.apple {
                Option::Some(a) => valid_cell(a as int) && !occupied(self@.body, a as int)
                    && self@.body.len() < BOARD_SIZE,
                Option::None => true,
            },
        ensures
            self.wf(),
    {
        let m = g0@;
        let b = self@.body;
        lemma_next_cell_valid(m, input);
        let c = next_cell(m, input);
        let nh = new_head(m, input);
        assert forall|i: int| 0 <= i < b.len() implies valid_cell(
            (#[trigger] b[i]).board_index as int,
        ) by {
            if eats(m, input) {
                if i >= 2 {
                    assert(b[i] == m.body[i - 2]);
                }
            } else {
                if i >= 1 {
                    assert(b[i] == m.body[i - 1]);
                }
            }
        }
        assert forall|i: int| 0 <= i < b.len() - 1 implies link_ok(b[i + 1], #[trigger] b[i]) by {
            assert(link_ok(m.body[0], nh));
            if eats(m, input) {
                if i >= 2 {
                    assert(b[i] == m.body[i - 2] && b[i + 1] == m.body[i - 1]);
                }
            } else {
                if i >= 1 {
                    assert(b[i] == m.body[i - 1] && b[i + 1] == m.body[i]);
                }
            }
        }
        if eats(m, input) {
            match m.apple {
                Option::Some(a) => {
                    assert(a as int == c);
                    assert(!occupied(m.body, c));
                },
                Option::None => {
                    assert(false);
                },
            }
        } else {
            crate::model::lemma_fresh_head(m, input);
        }
        assert forall|i: int, j: int|
            0 <= i < j < b.len() && (#[trigger] b[i]).board_index == (
            #[trigger] b[j]).board_index implies j == i + 1 by {
            if eats(m, input) {
                if i >= 2 {
                    assert(b[i] == m.body[i - 2] && b[j] == m.body[j - 2]);
                } else if j >= 2 {
                    assert(b[i].board_index as int == c);
                    assert(b[j] == m.body[j - 2]);
                    assert(m.body[j - 2].board_index as int != c);
                }
            } else {
                if i >= 1 {
                    assert(b[i] == m.body[i - 1] && b[j] == m.body[j - 1]);
                } else {
                    assert(b[j] == m.body[j - 1]);
                    if j - 1 >= 3 {
                        assert(!(3 <= j - 1 < m.body.len() - 1 && m.body[j - 1].board_index as int
                            == c));
                    }
                    assert(m.body[j - 1].board_index as int != c);
                }
            }
        }
    }

    /// A legal tick that does not eat leaves the apple clear of the new
    /// body: the new head does not land on it (that would have been an
    /// eating tick) and every other segment already avoided it.
    proof fn lemma_apple_still_clear(&self, g0: Game, input: Option<Direction>)
        requires
            g0.wf(),
            !blocked(g0@, input),
            !eats(g0@, input),
            self@.body == stepped_body(g0@, input),
            self@.apple == g0@.apple,
        ensures
            match self@.apple {
                Option::Some(a) => valid_cell(a as int) && !occupied(self@.body, a as int)
                    && self@.body.len() < BOARD_SIZE,
                Option::None => true,
            },
    {
        let m = g0@;
        let b = self@.body;
        let c = next_cell(m, input);
        match self@.apple {
            Option::Some(a) => {
                assert(a as int != c);
                assert forall|i: int| 0 <= i < b.len() implies (#[trigger] b[i]).board_index as int
                    != a as int by {
                    if i >= 1 {
                        assert(b[i] == m.body[i - 1]);
                        assert(!occupied(m.body, a as int));
                    }
                }
            },
            Option::None => {},
        }
    }

    /// Get the nth point in the snake from the head to the tail.
    fn get_snake_point(&self, n: u8) -> (r: SnakePart)
        requires
            self.buffer_ok(),
            n < self.snake_len,
        ensures
            r == self@.body[n as int],
    {
        self.snake_buffer[(self.snake_head as usize + BOARD_SIZE - n as usize) % BOARD_SIZE]
    }
}

} // verus!
