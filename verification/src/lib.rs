//! Deterministic simulation core of a Snake game.
//!
//! The crate owns the board, the snake's body (a fixed-capacity ring
//! buffer), apple placement, scoring, and the collision rules, and advances
//! the game by exactly one discrete step per call to [`Game::update`].
//! Rendering, input polling, and the random source are left to the host: the
//! core consumes one uniform draw, handed over as an integer numerator of
//! [`parts::RAND_DENOM`], wherever an apple has to be placed.

mod game;
mod model;
mod parts;

pub use game::Game;
pub use model::almost_distinct;
pub use model::apple_target;
pub use model::blocked;
pub use model::distinct_cells;
pub use model::eats;
pub use model::free_below;
pub use model::head_cell;
pub use model::hits_self;
pub use model::hits_wall;
pub use model::initial_body;
pub use model::lemma_apple_target_in_range;
pub use model::lemma_boundary_blocked;
pub use model::lemma_fresh_head;
pub use model::lemma_next_cell_valid;
pub use model::lemma_placed_apple_unique;
pub use model::lemma_reversal_suppressed;
pub use model::lemma_step_keeps_distinct;
pub use model::link_ok;
pub use model::new_head;
pub use model::next_cell;
pub use model::occupied;
pub use model::placed_apple_ok;
pub use model::step_direction;
pub use model::stepped_body;
pub use model::wf_model;
pub use model::GameModel;
pub use parts::can_step;
pub use parts::cell_step;
pub use parts::col_of;
pub use parts::lemma_resolve_never_reverses;
pub use parts::opposite;
pub use parts::resolve_direction;
pub use parts::row_of;
pub use parts::valid_cell;
pub use parts::Direction;
pub use parts::SnakePart;
pub use parts::UpdateResult;
pub use parts::BOARD_HEIGHT;
pub use parts::BOARD_SIZE;
pub use parts::BOARD_WIDTH;
pub use parts::INITIAL_LENGTH;
pub use parts::RAND_DENOM;
