use snake_core::Direction;
use snake_core::Game;
use snake_core::SnakePart;
use snake_core::UpdateResult;
use snake_core::BOARD_HEIGHT;
use snake_core::BOARD_SIZE;
use snake_core::BOARD_WIDTH;
use snake_core::RAND_DENOM;

/// A draw that makes the next apple placement pick the `k`-th free cell out
/// of `free`: the integer closest to `(k + 1/2) / free * RAND_DENOM`.
fn rand_for(k: u64, free: u64) -> u64 {
    let r = ((2 * k as u128 + 1) * RAND_DENOM as u128 / (2 * free as u128)) as u64;
    assert!(r < RAND_DENOM);
    assert_eq!(r * free / RAND_DENOM, k);
    r
}

fn parts(g: &Game) -> Vec<SnakePart> {
    let mut v = Vec::new();
    for n in 0..g.get_snake_len() {
        v.push(g.get_snake_part(n));
    }
    v
}

fn cells(g: &Game) -> Vec<u8> {
    parts(g).iter().map(|p| p.board_index).collect()
}

/// The invariants every running game keeps: the apple is never on the body,
/// and the body cells are pairwise distinct whenever `allow_growth_pair`
/// does not excuse the duplicated head a growth tick writes.
fn check_invariants(g: &Game, expect_distinct: bool) {
    let cs = cells(g);
    assert!(cs.len() >= 1);
    for &c in &cs {
        assert!((c as usize) < BOARD_SIZE);
    }
    if let Some(a) = g.get_apple() {
        assert!((a as usize) < BOARD_SIZE);
        assert!(!cs.contains(&a), "apple {} lies on the snake {:?}", a, cs);
    }
    if expect_distinct {
        for i in 0..cs.len() {
            for j in (i + 1)..cs.len() {
                assert_ne!(cs[i], cs[j], "segments {} and {} share a cell", i, j);
            }
        }
    }
}

fn snapshot(g: &Game) -> (Vec<SnakePart>, u8, u16, Option<u8>) {
    (parts(g), g.get_snake_len(), g.get_score(), g.get_apple())
}

#[test]
fn initial_state_matches_construction() {
    let g = Game::new(rand_for(0, 204));
    assert_eq!(g.get_width(), 16);
    assert_eq!(g.get_height(), 13);
    assert_eq!(BOARD_WIDTH, 16);
    assert_eq!(BOARD_HEIGHT, 13);
    assert_eq!(g.get_score(), 0);
    assert_eq!(g.get_snake_len(), 4);
    assert_eq!(cells(&g), vec![105, 104, 103, 102]);
    for p in parts(&g) {
        assert_eq!(p.direction, Direction::Right);
    }
    // The 0th free cell in ascending order is cell 0.
    assert_eq!(g.get_apple(), Some(0));
    check_invariants(&g, true);
}

#[test]
fn plain_tick_moves_one_cell_right() {
    let mut g = Game::new(rand_for(0, 204));
    let r = g.update(None, 0);
    assert_eq!(r, UpdateResult::Running);
    assert_eq!(g.get_snake_len(), 4);
    assert_eq!(g.get_score(), 0);
    assert_eq!(g.get_apple(), Some(0));
    assert_eq!(cells(&g), vec![106, 105, 104, 103]);
    assert_eq!(g.get_snake_part(0).direction, Direction::Right);
    check_invariants(&g, true);
}

#[test]
fn apple_placement_follows_the_draw() {
    // Free cells at construction: 0..=101 then 106..=207 (204 in all).
    assert_eq!(Game::new(rand_for(0, 204)).get_apple(), Some(0));
    assert_eq!(Game::new(rand_for(101, 204)).get_apple(), Some(101));
    assert_eq!(Game::new(rand_for(102, 204)).get_apple(), Some(106));
    assert_eq!(Game::new(rand_for(103, 204)).get_apple(), Some(107));
    assert_eq!(Game::new(rand_for(203, 204)).get_apple(), Some(207));
}

#[test]
fn apple_placement_exact_midpoint_draw() {
    // floor(0.5 * 204) = 102: the 102nd free cell skips the four snake
    // cells 102..=105, landing on 106.
    let g = Game::new(RAND_DENOM / 2);
    assert_eq!(g.get_apple(), Some(106));
}

#[test]
fn reversal_input_is_suppressed() {
    // Head is moving right; a Left input must be ignored, not reversed.
    let mut g = Game::new(rand_for(0, 204));
    let r = g.update(Some(Direction::Left), 0);
    assert_eq!(r, UpdateResult::Running);
    let head = g.get_snake_part(0);
    assert_eq!(head.board_index, 106);
    assert_eq!(head.direction, Direction::Right);
}

#[test]
fn boundary_up_is_game_over() {
    let mut g = Game::new(rand_for(0, 204));
    for _ in 0..6 {
        assert_eq!(g.update(Some(Direction::Up), 0), UpdateResult::Running);
    }
    // Head is at cell 9, row 0.
    assert_eq!(g.get_snake_part(0).board_index, 9);
    let before = snapshot(&g);
    assert_eq!(g.update(Some(Direction::Up), 0), UpdateResult::GameOver);
    assert_eq!(snapshot(&g), before);
}

#[test]
fn boundary_down_is_game_over() {
    let mut g = Game::new(rand_for(0, 204));
    for _ in 0..6 {
        assert_eq!(g.update(Some(Direction::Down), 0), UpdateResult::Running);
    }
    // Head is at cell 201, the bottom row.
    assert_eq!(g.get_snake_part(0).board_index, 201);
    let before = snapshot(&g);
    assert_eq!(g.update(Some(Direction::Down), 0), UpdateResult::GameOver);
    assert_eq!(snapshot(&g), before);
}

#[test]
fn boundary_left_is_game_over() {
    let mut g = Game::new(rand_for(0, 204));
    assert_eq!(g.update(Some(Direction::Up), 0), UpdateResult::Running);
    for _ in 0..9 {
        assert_eq!(g.update(Some(Direction::Left), 0), UpdateResult::Running);
    }
    // Head is at cell 80, column 0.
    assert_eq!(g.get_snake_part(0).board_index, 80);
    let before = snapshot(&g);
    assert_eq!(g.update(Some(Direction::Left), 0), UpdateResult::GameOver);
    assert_eq!(snapshot(&g), before);
}

#[test]
fn boundary_right_is_game_over() {
    let mut g = Game::new(rand_for(0, 204));
    for _ in 0..6 {
        assert_eq!(g.update(Some(Direction::Right), 0), UpdateResult::Running);
    }
    // Head is at cell 111, the rightmost column.
    assert_eq!(g.get_snake_part(0).board_index, 111);
    let before = snapshot(&g);
    assert_eq!(g.update(Some(Direction::Right), 0), UpdateResult::GameOver);
    assert_eq!(snapshot(&g), before);
}

#[test]
fn eating_grows_scores_and_replaces_the_apple() {
    // Put the apple directly in front of the head, at cell 106.
    let mut g = Game::new(rand_for(102, 204));
    assert_eq!(g.get_apple(), Some(106));
    let r = g.update(None, rand_for(0, 203));
    assert_eq!(r, UpdateResult::Running);
    assert_eq!(g.get_snake_len(), 5);
    assert_eq!(g.get_score(), 1);
    // A new apple was placed on a free cell of the grown snake.
    assert_eq!(g.get_apple(), Some(0));
    // Growth writes the new head twice.
    assert_eq!(cells(&g), vec![106, 106, 105, 104, 103]);
    check_invariants(&g, false);
}

#[test]
fn self_collision_is_game_over_without_mutation() {
    // Eat twice to reach length 6, then coil back onto the body.
    let mut g = Game::new(rand_for(102, 204));
    assert_eq!(g.get_apple(), Some(106));
    assert_eq!(g.update(None, rand_for(103, 203)), UpdateResult::Running);
    assert_eq!(g.get_apple(), Some(107));
    assert_eq!(g.update(None, rand_for(0, 202)), UpdateResult::Running);
    assert_eq!(g.get_apple(), Some(0));
    assert_eq!(g.get_snake_len(), 6);
    assert_eq!(g.get_score(), 2);
    assert_eq!(cells(&g), vec![107, 107, 106, 106, 105, 104]);
    assert_eq!(g.update(Some(Direction::Up), 0), UpdateResult::Running);
    assert_eq!(g.update(Some(Direction::Left), 0), UpdateResult::Running);
    assert_eq!(cells(&g), vec![90, 91, 107, 107, 106, 106]);
    let before = snapshot(&g);
    // Moving down from 90 targets 106, the snake's own segment at offset 4,
    // inside the checked range 3..=len-2.
    assert_eq!(g.update(Some(Direction::Down), 0), UpdateResult::GameOver);
    assert_eq!(snapshot(&g), before);
}

#[test]
fn reset_restores_the_initial_configuration() {
    let mut g = Game::new(rand_for(102, 204));
    assert_eq!(g.update(None, rand_for(103, 203)), UpdateResult::Running);
    assert_eq!(g.update(Some(Direction::Up), 0), UpdateResult::Running);
    assert!(g.get_score() > 0);
    g.reset(rand_for(0, 204));
    assert_eq!(g.get_score(), 0);
    assert_eq!(g.get_snake_len(), 4);
    assert_eq!(cells(&g), vec![105, 104, 103, 102]);
    for p in parts(&g) {
        assert_eq!(p.direction, Direction::Right);
    }
    assert_eq!(g.get_apple(), Some(0));
    check_invariants(&g, true);
}

#[test]
fn invariants_hold_along_a_closed_walk() {
    // Circle an inner block of the board; the apple sits at cell 0 and is
    // never eaten, so the length must stay 4 and the score 0 throughout,
    // and the body must stay pairwise distinct and clear of the apple.
    let mut g = Game::new(rand_for(0, 204));
    let tour = [
        Direction::Up,
        Direction::Up,
        Direction::Left,
        Direction::Left,
        Direction::Down,
        Direction::Down,
        Direction::Right,
        Direction::Right,
    ];
    let mut len_before = g.get_snake_len();
    for _ in 0..3 {
        for d in tour {
            assert_eq!(g.update(Some(d), 0), UpdateResult::Running);
            assert!(g.get_snake_len() >= len_before);
            len_before = g.get_snake_len();
            check_invariants(&g, true);
        }
    }
    assert_eq!(g.get_snake_len(), 4);
    assert_eq!(g.get_score(), 0);
    assert_eq!(g.get_snake_part(0).board_index, 105);
}

#[test]
fn length_is_monotone_across_growth() {
    let mut g = Game::new(rand_for(102, 204));
    let mut len_before = g.get_snake_len();
    for step in 0..3 {
        let r = g.update(None, rand_for(103 + step, 203));
        assert_eq!(r, UpdateResult::Running);
        assert!(g.get_snake_len() >= len_before);
        len_before = g.get_snake_len();
    }
}

#[test]
fn default_snake_part_sits_at_origin_facing_right() {
    let p = SnakePart::default();
    assert_eq!(p.board_index, 0);
    assert_eq!(p.direction, Direction::Right);
}
