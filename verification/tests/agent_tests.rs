use deja_q::agent::{apply_action, compute_reward, Action, PaQman};
use rand::rngs::SmallRng;
use rand::SeedableRng;
use deja_q::board::{Background, Board};
use deja_q::fixed::{Q_MAX, SCALE};
use deja_q::qstate::{make_q_state, QState, Tile, VIEW_SLOTS};

/// A w by h board with walls on the edge, food inside, no ghosts, and the
/// player parked at (2, 2).
fn walled_board(w: usize, h: usize) -> Board {
    let mut board = Board::new(w, h);
    for x in 0..w {
        board.set_tile(x, 0, Background::Wall);
        board.set_tile(x, h - 1, Background::Wall);
    }
    for y in 1..(h - 1) {
        board.set_tile(0, y, Background::Wall);
        board.set_tile(w - 1, y, Background::Wall);
    }
    board.pacman = (2, 2);
    board
}

/// A local state whose view slot `slot` holds the given tile and whose
/// other slots hold Empty.
fn state_with(slot: usize, tile: Tile) -> QState {
    let mut surroundings = vec![Tile::Empty; VIEW_SLOTS];
    surroundings[slot] = tile;
    QState { surroundings }
}

#[test]
fn encoding_is_pure_function_of_board_parts() {
    let mut b1 = walled_board(10, 10);
    let mut b2 = walled_board(10, 10);
    b1.ghosts = vec![(3, 3), (6, 2)];
    b2.ghosts = vec![(3, 3), (6, 2)];
    b1.rng = SmallRng::seed_from_u64(7);
    b2.rng = SmallRng::seed_from_u64(123_456);
    let q1 = make_q_state(&b1);
    let q2 = make_q_state(&b2);
    assert_eq!(q1, q2);
    // and calling it again on the same board repeats the same encoding
    assert_eq!(make_q_state(&b1), q1);
}

#[test]
fn encoding_reads_walls_ghosts_and_edges() {
    let mut board = walled_board(10, 10);
    board.pacman = (1, 1);
    board.ghosts = vec![(3, 2), (8, 8)];
    let q = make_q_state(&board);
    // window rows for dy = -2..=2 around (1, 1); x spans -1..=3, y spans -1..=3
    let expected = vec![
        // dy = -2 (y = -1): off the grid
        Tile::Empty, Tile::Empty, Tile::Empty, Tile::Empty, Tile::Empty,
        // dy = -1 (y = 0): the top wall, one cell off the grid
        Tile::Empty, Tile::Wall, Tile::Wall, Tile::Wall, Tile::Wall,
        // dy = 0 (y = 1): left wall, centre skipped, food to the right
        Tile::Empty, Tile::Wall, Tile::Food, Tile::Food,
        // dy = 1 (y = 2): the ghost at (3, 2) sits at dx = +2
        Tile::Empty, Tile::Wall, Tile::Food, Tile::Food, Tile::Phantom,
        // dy = 2 (y = 3)
        Tile::Empty, Tile::Wall, Tile::Food, Tile::Food, Tile::Food,
    ];
    assert_eq!(q.surroundings, expected);
}

#[test]
fn state_keys_separate_states() {
    let all_empty = QState { surroundings: vec![Tile::Empty; VIEW_SLOTS] };
    assert_eq!(all_empty.state_key(), 0);
    // slot 0 is the least significant base-4 digit
    assert_eq!(state_with(0, Tile::Phantom).state_key(), 1);
    assert_eq!(state_with(0, Tile::Wall).state_key(), 2);
    assert_eq!(state_with(0, Tile::Food).state_key(), 3);
    assert_eq!(state_with(1, Tile::Wall).state_key(), 8);
    assert_eq!(state_with(23, Tile::Phantom).state_key(), 1u64 << 46);
    assert_ne!(
        state_with(5, Tile::Food).state_key(),
        state_with(6, Tile::Food).state_key()
    );
}

#[test]
fn fresh_state_has_default_value_zero() {
    let ai = PaQman::new();
    let s = state_with(3, Tile::Wall);
    for a in [Action::Idle, Action::Up, Action::Down, Action::Left, Action::Right] {
        assert_eq!(ai.get_quality(&s, a), 0);
    }
}

#[test]
fn setting_one_action_leaves_the_rest_at_default() {
    let mut ai = PaQman::new();
    let s = state_with(3, Tile::Wall);
    ai.set_quality(&s, Action::Left, 42);
    assert_eq!(ai.get_quality(&s, Action::Left), 42);
    for a in [Action::Idle, Action::Up, Action::Down, Action::Right] {
        assert_eq!(ai.get_quality(&s, a), 0);
    }
    let other = state_with(4, Tile::Wall);
    assert_eq!(ai.get_quality(&other, Action::Left), 0);
}

#[test]
fn update_with_zero_rate_and_zero_reward_changes_nothing() {
    let mut ai = PaQman::new();
    let s0 = state_with(2, Tile::Food);
    let s1 = state_with(7, Tile::Phantom);
    ai.set_quality(&s0, Action::Up, 123_000);
    ai.set_quality(&s1, Action::Down, -77_000);
    ai.set_learning_rate(0);
    ai.update_q_table(0, &s0, &s1, Action::Up);
    // an update on a state the table has never seen either
    let fresh = state_with(11, Tile::Wall);
    ai.update_q_table(0, &fresh, &s1, Action::Right);
    let actions = [Action::Idle, Action::Up, Action::Down, Action::Left, Action::Right];
    for a in actions {
        assert_eq!(
            ai.get_quality(&s0, a),
            if a == Action::Up { 123_000 } else { 0 }
        );
        assert_eq!(
            ai.get_quality(&s1, a),
            if a == Action::Down { -77_000 } else { 0 }
        );
        assert_eq!(ai.get_quality(&fresh, a), 0);
    }
}

#[test]
fn bellman_update_matches_hand_computation() {
    // learning rate 0.7, discount 0.95, all in fixed point
    let mut ai = PaQman::new();
    let s0 = state_with(2, Tile::Food);
    let s1 = state_with(7, Tile::Phantom);
    ai.set_quality(&s0, Action::Down, 100);
    ai.set_quality(&s1, Action::Up, 1000);
    ai.update_q_table(0, &s0, &s1, Action::Down);
    // 100 + 0.7 * (0 + 0.95 * 1000 - 100) = 100 + trunc(700000 * 850 / 1e6)
    assert_eq!(ai.get_quality(&s0, Action::Down), 695);
}

#[test]
fn terminal_reward_drives_value_negative() {
    let mut ai = PaQman::new();
    let s0 = state_with(1, Tile::Phantom);
    let s1 = state_with(2, Tile::Phantom);
    ai.update_q_table(-SCALE, &s0, &s1, Action::Down);
    // 0 + 0.7 * (-1 + 0.95 * 0 - 0) = -0.7
    assert_eq!(ai.get_quality(&s0, Action::Down), -700_000);
}

#[test]
fn values_stay_clamped_to_the_stored_range() {
    let mut ai = PaQman::new();
    let s0 = state_with(1, Tile::Wall);
    let s1 = state_with(2, Tile::Wall);
    ai.set_quality(&s0, Action::Up, Q_MAX);
    ai.set_quality(&s1, Action::Up, Q_MAX);
    ai.update_q_table(SCALE, &s0, &s1, Action::Up);
    assert!(ai.get_quality(&s0, Action::Up) <= Q_MAX);
}

#[test]
fn best_action_ties_resolve_to_the_earliest() {
    let mut ai = PaQman::new();
    let s = state_with(9, Tile::Food);
    ai.set_quality(&s, Action::Down, 5_000);
    ai.set_quality(&s, Action::Right, 5_000);
    let (a, v) = ai.get_best_action(&s);
    assert_eq!(a, Action::Down);
    assert_eq!(v, 5_000);
}

#[test]
fn best_action_of_an_unseen_state_has_value_zero() {
    let mut ai = PaQman::new();
    let s = state_with(12, Tile::Wall);
    let (_, v) = ai.get_best_action(&s);
    assert_eq!(v, 0);
}

#[test]
fn draw_at_or_above_the_rate_exploits_the_best_action() {
    let mut ai = PaQman::new();
    let s = state_with(3, Tile::Phantom);
    ai.set_quality(&s, Action::Right, 800_000);
    ai.set_discount_rate(500_000);
    for draw in [500_000, 600_000, 999_999] {
        assert_eq!(ai.decide_action(&s, draw), Action::Right);
    }
}

#[test]
fn each_draw_index_maps_to_its_action() {
    let expected = [Action::Idle, Action::Up, Action::Down, Action::Left, Action::Right];
    for (k, a) in expected.into_iter().enumerate() {
        assert_eq!(Action::from_index(k), a);
    }
}

#[test]
fn zero_exploration_with_dominant_action_is_deterministic() {
    let mut ai = PaQman::new();
    let s = state_with(9, Tile::Food);
    ai.set_quality(&s, Action::Left, 900_000);
    ai.set_quality(&s, Action::Up, 100);
    ai.set_discount_rate(0);
    for _ in 0..50 {
        assert_eq!(ai.pick_action(&s), Action::Left);
    }
}

#[test]
fn cornered_player_stepping_onto_ghost_dies_with_negative_reward() {
    // a 10 by 10 walled grid; the ghost stands right below the player and
    // walls close every other way out
    let mut board = walled_board(10, 10);
    board.pacman = (5, 5);
    board.ghosts = vec![(5, 6)];
    for (x, y) in [(4, 5), (6, 5), (5, 4), (4, 6), (6, 6), (5, 7)] {
        board.set_tile(x, y, Background::Wall);
    }
    let mut ai = PaQman::new();
    let s0 = make_q_state(&board);
    let ate = apply_action(&mut board, Action::Down);
    assert_eq!(board.pacman, (5, 6));
    assert!(board.is_game_over());
    let reward = compute_reward(board.is_game_over(), ate);
    assert_eq!(reward, -SCALE);
    let s1 = make_q_state(&board);
    ai.update_q_table(reward, &s0, &s1, Action::Down);
    assert_eq!(ai.get_quality(&s0, Action::Down), -700_000);
}

#[test]
fn tick_pacman_reports_the_move_it_took() {
    let mut board = walled_board(10, 10);
    board.pacman = (5, 5);
    let mut ai = PaQman::new();
    let before = board.pacman;
    let (action, reward) = ai.tick_pacman(&mut board);
    let (px, py) = board.pacman;
    let (bx, by) = before;
    match action {
        Action::Idle => assert_eq!((px, py), (bx, by)),
        Action::Up => assert_eq!((px, py), (bx, by - 1)),
        Action::Down => assert_eq!((px, py), (bx, by + 1)),
        Action::Left => assert_eq!((px, py), (bx - 1, by)),
        Action::Right => assert_eq!((px, py), (bx + 1, by)),
    }
    // no ghosts and no walls nearby: the move cannot end the round
    assert!(reward >= 0);
}
