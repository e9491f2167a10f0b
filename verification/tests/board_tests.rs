use deja_q::agent::{apply_action, Action};
use deja_q::board::{dir_permutation, Background, Board};
use rand::rngs::SmallRng;
use rand::SeedableRng;

/// A w by h board with walls on the edge, food inside, no ghosts, and the
/// player parked at (2, 2).
fn walled_board(w: usize, h: usize) -> Board {
    let mut board = Board::new(w, h);
    for x in 0..w {
        board.set_tile(x, 0, Background::Wall);
        board.set_tile(x, h - 1, Background::Wall);
    }
    for y in 1..(h - 1) {
        board.set_tile(0, y, Background::Wall);
        board.set_tile(w - 1, y, Background::Wall);
    }
    board.pacman = (2, 2);
    board
}

#[test]
fn new_board_is_all_food() {
    let board = Board::new(8, 7);
    assert_eq!(board.tiles.len(), 7);
    for row in &board.tiles {
        assert_eq!(row.len(), 8);
        for t in row {
            assert_eq!(*t, Background::Food);
        }
    }
    assert!(board.ghosts.is_empty());
    assert_eq!(board.pacman, (5, 5));
}

#[test]
fn initialize_builds_walled_grid_with_ghosts() {
    let board = Board::initialize(10, 10, 7);
    assert_eq!(board.tiles.len(), 10);
    for x in 0..10 {
        assert_eq!(board.tiles[0][x], Background::Wall);
        assert_eq!(board.tiles[9][x], Background::Wall);
    }
    for y in 0..10 {
        assert_eq!(board.tiles[y][0], Background::Wall);
        assert_eq!(board.tiles[y][9], Background::Wall);
    }
    assert_eq!(board.ghosts.len(), 7);
    for (i, g) in board.ghosts.iter().enumerate() {
        assert!(g.0 >= 1 && g.0 <= 8 && g.1 >= 1 && g.1 <= 8);
        assert_ne!(board.tiles[g.1][g.0], Background::Wall);
        for h in &board.ghosts[i + 1..] {
            assert_ne!(g, h);
        }
    }
    let (px, py) = board.pacman;
    assert_ne!(board.tiles[py][px], Background::Wall);
    assert!(!board.is_game_over());
}

#[test]
fn rand_empty_pos_returns_free_cell() {
    let mut board = Board::initialize(10, 10, 7);
    for _ in 0..50 {
        let (x, y) = board.rand_empty_pos();
        assert_ne!(board.tiles[y][x], Background::Wall);
        assert!(!board.ghosts.contains(&(x, y)));
    }
}

#[test]
fn move_pacman_eats_food() {
    let mut board = walled_board(8, 8);
    let ate = board.move_pacman(3, 2);
    assert!(ate);
    assert_eq!(board.pacman, (3, 2));
    assert_eq!(board.tiles[2][3], Background::Empty);
}

#[test]
fn move_pacman_onto_empty_moves_without_food() {
    let mut board = walled_board(8, 8);
    board.set_tile(3, 2, Background::Empty);
    let ate = board.move_pacman(3, 2);
    assert!(!ate);
    assert_eq!(board.pacman, (3, 2));
    assert_eq!(board.tiles[2][3], Background::Empty);
}

#[test]
fn move_pacman_into_wall_stays_put() {
    let mut board = walled_board(8, 8);
    board.pacman = (1, 1);
    let ate = board.move_pacman(0, 1);
    assert!(!ate);
    assert_eq!(board.pacman, (1, 1));
    assert_eq!(board.tiles[1][0], Background::Wall);
}

#[test]
fn game_over_on_ghost_or_wall() {
    let mut board = walled_board(8, 8);
    assert!(!board.is_game_over());
    board.ghosts.push((2, 2));
    assert!(board.is_game_over());
    board.ghosts.clear();
    board.pacman = (0, 0);
    assert!(board.is_game_over());
}

#[test]
fn tick_ghosts_steps_each_ghost_at_most_one_cell() {
    let mut board = walled_board(10, 10);
    board.ghosts = vec![(2, 3), (5, 5), (7, 7)];
    let before = board.ghosts.clone();
    board.tick_ghosts();
    assert_eq!(board.ghosts.len(), before.len());
    for (old, new) in before.iter().zip(board.ghosts.iter()) {
        let dx = (old.0 as i64 - new.0 as i64).abs();
        let dy = (old.1 as i64 - new.1 as i64).abs();
        assert!(dx + dy <= 1, "ghost moved more than one step");
        assert_ne!(board.tiles[new.1][new.0], Background::Wall);
    }
    for (i, g) in board.ghosts.iter().enumerate() {
        for h in &board.ghosts[i + 1..] {
            assert_ne!(g, h);
        }
    }
}

#[test]
fn boxed_in_ghost_stays_put() {
    let mut board = walled_board(10, 10);
    // wall in the ghost's four neighbours
    board.set_tile(5, 4, Background::Wall);
    board.set_tile(5, 6, Background::Wall);
    board.set_tile(4, 5, Background::Wall);
    board.set_tile(6, 5, Background::Wall);
    board.ghosts = vec![(5, 5)];
    board.tick_ghosts();
    assert_eq!(board.ghosts, vec![(5, 5)]);
}

#[test]
fn render_draws_player_ghosts_walls_and_food() {
    let mut board = walled_board(6, 6);
    board.set_tile(3, 4, Background::Empty);
    board.ghosts = vec![(3, 3)];
    let frame: String = board.render().into_iter().collect();
    let expected = "\
######
#....#
#.P..#
#..G.#
#.. .#
######
";
    assert_eq!(frame, expected);
}

#[test]
fn apply_action_moves_in_each_direction() {
    let mut board = walled_board(8, 8);
    board.pacman = (3, 3);
    assert!(apply_action(&mut board, Action::Up));
    assert_eq!(board.pacman, (3, 2));
    assert!(apply_action(&mut board, Action::Left));
    assert_eq!(board.pacman, (2, 2));
    assert!(apply_action(&mut board, Action::Down));
    assert_eq!(board.pacman, (2, 3));
    assert!(apply_action(&mut board, Action::Right));
    assert_eq!(board.pacman, (3, 3));
    // back onto the already-eaten cell: a move, but no food
    assert!(!apply_action(&mut board, Action::Up));
    assert_eq!(board.pacman, (3, 2));
    // idling eats nothing new
    assert!(!apply_action(&mut board, Action::Idle));
    assert_eq!(board.pacman, (3, 2));
}

#[test]
fn ghost_with_one_way_out_takes_it() {
    let mut board = walled_board(10, 10);
    // three neighbours walled off; only (5, 4) stays open
    board.set_tile(5, 6, Background::Wall);
    board.set_tile(4, 5, Background::Wall);
    board.set_tile(6, 5, Background::Wall);
    board.ghosts = vec![(5, 5)];
    board.tick_ghosts();
    assert_eq!(board.ghosts, vec![(5, 4)]);
}

#[test]
fn dir_permutation_enumerates_fixed_orders() {
    assert_eq!(dir_permutation(0), [0, 1, 2, 3]);
    assert_eq!(dir_permutation(5), [0, 3, 2, 1]);
    assert_eq!(dir_permutation(16), [2, 3, 0, 1]);
    assert_eq!(dir_permutation(23), [3, 2, 1, 0]);
}

#[test]
fn dir_permutation_is_always_a_permutation() {
    let mut all = Vec::new();
    for k in 0..24 {
        let p = dir_permutation(k);
        let mut seen = [false; 4];
        for d in p {
            assert!(d < 4);
            assert!(!seen[d], "direction repeated in permutation {k}");
            seen[d] = true;
        }
        assert!(!all.contains(&p), "permutation {k} repeats an earlier one");
        all.push(p);
    }
}

#[test]
fn rng_state_does_not_leak_into_board_logic() {
    // two boards that differ only in generator state behave alike
    let mut b1 = walled_board(8, 8);
    let mut b2 = walled_board(8, 8);
    b1.rng = SmallRng::seed_from_u64(1);
    b2.rng = SmallRng::seed_from_u64(999);
    assert_eq!(b1.is_game_over(), b2.is_game_over());
    assert_eq!(b1.move_pacman(3, 2), b2.move_pacman(3, 2));
    assert_eq!(b1.pacman, b2.pacman);
}
