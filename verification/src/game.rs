use vstd::prelude::*;
use crate::agent::PaQman;
use crate::agent::table_contains;
use crate::board::Board;

verus! {

/// Width and height of the training grid.
pub const GRID_SIDE: usize = 10;

/// Number of ghosts on the training grid.
pub const GHOST_NUM: usize = 7;

/// Cap on the number of player turns in one episode.
pub const TICK_CAP: usize = 10_000;

/// One training episode: a fresh walled 10 by 10 grid with 7 ghosts, then
/// player turn and ghost turn in alternation until a terminal state or the
/// turn cap. Returns how many player turns were taken: at least one, since
/// a fresh board is never terminal, so afterwards the table holds at least
/// one state, and it keeps every state it already knew.
pub fn run_episode(ai: &mut PaQman) -> (ticks: usize)
    requires
        old(ai).wf(),
    ensures
        final(ai).wf(),
        final(ai).learning_rate == old(ai).learning_rate,
        final(ai).discount_rate == old(ai).discount_rate,
        1 <= ticks <= TICK_CAP,
        final(ai).q_table.entries@.len() >= 1,
        forall|k: u64| #[trigger]
            table_contains(old(ai).q_table.entries@, k) ==> final(ai).q_table.contains_key(k),
    {
    let ghost lr0 = old(ai).learning_rate;
    let ghost dr0 = old(ai).discount_rate;
    let ghost t0e = old(ai).q_table.entries@;
    let mut board = Board::initialize(GRID_SIDE, GRID_SIDE, GHOST_NUM);
    let mut ticks: usize = 0;
    loop
        invariant_except_break
            ai.wf(),
            ai.learning_rate == lr0,
            ai.discount_rate == dr0,
            board.wf(),
            ticks <= TICK_CAP,
            ticks == 0 ==> !board.game_over(),
            ticks >= 1 ==> ai.q_table.entries@.len() >= 1,
            forall|k: u64| #[trigger]
                table_contains(t0e, k) ==> ai.q_table.contains_key(k),
        ensures
            ai.wf(),
            ai.learning_rate == lr0,
            ai.discount_rate == dr0,
            1 <= ticks <= TICK_CAP,
            ai.q_table.entries@.len() >= 1,
            forall|k: u64| #[trigger]
                table_contains(t0e, k) ==> ai.q_table.contains_key(k),
        decreases TICK_CAP - ticks,
    {
        let over = board.is_game_over();
        if over || ticks == TICK_CAP {
            proof {
                assert(ticks >= 1);
            }
            break ;
        }
        ticks = ticks + 1;
        let ghost bpre = board;
        let _step = ai.tick_pacman(&mut board);
        proof {
            assert(ai.q_table.contains_key(crate::agent::old_state_key(bpre)));
            assert(ai.q_table.entries@.len() >= 1);
            assert forall|k: u64| #[trigger]
                table_contains(t0e, k) implies ai.q_table.contains_key(k) by {
                assert(ai.q_table.contains_key(k));
            }
        }
        if board.is_game_over() {
            break ;
        }
        board.tick_ghosts();
    }
    ticks
}

} // verus!
