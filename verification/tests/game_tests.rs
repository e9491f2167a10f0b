use deja_q::agent::{Action, PaQman};
use deja_q::game::{run_episode, TICK_CAP};
use deja_q::qstate::{QState, Tile, VIEW_SLOTS};

#[test]
fn an_episode_takes_at_least_one_turn_and_at_most_the_cap() {
    let mut ai = PaQman::new();
    let ticks = run_episode(&mut ai);
    assert!(ticks >= 1);
    assert!(ticks <= TICK_CAP);
    // the one turn taken has left a state in the table
    assert!(!ai.q_table.entries.is_empty());
}

#[test]
fn an_episode_keeps_every_state_already_learned() {
    let mut ai = PaQman::new();
    let seeded = QState { surroundings: vec![Tile::Wall; VIEW_SLOTS] };
    ai.set_quality(&seeded, Action::Up, 321_000);
    let key = seeded.state_key();
    run_episode(&mut ai);
    assert!(ai.q_table.entries.iter().any(|e| e.0 == key));
}

#[test]
fn training_several_episodes_grows_the_table() {
    let mut ai = PaQman::new();
    for _ in 0..5 {
        run_episode(&mut ai);
    }
    // the agent has seen at least one state by now
    assert!(!ai.q_table.entries.is_empty());
    // and its rates were left untouched by training
    assert_eq!(ai.learning_rate, 700_000);
    assert_eq!(ai.discount_rate, 950_000);
}
