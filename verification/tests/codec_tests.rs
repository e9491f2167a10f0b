use deja_q::agent::{Action, PaQman, QTable};
use deja_q::codec::DecodeError;
use deja_q::fixed::Q_MAX;
use deja_q::qstate::{QState, Tile, VIEW_SLOTS};

fn state_with(slot: usize, tile: Tile) -> QState {
    let mut surroundings = vec![Tile::Empty; VIEW_SLOTS];
    surroundings[slot] = tile;
    QState { surroundings }
}

/// A table with a few rows, including negative values.
fn sample_table() -> QTable {
    let mut ai = PaQman::new();
    ai.set_quality(&state_with(0, Tile::Wall), Action::Up, 250_000);
    ai.set_quality(&state_with(0, Tile::Wall), Action::Down, -700_000);
    ai.set_quality(&state_with(5, Tile::Phantom), Action::Idle, -1);
    ai.set_quality(&state_with(17, Tile::Food), Action::Right, Q_MAX);
    ai.set_quality(&state_with(17, Tile::Food), Action::Left, -Q_MAX);
    ai.q_table
}

#[test]
fn encode_then_decode_returns_the_same_mapping() {
    let table = sample_table();
    let bytes = table.encode();
    let back = QTable::decode(&bytes).expect("a fresh encoding must decode");
    assert_eq!(back.entries, table.entries);
}

#[test]
fn empty_table_round_trips() {
    let table = QTable::new();
    let bytes = table.encode();
    assert_eq!(bytes, vec![0u8; 8]);
    let back = QTable::decode(&bytes).expect("an empty encoding must decode");
    assert!(back.entries.is_empty());
}

#[test]
fn encoded_table_has_fixed_layout() {
    let table = sample_table();
    let bytes = table.encode();
    // 8 bytes of count, then 48 bytes per entry
    assert_eq!(bytes.len(), 8 + 48 * table.entries.len());
    assert_eq!(bytes[0] as usize, table.entries.len());
}

#[test]
fn decode_rejects_truncated_input() {
    assert_eq!(QTable::decode(&vec![1, 2, 3]), Err(DecodeError::TooShort));
    let mut bytes = sample_table().encode();
    bytes.pop();
    assert_eq!(QTable::decode(&bytes), Err(DecodeError::TooShort));
}

#[test]
fn decode_rejects_trailing_bytes() {
    let mut bytes = sample_table().encode();
    for _ in 0..48 {
        bytes.push(0);
    }
    // the count still names the original number of entries
    assert_eq!(QTable::decode(&bytes), Err(DecodeError::Trailing));
}

#[test]
fn decode_rejects_out_of_range_values() {
    let table = sample_table();
    let mut bytes = table.encode();
    // overwrite the first entry's first value with a number past 2 * Q_MAX
    for b in bytes.iter_mut().skip(16).take(8) {
        *b = 0xFF;
    }
    assert_eq!(QTable::decode(&bytes), Err(DecodeError::ValueOutOfRange));
}

#[test]
fn decode_rejects_unsorted_keys() {
    let table = sample_table();
    assert!(table.entries.len() >= 2);
    let mut bytes = table.encode();
    // swap the first two encoded entries, breaking the key order
    let (a, b) = (8, 8 + 48);
    for i in 0..48 {
        bytes.swap(a + i, b + i);
    }
    assert_eq!(QTable::decode(&bytes), Err(DecodeError::KeysOutOfOrder));
}
