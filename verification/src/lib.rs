//! A verified tabular Q-learning agent for a small terminal Pacman game.
//!
//! The board is a walled rectangle of food cells the player and a band of
//! randomly wandering ghosts move on. The agent sees the 5 by 5
//! neighbourhood around the player (centre excluded) as its state, keeps a
//! table of per-action values for each state it has seen, picks actions
//! epsilon-greedily and learns with the Bellman update rule. Rates, rewards
//! and stored values are fixed-point fractions of `fixed::SCALE`; the table
//! round-trips through the byte codec in `codec`.

pub mod agent;
pub mod board;
pub mod codec;
pub mod fixed;
pub mod game;
pub mod qstate;
pub mod rng;
