//! Building blocks of solvers for Markov decision processes: tile coding of
//! state spaces, episodes played through callables, and the rules of the
//! example problems (blackjack, a grid walk, a gambler's bets, car rental).
pub mod tile;
pub mod random;
pub mod blackjack;
pub mod gridworld;
pub mod coin_bet;
pub mod car_rental;
pub mod episode;
