//! A small multiplayer card-drawing session: each player owns an
//! independent shuffled deck of 22 distinct cards, and every draw,
//! shuffle or join is broadcast to all connected observers.

pub mod comms;
pub mod deck;
pub mod hub;
pub mod session;
