//! Typing-combat simulation: falling letters, a word tray and a boss encounter.
//!
//! Units throughout: time in microseconds and positions in micro-pixels on a
//! screen centred at the origin. Falling letters and bullets move in pixels
//! per second (which is micro-pixels per microsecond), the boss in
//! micro-pixels per second, and the boss's swarm in micro-pixels per tick.

pub mod boss;
pub mod chance;
pub mod dictionary;
pub mod enemy;
pub mod game;
pub mod motion;
pub mod spawner;
pub mod tray;
