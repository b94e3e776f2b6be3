//! Exhaustive exploration of a four-wheel rotary "speed dial" combination
//! lock. The library models the lock's transition rule, enumerates every
//! move sequence up to a bounded length, aggregates which sequences
//! collide on the same resulting lock state, and sorts the results so the
//! least ambiguous combinations come first.

pub mod agg;
pub mod laws;
pub mod lock;
pub mod moves;
pub mod report;
pub mod wheel;
