//! What the engine asks of the programs around it, and what it makes of
//! their answers.

pub mod cargo;
pub mod kill;
pub mod ps;
pub mod pueue;
