//! The logic of the debug adapter: the names it reads back from the game and the framing of its
//! protocol messages.

pub mod codec;
pub mod minecraft;
pub mod stack_trace;
pub mod stepping;
pub mod utils;
