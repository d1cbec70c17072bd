//! Parsers for the argument types that Minecraft adds to Brigadier.

pub mod block;
pub mod coordinate;
pub mod entity;
pub mod nbt;
pub mod range;
