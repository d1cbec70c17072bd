//! Parsing and code-generation logic of a debugger for Minecraft `*.mcfunction` files.

pub mod adapter;
pub mod entries;
pub mod generator;
pub mod parser;
pub mod sorted;
pub mod template_engine;
pub mod text;
pub mod utils;
