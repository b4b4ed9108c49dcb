//! A small programming game: workers on a tile grid run a line-based script.

pub mod anim;
pub mod blocks;
pub mod camera;
pub mod conduct;
pub mod editor;
pub mod grid;
pub mod highlight;
pub mod inventory;
pub mod laws;
pub mod layout;
pub mod ledger;
pub mod lexer;
pub mod meaning;
pub mod motion;
pub mod parser;
pub mod path;
pub mod program;
pub mod rules;
pub mod setup;
pub mod sim;
pub mod text;
pub mod tiles;
pub mod walk;
pub mod world;
