//! A small crafting and exploration game: the rules, the map generator, the
//! save-file shape and the presentation helpers, with their contracts.

pub mod game;
pub mod mapgen;
pub mod viewmodel;
pub mod text;
pub mod seqs;
pub mod save;
pub mod i18n;
pub mod tui;
