//! Presentation-agnostic helpers: what the front end shows, computed from
//! the game.

pub mod panel;
pub mod selection;
pub mod inventory;
pub mod items;
pub mod crafting;
pub mod disassembly;
pub mod events;
pub mod map;
pub mod quests;
