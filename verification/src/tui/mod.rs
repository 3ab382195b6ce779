//! The terminal front end's tab order: five panels cycled with `[` and `]`,
//! every panel always shown; and what a key press does.

use vstd::prelude::*;
use crate::game::Direction;

verus! {

/// Which panel occupies the right side of the terminal screen.
#[derive(Clone, Copy, Debug, PartialEq, Eq, Structural)]
pub enum Panel {
    WorldMap,
    Experiment,
    Craft,
    Disassemble,
    Quests,
}

/// The position of a panel in the cycling order.
pub open spec fn panel_rank(p: Panel) -> int {
    match p {
        Panel::WorldMap => 0,
        Panel::Experiment => 1,
        Panel::Craft => 2,
        Panel::Disassemble => 3,
        Panel::Quests => 4,
    }
}

impl Default for Panel {
    /// The map, shown first.
    fn default() -> (r: Panel)
        ensures
            r == Panel::WorldMap,
    {
        Panel::WorldMap
    }
}

impl Panel {
    /// The panel after this one, wrapping from the last to the first.
    pub fn next(self) -> (r: Panel)
        ensures
            panel_rank(r) == (panel_rank(self) + 1) % 5,
    {
        match self {
            Panel::WorldMap => Panel::Experiment,
            Panel::Experiment => Panel::Craft,
            Panel::Craft => Panel::Disassemble,
            Panel::Disassemble => Panel::Quests,
            Panel::Quests => Panel::WorldMap,
        }
    }

    /// The panel before this one, wrapping from the first to the last.
    pub fn prev(self) -> (r: Panel)
        ensures
            panel_rank(r) == (panel_rank(self) + 4) % 5,
    {
        match self {
            Panel::WorldMap => Panel::Quests,
            Panel::Experiment => Panel::WorldMap,
            Panel::Craft => Panel::Experiment,
            Panel::Disassemble => Panel::Craft,
            Panel::Quests => Panel::Disassemble,
        }
    }
}

/// Each panel has its own place in the cycle.
pub proof fn lemma_panel_rank_injective(a: Panel, b: Panel)
    ensures
        panel_rank(a) == panel_rank(b) ==> a == b,
        0 <= panel_rank(a) < 5,
{
}

/// Stepping forward then back, or back then forward, returns to the panel
/// one started from.
pub proof fn lemma_next_prev_inverse(p: Panel, n: Panel, q: Panel)
    ensures
        panel_rank(n) == (panel_rank(p) + 1) % 5 && panel_rank(q) == (panel_rank(n) + 4) % 5 ==> q == p,
        panel_rank(n) == (panel_rank(p) + 4) % 5 && panel_rank(q) == (panel_rank(n) + 1) % 5 ==> q == p,
{
    lemma_panel_rank_injective(q, p);
}


/// A key press, as far as the front end tells keys apart.
#[derive(Clone, Copy, Debug, PartialEq, Eq, Structural)]
pub enum Key {
    Char(char),
    Left,
    Right,
    Up,
    Down,
    Other,
}

/// What a key press asks of the front end.
#[derive(Clone, Copy, Debug, PartialEq, Eq, Structural)]
pub enum KeyAction {
    /// Leave the game.
    Exit,
    /// Nothing but the shown panel changes, if that.
    Nothing,
    /// Search where the player stands.
    Search,
    /// Hunt where the player stands.
    Hunt,
    /// Walk one step.
    Walk(Direction),
    /// Hand the key to the shown panel's own handling.
    ToPanel(Key),
}

/// What `key` does with `panel` shown: `q` leaves, `[` and `]` show the
/// panel before and after; on the map, `s` searches, `h` hunts and the
/// arrows walk, other keys doing nothing; any other panel handles the key
/// itself.
pub open spec fn key_outcome(panel: Panel, key: Key) -> (Panel, KeyAction) {
    match key {
        Key::Char('q') => (panel, KeyAction::Exit),
        Key::Char('[') => (panel_at((panel_rank(panel) + 4) % 5), KeyAction::Nothing),
        Key::Char(']') => (panel_at((panel_rank(panel) + 1) % 5), KeyAction::Nothing),
        _ => if panel == Panel::WorldMap {
            (panel, match key {
                Key::Char('s') => KeyAction::Search,
                Key::Char('h') => KeyAction::Hunt,
                Key::Left => KeyAction::Walk(Direction::West),
                Key::Right => KeyAction::Walk(Direction::East),
                Key::Up => KeyAction::Walk(Direction::North),
                Key::Down => KeyAction::Walk(Direction::South),
                _ => KeyAction::Nothing,
            })
        } else {
            (panel, KeyAction::ToPanel(key))
        },
    }
}

/// The panel at a position of the cycling order.
pub open spec fn panel_at(rank: int) -> Panel {
    if rank == 0 {
        Panel::WorldMap
    } else if rank == 1 {
        Panel::Experiment
    } else if rank == 2 {
        Panel::Craft
    } else if rank == 3 {
        Panel::Disassemble
    } else {
        Panel::Quests
    }
}

/// Decides what a key press does: the panel to show next and the action
/// to take.
pub fn handle_key(panel: Panel, key: Key) -> (r: (Panel, KeyAction))
    ensures
        r == key_outcome(panel, key),
{
    match key {
        Key::Char('q') => return (panel, KeyAction::Exit),
        Key::Char('[') => return (panel.prev(), KeyAction::Nothing),
        Key::Char(']') => return (panel.next(), KeyAction::Nothing),
        _ => {},
    }
    match panel {
        Panel::WorldMap => {
            let action = match key {
                Key::Char('s') => KeyAction::Search,
                Key::Char('h') => KeyAction::Hunt,
                Key::Left => KeyAction::Walk(Direction::West),
                Key::Right => KeyAction::Walk(Direction::East),
                Key::Up => KeyAction::Walk(Direction::North),
                Key::Down => KeyAction::Walk(Direction::South),
                _ => KeyAction::Nothing,
            };
            (panel, action)
        },
        _ => (panel, KeyAction::ToPanel(key)),
    }
}

} // verus!
