use the_bug::game::Direction;
use the_bug::tui::{handle_key, Key, KeyAction, Panel};

const ALL: [Panel; 5] = [
    Panel::WorldMap,
    Panel::Experiment,
    Panel::Craft,
    Panel::Disassemble,
    Panel::Quests,
];

#[test]
fn app_next_cycles_through_every_panel_in_order_and_wraps() {
    assert_eq!(Panel::WorldMap.next(), Panel::Experiment);
    assert_eq!(Panel::Experiment.next(), Panel::Craft);
    assert_eq!(Panel::Craft.next(), Panel::Disassemble);
    assert_eq!(Panel::Disassemble.next(), Panel::Quests);
    assert_eq!(Panel::Quests.next(), Panel::WorldMap);
}

#[test]
fn app_prev_cycles_through_every_panel_in_reverse_and_wraps() {
    assert_eq!(Panel::WorldMap.prev(), Panel::Quests);
    assert_eq!(Panel::Quests.prev(), Panel::Disassemble);
    assert_eq!(Panel::Disassemble.prev(), Panel::Craft);
    assert_eq!(Panel::Craft.prev(), Panel::Experiment);
    assert_eq!(Panel::Experiment.prev(), Panel::WorldMap);
}

#[test]
fn app_next_and_prev_are_inverses_for_every_panel() {
    for panel in ALL {
        assert_eq!(panel.next().prev(), panel);
        assert_eq!(panel.prev().next(), panel);
    }
}

#[test]
fn the_terminal_opens_on_the_map() {
    assert_eq!(Panel::default(), Panel::WorldMap);
}

#[test]
fn keys_on_the_map_move_search_hunt_and_leave() {
    assert_eq!(handle_key(Panel::WorldMap, Key::Char('q')), (Panel::WorldMap, KeyAction::Exit));
    assert_eq!(handle_key(Panel::WorldMap, Key::Char('s')), (Panel::WorldMap, KeyAction::Search));
    assert_eq!(handle_key(Panel::WorldMap, Key::Char('h')), (Panel::WorldMap, KeyAction::Hunt));
    assert_eq!(handle_key(Panel::WorldMap, Key::Up), (Panel::WorldMap, KeyAction::Walk(Direction::North)));
    assert_eq!(handle_key(Panel::WorldMap, Key::Left), (Panel::WorldMap, KeyAction::Walk(Direction::West)));
    assert_eq!(handle_key(Panel::WorldMap, Key::Char('x')), (Panel::WorldMap, KeyAction::Nothing));
}

#[test]
fn brackets_cycle_panels_and_other_panels_get_their_keys() {
    assert_eq!(handle_key(Panel::WorldMap, Key::Char(']')), (Panel::Experiment, KeyAction::Nothing));
    assert_eq!(handle_key(Panel::WorldMap, Key::Char('[')), (Panel::Quests, KeyAction::Nothing));
    assert_eq!(handle_key(Panel::Craft, Key::Up), (Panel::Craft, KeyAction::ToPanel(Key::Up)));
    assert_eq!(handle_key(Panel::Quests, Key::Char('q')), (Panel::Quests, KeyAction::Exit));
}
