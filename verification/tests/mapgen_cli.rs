use the_bug::mapgen::cli::{game_level, parse_scatter, parse_u32_range, save_json, SpecError};
use the_bug::mapgen::Terrain;

#[test]
fn parses_a_scatter_spec() {
    assert_eq!(parse_scatter("Cave=6").unwrap(), (Terrain::Cave, 6));
    assert!(parse_scatter("Cave=1.5").is_err());
}

#[test]
fn scatter_spec_errors_say_what_was_wrong() {
    assert!(matches!(parse_scatter("Cave"), Err(SpecError::MissingSeparator)));
    match parse_scatter("Swamp=3") {
        Err(SpecError::UnknownTerrain(name)) => assert_eq!(name, "Swamp"),
        other => panic!("unexpected {other:?}"),
    }
    match parse_scatter("Ruins= x") {
        Err(SpecError::InvalidCount(value)) => assert_eq!(value, " x"),
        other => panic!("unexpected {other:?}"),
    }
    assert_eq!(parse_scatter(" ruins = +12 ").unwrap(), (Terrain::Ruins, 12));
    assert_eq!(parse_scatter("cave=4294967295").unwrap(), (Terrain::Cave, 4294967295));
    assert!(parse_scatter("cave=4294967296").is_err());
    assert!(parse_scatter("cave=").is_err());
    assert!(parse_scatter("cave=-1").is_err());
}

#[test]
fn counts_read_as_rust_reads_them() {
    let s = "+007";
    assert_eq!(parse_u32_range(s, 0, 4), Some(7));
    assert_eq!(parse_u32_range(s, 0, 1), None);
    assert_eq!(parse_u32_range("12a", 0, 3), None);
    assert_eq!(parse_u32_range("12a", 0, 2), Some(12));
}

#[test]
fn game_level_matches_map_sizes() {
    assert_eq!(game_level(21), Some(0));
    assert_eq!(game_level(23), Some(1));
    assert_eq!(game_level(25), Some(2));
    assert_eq!(game_level(24), None);
    assert_eq!(game_level(19), None);
}

#[test]
fn save_json_has_the_fields_the_loader_needs() {
    let json = save_json(1, &vec!["VMF".to_string(), "MMM".to_string(), "FFF".to_string()]);
    for needle in [
        "\"player\"",
        "\"level\":1",
        "\"coordinates\":[0,0]",
        "\"inventory\":{}",
        "\"recipes\":[]",
        "\"map\":{\"terrain\":[\"VMF\",\"MMM\",\"FFF\"]}",
        "\"events\":[]",
    ] {
        assert!(json.contains(needle), "missing {needle} in {json}");
    }
}

#[test]
fn save_json_is_exactly_the_minimal_save() {
    assert_eq!(
        save_json(12, &vec!["M.".to_string()]),
        "{\"player\":{\"level\":12,\"coordinates\":[0,0],\"inventory\":{},\"recipes\":[]},\"map\":{\"terrain\":[\"M.\"]},\"events\":[]}"
    );
    assert_eq!(
        save_json(0, &vec![]),
        "{\"player\":{\"level\":0,\"coordinates\":[0,0],\"inventory\":{},\"recipes\":[]},\"map\":{\"terrain\":[]},\"events\":[]}"
    );
}

#[test]
fn terrain_names_parse_in_any_case() {
    assert_eq!(Terrain::parse_name("forest"), Some(Terrain::Forest));
    assert_eq!(Terrain::parse_name(" Forest\t"), Some(Terrain::Forest));
    assert_eq!(Terrain::parse_name("DEADLAND"), Some(Terrain::Deadland));
    assert_eq!(Terrain::parse_name("Village"), Some(Terrain::Village));
    assert_eq!(Terrain::parse_name("Swamp"), None);
    assert_eq!(Terrain::parse_name("for est"), None);
}

#[test]
fn every_terrain_name_parses_back() {
    for t in [
        Terrain::Meadow,
        Terrain::Forest,
        Terrain::Cave,
        Terrain::Ruins,
        Terrain::Village,
        Terrain::Deadland,
    ] {
        assert_eq!(Terrain::parse_name(&t.to_string()), Some(t));
    }
}
