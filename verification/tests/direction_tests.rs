use mazegen::GridDirection;
use std::str::FromStr;

#[test]
fn test_direction_names() {
    assert_eq!(GridDirection::North.name(), "north");
    assert_eq!(GridDirection::South.name(), "south");
    assert_eq!(GridDirection::East.name(), "east");
    assert_eq!(GridDirection::West.name(), "west");
    assert_eq!(GridDirection::West.to_string(), String::from("west"));
}

#[test]
fn test_direction_from_str() {
    assert_eq!(GridDirection::from_str("north"), Ok(GridDirection::North));
    assert_eq!(GridDirection::from_str("south"), Ok(GridDirection::South));
    assert_eq!(GridDirection::from_str("east"), Ok(GridDirection::East));
    assert_eq!(GridDirection::from_str("west"), Ok(GridDirection::West));
    assert_eq!(GridDirection::from_name("east"), Ok(GridDirection::East));
}

#[test]
fn test_direction_from_str_error() {
    assert_eq!(
        GridDirection::from_str("up"),
        Err(String::from("expected direction, got \"up\""))
    );
    assert_eq!(
        GridDirection::from_str("North"),
        Err(String::from("expected direction, got \"North\""))
    );
    assert_eq!(
        GridDirection::from_str(""),
        Err(String::from("expected direction, got \"\""))
    );
    assert_eq!(
        GridDirection::from_str("norte"),
        Err(String::from("expected direction, got \"norte\""))
    );
}

#[test]
fn test_direction_roundtrip() {
    for dir in vec![
        GridDirection::North,
        GridDirection::South,
        GridDirection::East,
        GridDirection::West,
    ] {
        assert_eq!(GridDirection::from_name(dir.name()), Ok(dir));
    }
}
