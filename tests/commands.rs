use chombot::commands::{Mode, TileStyle, Tileset};

#[test]
fn tileset_defaults_to_yellow_and_maps_to_style() {
    assert_eq!(Tileset::default(), Tileset::Yellow);
    assert_eq!(TileStyle::from(Tileset::MartinPersson), TileStyle::MartinPersson);
    assert_eq!(TileStyle::from(Tileset::Red), TileStyle::Red);
    assert_eq!(Mode::default(), Mode::Default);
}
