use go_board::{BoardSize, GoBoardConfig, GoBoardConfigBuilder, GoBoardPlugin, GoBoardPluginBuilder};

#[test]
fn board_size_values() {
    assert_eq!(BoardSize::Nine.get_value(), 9);
    assert_eq!(BoardSize::Thirteen.get_value(), 13);
    assert_eq!(BoardSize::Nineteen.get_value(), 19);
}

#[test]
fn star_points_per_size() {
    assert_eq!(BoardSize::Nine.get_star_points(), vec![(2, 2), (2, 6), (4, 4), (6, 2), (6, 6)]);
    assert_eq!(BoardSize::Thirteen.get_star_points(), vec![(3, 3), (3, 9), (6, 6), (9, 3), (9, 9)]);
    let nineteen = BoardSize::Nineteen.get_star_points();
    assert_eq!(nineteen.len(), 9);
    assert_eq!(nineteen[0], (3, 3));
    assert_eq!(nineteen[4], (9, 9));
    assert_eq!(nineteen[8], (15, 15));
}

#[test]
fn default_config_values() {
    let c = GoBoardConfig::default();
    assert_eq!(c.board_size, BoardSize::Nineteen);
    assert!(c.show_coordinates);
    assert!(!c.show_move_numbers);
    assert!(!c.use_3d_stones);
    assert!(c.adaptive_padding);
    assert!(c.enable_hover_indicator);
    assert!(!c.enable_sound);
    assert!(c.enable_captures);
    assert!(c.enable_ko_rule);
}

#[test]
fn config_builder_sets_each_field() {
    let c = GoBoardConfigBuilder::new()
        .board_size(BoardSize::Nine)
        .show_coordinates(false)
        .show_move_numbers(true)
        .enable_captures(false)
        .enable_ko_rule(false)
        .build();
    let expected = GoBoardConfig {
        board_size: BoardSize::Nine,
        show_coordinates: false,
        show_move_numbers: true,
        enable_captures: false,
        enable_ko_rule: false,
        ..GoBoardConfig::default()
    };
    assert_eq!(c, expected);
}

#[test]
fn plugin_builder_sets_each_field() {
    let p = GoBoardPluginBuilder::new()
        .with_board_size(BoardSize::Thirteen)
        .with_coordinates(false)
        .with_move_numbers(true)
        .with_captures(false)
        .with_ko_rule(false)
        .build();
    assert_eq!(p.initial_config.board_size, BoardSize::Thirteen);
    assert!(!p.initial_config.show_coordinates);
    assert!(p.initial_config.show_move_numbers);
    assert!(!p.initial_config.enable_captures);
    assert!(!p.initial_config.enable_ko_rule);
    assert!(p.initial_config.adaptive_padding);
    assert_eq!(GoBoardPlugin::default().initial_config, GoBoardConfig::default());
}
