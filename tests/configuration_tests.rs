use calc::{Color, Configuration};

#[test]
fn test_configuration_builder_default() {
    let config = Configuration::builder().build();

    // Should use default starting positions
    assert_eq!(config.map.color_pos_map[Color::Blue as usize], 0);
    assert_eq!(config.map.color_pos_map[Color::Green as usize], 0);
    assert_eq!(config.map.color_pos_map[Color::White as usize], 1);
    assert_eq!(config.map.color_pos_map[Color::Yellow as usize], 1);
    assert_eq!(config.map.color_pos_map[Color::Orange as usize], 2);

    // Should have all colors available
    assert_eq!(config.available_colours.len(), 5);

    assert!(config.dice_queue.is_empty());
}

#[test]
fn test_configuration_builder_with_custom_map() {
    let config = Configuration::builder()
        .with_map(vec![
            (3, Color::Blue),
            (5, Color::Green),
            (7, Color::Orange),
            (9, Color::White),
            (11, Color::Yellow),
        ])
        .build();

    assert_eq!(config.map.color_pos_map[Color::Blue as usize], 3);
    assert_eq!(config.map.color_pos_map[Color::Green as usize], 5);
    assert_eq!(config.map.color_pos_map[Color::Orange as usize], 7);
    assert_eq!(config.map.color_pos_map[Color::White as usize], 9);
    assert_eq!(config.map.color_pos_map[Color::Yellow as usize], 11);
}

#[test]
fn test_configuration_builder_with_available_colors() {
    let config = Configuration::builder()
        .with_available_colors(vec![Color::Blue, Color::Orange])
        .build();

    assert_eq!(config.available_colours.len(), 2);
}

#[test]
fn test_configuration_builder_with_dice_queue() {
    let dice_data = vec![(Color::Blue, 1), (Color::Green, 3), (Color::Orange, 2)];

    let config = Configuration::builder()
        .with_dice_queue(dice_data.clone())
        .build();

    assert_eq!(config.dice_queue.len(), 3);
    assert_eq!(config.dice_queue[0].color, Color::Blue);
    assert_eq!(config.dice_queue[0].value, 1);
    assert_eq!(config.dice_queue[1].color, Color::Green);
    assert_eq!(config.dice_queue[1].value, 3);
    assert_eq!(config.dice_queue[2].color, Color::Orange);
    assert_eq!(config.dice_queue[2].value, 2);
}

#[test]
fn test_configuration_builder_add_dice() {
    let config = Configuration::builder()
        .add_dice(Color::Blue, 1)
        .add_dice(Color::Green, 3)
        .add_dice(Color::Orange, 2)
        .build();

    assert_eq!(config.dice_queue.len(), 3);
    assert_eq!(config.dice_queue[0].color, Color::Blue);
    assert_eq!(config.dice_queue[0].value, 1);
    assert_eq!(config.dice_queue[1].color, Color::Green);
    assert_eq!(config.dice_queue[1].value, 3);
    assert_eq!(config.dice_queue[2].color, Color::Orange);
    assert_eq!(config.dice_queue[2].value, 2);
}

#[test]
fn test_configuration_builder_comprehensive() {
    let config = Configuration::builder()
        .with_map(vec![
            (2, Color::Blue),
            (4, Color::Green),
            (6, Color::Orange),
            (8, Color::White),
            (10, Color::Yellow),
        ])
        .with_available_colors(vec![Color::Blue, Color::Green, Color::Orange])
        .build();

    assert_eq!(config.map.color_pos_map[Color::Blue as usize], 2);
    assert_eq!(config.map.color_pos_map[Color::Green as usize], 4);
    assert_eq!(config.map.color_pos_map[Color::Orange as usize], 6);
    assert_eq!(config.available_colours.len(), 3);

    assert!(config.dice_queue.is_empty());
}

#[test]
fn test_configuration_builder_method_chaining() {
    let builder = Configuration::builder()
        .with_map(vec![(0, Color::Blue)])
        .with_available_colors(vec![Color::Blue]);

    let builder = builder.add_dice(Color::Blue, 1);

    let _config = builder.build();
}

#[test]
fn test_configuration_normalization() {
    let mut config = Configuration::builder()
        .with_map(vec![
            (2, Color::Blue),
            (4, Color::Green),
            (6, Color::Orange),
            (8, Color::White),
            (10, Color::Yellow),
        ])
        .with_available_colors(vec![Color::Blue, Color::Green, Color::Orange])
        .build();

    config.normalize();

    assert_eq!(config.map.find_camel(Color::Blue), 0);
    assert_eq!(config.map.find_camel(Color::Green), 2);
    assert_eq!(config.map.find_camel(Color::Orange), 4);
    assert_eq!(config.map.find_camel(Color::White), 6);
    assert_eq!(config.map.find_camel(Color::Yellow), 8);
}


#[test]
fn normalization_keeps_a_board_that_starts_at_zero() {
    let mut config = Configuration::builder().build();
    config.normalize();
    assert_eq!(config.map.find_camel(Color::Blue), 0);
    assert_eq!(config.map.find_camel(Color::Orange), 2);
    assert_eq!(config.map.pos_color_map[0], Some(vec![Color::Blue, Color::Green]));
}

#[test]
fn normalization_moves_whole_stacks() {
    let mut config = Configuration::builder()
        .with_map(vec![
            (3, Color::Blue),
            (3, Color::Green),
            (5, Color::Orange),
            (5, Color::White),
            (9, Color::Yellow),
        ])
        .build();
    config.normalize();
    assert_eq!(config.map.pos_color_map[0], Some(vec![Color::Blue, Color::Green]));
    assert_eq!(config.map.pos_color_map[2], Some(vec![Color::Orange, Color::White]));
    assert_eq!(config.map.pos_color_map[6], Some(vec![Color::Yellow]));
    assert_eq!(config.map.pos_color_map[3], None);
    assert_eq!(config.map.pos_color_map[9], None);
    assert_eq!(config.map.find_camel(Color::Yellow), 6);
}

#[test]
fn leaderboard_reads_fields_from_the_back_and_stacks_from_the_top() {
    let config = Configuration::builder()
        .with_map(vec![
            (0, Color::Blue),
            (0, Color::Green),
            (1, Color::White),
            (1, Color::Yellow),
            (2, Color::Orange),
        ])
        .build();
    assert_eq!(
        config.leaderboard(),
        [Color::Orange, Color::Yellow, Color::White, Color::Green, Color::Blue]
    );
}

#[test]
fn leaderboard_of_a_partial_board_is_padded() {
    let config = Configuration::builder()
        .with_map(vec![(4, Color::Green), (1, Color::White)])
        .build();
    assert_eq!(
        config.leaderboard(),
        [Color::Green, Color::White, Color::Absent, Color::Absent, Color::Absent]
    );
}

#[test]
fn equality_ignores_the_roll_history() {
    let a = Configuration::builder()
        .with_available_colors(vec![Color::Blue, Color::White])
        .add_dice(Color::Green, 2)
        .build();
    let b = Configuration::builder()
        .with_available_colors(vec![Color::White, Color::Blue])
        .build();
    assert!(a == b);
    assert_eq!(a.cache_key(), b.cache_key());
    let c = Configuration::builder()
        .with_available_colors(vec![Color::White])
        .build();
    assert!(a != c);
}

#[test]
fn normalization_shifts_tiles_with_the_camels() {
    let map = calc::CamelMap::builder()
        .with_positions(vec![(3, Color::Blue), (5, Color::Green)])
        .with_effect_cards(vec![(1, calc::EffectCard::Desert), (6, calc::EffectCard::Oasis)])
        .build()
        .unwrap();
    let mut config = Configuration::builder().with_camel_map(map).build();
    config.normalize();
    assert_eq!(config.map.find_camel(Color::Blue), 0);
    assert_eq!(config.map.find_camel(Color::Green), 2);
    assert_eq!(config.map.pos_color_map[0], Some(vec![Color::Blue]));
    assert_eq!(config.map.effect_cards[3], Some(calc::EffectCard::Oasis));
    assert_eq!(config.map.effect_cards[6], None);
    assert!(config.map.effect_cards.iter().filter(|c| c.is_some()).count() == 1);
}
