use calc::{CamelMap, Color, EffectCard, MapError};

#[test]
fn camel_map_tests_test_move_camel() {
    let mut map = CamelMap::new(vec![
        (0, Color::Blue),
        (0, Color::Green),
        (1, Color::Orange),
    ]);

    map.move_camel(Color::Green, 3);
    assert_eq!(map.find_camel(Color::Green), 3);
    assert_eq!(map.find_camel(Color::Blue), 0);
    assert_eq!(map.find_camel(Color::Orange), 1);
    assert_eq!(map.pos_color_map[3], Some(vec![Color::Green]));
}

#[test]
fn main_test_move_camel() {
    let mut map = CamelMap::new(vec![
        (0, Color::Blue),
        (0, Color::Green),
        (1, Color::Orange),
    ]);

    map.move_camel(Color::Green, 3);
    assert_eq!(map.find_camel(Color::Green), 3);
    assert_eq!(map.find_camel(Color::Blue), 0);
    assert_eq!(map.find_camel(Color::Orange), 1);
    assert_eq!(map.pos_color_map[3], Some(vec![Color::Green]));
}

#[test]
fn single_camel_moves_by_die_value() {
    let mut map = CamelMap::new(vec![(2, Color::White), (5, Color::Blue)]);
    map.move_camel(Color::White, 2);
    assert_eq!(map.find_camel(Color::White), 4);
    assert_eq!(map.pos_color_map[2], None);
    assert_eq!(map.pos_color_map[4], Some(vec![Color::White]));
    assert_eq!(map.pos_color_map[5], Some(vec![Color::Blue]));
}

#[test]
fn moving_middle_camel_carries_the_top_and_leaves_the_bottom() {
    let mut map = CamelMap::new(vec![
        (1, Color::Blue),
        (1, Color::Green),
        (1, Color::Orange),
        (3, Color::White),
    ]);
    map.move_camel(Color::Green, 2);
    assert_eq!(map.pos_color_map[1], Some(vec![Color::Blue]));
    assert_eq!(
        map.pos_color_map[3],
        Some(vec![Color::White, Color::Green, Color::Orange])
    );
    assert_eq!(map.find_camel(Color::Orange), 3);
    assert_eq!(map.find_camel(Color::Green), 3);
    assert_eq!(map.find_camel(Color::Blue), 1);
}

#[test]
fn every_camel_stays_on_the_board_exactly_once() {
    let mut map = CamelMap::new(vec![
        (0, Color::Blue),
        (0, Color::Green),
        (1, Color::White),
        (1, Color::Yellow),
        (2, Color::Orange),
    ]);
    map.move_camel(Color::Blue, 1);
    map.move_camel(Color::Orange, 3);
    map.move_camel(Color::White, 2);
    let mut all: Vec<Color> = Vec::new();
    for field in map.pos_color_map.iter() {
        if let Some(stack) = field {
            assert!(!stack.is_empty());
            all.extend(stack.iter().copied());
        }
    }
    assert_eq!(all.len(), 5);
    for c in Color::all() {
        assert_eq!(all.iter().filter(|x| **x == c).count(), 1);
        let f = map.find_camel(c) as usize;
        assert!(map.pos_color_map[f].as_ref().unwrap().contains(&c));
    }
}

#[test]
fn builder_without_positions_fails() {
    let err = CamelMap::builder()
        .with_effect_cards(vec![(3, EffectCard::Oasis)])
        .build()
        .unwrap_err();
    assert_eq!(err, MapError::MissingPositions);
    let err = CamelMap::builder().with_positions(vec![]).build().unwrap_err();
    assert_eq!(err, MapError::MissingPositions);
}

#[test]
fn builder_rejects_invalid_placements() {
    let off_board = CamelMap::builder().with_positions(vec![(16, Color::Blue)]).build();
    assert_eq!(off_board.unwrap_err(), MapError::InvalidPlacement);
    let twice = CamelMap::builder()
        .with_positions(vec![(0, Color::Blue), (3, Color::Blue)])
        .build();
    assert_eq!(twice.unwrap_err(), MapError::InvalidPlacement);
    let absent = CamelMap::builder().with_positions(vec![(0, Color::Absent)]).build();
    assert_eq!(absent.unwrap_err(), MapError::InvalidPlacement);
}

#[test]
fn builder_rejects_tile_off_the_board() {
    let res = CamelMap::builder()
        .with_positions(vec![(0, Color::Blue)])
        .with_effect_cards(vec![(16, EffectCard::Desert)])
        .build();
    assert_eq!(res.unwrap_err(), MapError::InvalidEffectCard);
}

#[test]
fn later_placement_on_same_field_goes_on_top() {
    let map = CamelMap::builder()
        .with_positions(vec![(4, Color::Yellow), (4, Color::Blue), (4, Color::Green)])
        .build()
        .unwrap();
    assert_eq!(
        map.pos_color_map[4],
        Some(vec![Color::Yellow, Color::Blue, Color::Green])
    );
    assert_eq!(map.find_camel(Color::Blue), 4);
}

#[test]
fn tile_acts_only_once() {
    let mut map = CamelMap::builder()
        .with_positions(vec![(0, Color::Blue)])
        .with_effect_cards(vec![(2, EffectCard::Oasis), (3, EffectCard::Oasis)])
        .build()
        .unwrap();
    map.move_camel(Color::Blue, 2);
    assert_eq!(map.find_camel(Color::Blue), 3);
    assert_eq!(map.pos_color_map[3], Some(vec![Color::Blue]));
}

#[test]
fn equal_boards_compare_equal_and_copies_match() {
    let a = CamelMap::new(vec![(0, Color::Blue), (0, Color::Green), (2, Color::Orange)]);
    let b = a.duplicate();
    assert!(a == b);
    let mut c = a.duplicate();
    c.move_camel(Color::Orange, 1);
    assert!(a != c);
}

#[test]
fn target_and_holds_report_the_board() {
    let map = CamelMap::builder()
        .with_positions(vec![(0, Color::Blue), (14, Color::Green)])
        .with_effect_cards(vec![(2, EffectCard::Desert)])
        .build()
        .unwrap();
    assert!(map.holds(Color::Blue));
    assert!(!map.holds(Color::Yellow));
    assert_eq!(map.target_of(Color::Blue, 2), 1);
    assert_eq!(map.target_of(Color::Green, 3), 17);
}
