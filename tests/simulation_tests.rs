use calc::{
    aggragate_placements, simulate_rounds, try_simulate_rounds, CamelMap, Color, ColorState,
    Configuration, EffectCard, ALL_GAME_STATES_COUNT,
};

fn simple_test_config() -> Configuration {
    Configuration {
        map: CamelMap::new(vec![
            (0, Color::Blue),
            (0, Color::Green),
            (1, Color::Yellow),
            (1, Color::White),
            (2, Color::Orange),
        ]),
        dice_queue: Vec::new(),
        available_colours: ColorState::new(vec![
            Color::Blue,
            Color::Green,
            Color::Orange,
            Color::White,
            Color::Yellow,
        ]),
    }
}

#[test]
fn simulation_tests_test_simulate_round_new() {
    let mut small_config = simple_test_config();
    small_config.available_colours = ColorState::new(vec![Color::Blue]);

    let res = simulate_rounds(small_config);
    assert_eq!(res.placements().len(), 3);

    for placement in res.placements() {
        for &pos in placement {
            assert!(pos <= 4, "Position should be 0-4, got {}", pos);
        }
    }
}

#[test]
fn main_test_simulate_round_new() {
    let mut small_config = simple_test_config();
    small_config.available_colours = ColorState::new(vec![Color::Blue]);

    let res = simulate_rounds(small_config);
    assert_eq!(res.placements().len(), 3);

    for placement in res.placements() {
        for &pos in placement {
            assert!(pos <= 4, "Position should be 0-4, got {}", pos);
        }
    }
}

#[test]
fn end_to_end_single_remaining_die() {
    let mut config = simple_test_config();
    config.available_colours = ColorState::new(vec![Color::Blue]);
    let res = simulate_rounds(config);
    // Blue carries Green along; White sits on Yellow on field 1.
    assert_eq!(
        res.placements().clone(),
        vec![
            [2, 1, 0, 3, 4],
            [1, 0, 2, 3, 4],
            [1, 0, 2, 3, 4],
        ]
    );
    for placement in res.placements() {
        let mut sorted = *placement;
        sorted.sort();
        assert_eq!(sorted, [0, 1, 2, 3, 4]);
    }
}

#[test]
fn two_remaining_dice_give_eighteen_outcomes() {
    let mut config = simple_test_config();
    config.available_colours = ColorState::new(vec![Color::Orange, Color::White]);
    let res = simulate_rounds(config);
    assert_eq!(res.placements().len(), 18);
}

#[test]
fn full_round_gives_every_outcome() {
    let res = simulate_rounds(simple_test_config());
    assert_eq!(res.placements().len(), 29160);
    assert_eq!(res.placements().len() as u32, ALL_GAME_STATES_COUNT);
    assert!(res.stats().cache_hits > 0);
    let matrix = aggragate_placements(res.placements());
    for rank in 0..5 {
        let column: u32 = (0..5).map(|c| matrix[c][rank]).sum();
        assert_eq!(column, 29160);
    }
    for color in 0..5 {
        let row: u32 = matrix[color].iter().sum();
        assert_eq!(row, 29160);
    }
}

#[test]
fn no_die_left_gives_the_current_order() {
    let mut config = simple_test_config();
    config.available_colours = ColorState::new(vec![]);
    let res = simulate_rounds(config);
    assert_eq!(res.placements().clone(), vec![[2, 3, 4, 1, 0]]);
}

#[test]
fn aggregation_counts_each_color_at_each_rank() {
    let records = vec![[0, 1, 2, 3, 4], [0, 2, 1, 3, 4], [4, 3, 2, 1, 0]];
    let m = aggragate_placements(&records);
    assert_eq!(m[0][0], 2);
    assert_eq!(m[4][0], 1);
    assert_eq!(m[2][2], 2);
    assert_eq!(m[1][1], 1);
    assert_eq!(m[1][2], 1);
    assert_eq!(m[1][3], 1);
    for rank in 0..5 {
        let column: u32 = (0..5).map(|c| m[c][rank]).sum();
        assert_eq!(column, 3);
    }
}

#[test]
fn round_near_the_end_of_the_track_is_refused() {
    let config = Configuration::builder()
        .with_map(vec![
            (10, Color::Blue),
            (11, Color::Green),
            (12, Color::Orange),
            (13, Color::White),
            (14, Color::Yellow),
        ])
        .with_available_colors(vec![Color::Yellow])
        .build();
    assert!(try_simulate_rounds(config).is_none());
}

#[test]
fn tiles_take_part_in_the_search() {
    let map = CamelMap::builder()
        .with_positions(vec![
            (0, Color::Blue),
            (5, Color::Green),
            (6, Color::Orange),
            (7, Color::White),
            (8, Color::Yellow),
        ])
        .with_effect_cards(vec![(3, EffectCard::Oasis)])
        .build()
        .unwrap();
    let config = Configuration::builder()
        .with_camel_map(map)
        .with_available_colors(vec![Color::Blue])
        .build();
    let res = try_simulate_rounds(config).unwrap();
    // Faces 1, 2, 3 take Blue to fields 1, 2 and (through the oasis) 4.
    assert_eq!(res.placements().len(), 3);
    for placement in res.placements() {
        assert_eq!(placement[4], 0);
    }
}
