use calc::{CamelColor, CamelStateField, Color, GameField, GameState, MoveError, State};

fn start() -> GameState {
    GameState::init(&vec![
        (0, CamelColor::Blue),
        (0, CamelColor::Green),
        (1, CamelColor::White),
        (1, CamelColor::Yellow),
        (2, CamelColor::Orange),
    ])
}

#[test]
fn init_stacks_camels_and_records_start_fields() {
    let state = start();
    assert_eq!(state.fields[0].camels, vec![CamelColor::Blue, CamelColor::Green]);
    assert_eq!(state.fields[1].camels, vec![CamelColor::White, CamelColor::Yellow]);
    assert!(state.fields[0].selected);
    assert!(state.camel_round_info[0].selected);
    assert_eq!(state.camel_round_info[CamelColor::Orange.index()].start_pos, 2);
    assert_eq!(state.camel_round_info[CamelColor::White.index()].start_pos, 1);
}

#[test]
fn move_carries_the_camels_on_top() {
    let mut state = start();
    assert_eq!(state.move_camel(CamelColor::White, 3), Ok(()));
    assert_eq!(state.fields[1].camels, Vec::<CamelColor>::new());
    assert_eq!(state.fields[3].camels, vec![CamelColor::White, CamelColor::Yellow]);
    assert!(state.camel_round_info[CamelColor::White.index()].has_moved);
    assert!(!state.camel_round_info[CamelColor::Yellow.index()].has_moved);
    assert_eq!(state.camel_round_info[CamelColor::Yellow.index()].pos_round_add, 2);
    assert_eq!(state.camel_round_info[CamelColor::White.index()].pos_round_add, 2);
}

#[test]
fn refused_moves() {
    let mut state = start();
    assert_eq!(state.move_camel(CamelColor::Blue, 16), Err(MoveError::InvalidMove));
    assert_eq!(state.move_camel(CamelColor::Blue, 4), Err(MoveError::InvalidMove));
    assert_eq!(state.move_camel(CamelColor::Orange, 1), Err(MoveError::InvalidMove));
    assert_eq!(state.move_camel(CamelColor::Orange, 2), Err(MoveError::InvalidMove));
    assert_eq!(state.move_camel(CamelColor::Blue, 1), Ok(()));
    assert_eq!(state.move_camel(CamelColor::Blue, 2), Err(MoveError::InvalidMove));
    let mut empty = GameState::init(&vec![(0, CamelColor::Blue)]);
    assert_eq!(empty.move_camel(CamelColor::Green, 1), Err(MoveError::InvalidConfiguration));
}

#[test]
fn field_selection_wraps_and_previews_the_gain() {
    let mut state = start();
    state.move_selected_field_rel(-1);
    assert_eq!(state.selected_field, 15);
    assert!(state.fields[15].selected);
    assert!(!state.fields[0].selected);
    // Blue is selected and carries Green.
    assert_eq!(state.camel_round_info[CamelColor::Blue.index()].pos_round_add, -1);
    assert_eq!(state.camel_round_info[CamelColor::Green.index()].pos_round_add, -1);
    assert_eq!(state.camel_round_info[CamelColor::White.index()].pos_round_add, 0);
    state.move_selected_field_rel(1);
    assert_eq!(state.selected_field, 0);
    assert_eq!(state.camel_round_info[CamelColor::Blue.index()].pos_round_add, 0);
}

#[test]
fn color_selection_wraps_and_resets_previews() {
    let mut state = start();
    state.move_selected_field_rel(2);
    state.move_selected_color(3);
    assert_eq!(state.selected_color, 3);
    assert!(state.camel_round_info[3].selected);
    assert!(!state.camel_round_info[0].selected);
    assert_eq!(state.camel_round_info[0].pos_round_add, 0);
    state.move_selected_color_rel(2);
    assert_eq!(state.selected_color, 0);
    state.move_selected_color_rel(-1);
    assert_eq!(state.selected_color, 4);
    assert!(state.camel_round_info[4].selected);
    assert!(!state.camel_round_info[0].selected);
    state.add_dice_rolled();
    assert_eq!(state.rolled_dice, 1);
}

#[test]
fn converting_keeps_stacks_and_unmoved_camels() {
    let mut state = start();
    state.move_camel(CamelColor::Yellow, 2).unwrap();
    let config = GameState::convert_game_state_configuration(&state);
    assert_eq!(config.map.pos_color_map[0], Some(vec![Color::Blue, Color::Green]));
    assert_eq!(config.map.pos_color_map[1], Some(vec![Color::White]));
    assert_eq!(config.map.pos_color_map[2], Some(vec![Color::Orange, Color::Yellow]));
    assert_eq!(config.map.find_camel(Color::Yellow), 2);
    assert_eq!(config.available_colours.len(), 4);
    assert_eq!(config.available_colours.state & Color::Yellow.as_byte(), 0);
}

#[test]
fn hot_keys_and_orders() {
    assert_eq!(CamelColor::from_char_to_usize('b'), 0);
    assert_eq!(CamelColor::from_char_to_usize('y'), 2);
    assert_eq!(CamelColor::from_char_to_usize('w'), 4);
    assert_eq!(CamelColor::all()[3], CamelColor::Orange);
    assert_eq!(CamelColor::from_index(2), CamelColor::Yellow);
    assert_eq!(CamelColor::Yellow.race_color(), Color::Yellow);
}

#[test]
fn board_panel_focus_and_selection() {
    let mut field = GameField::new();
    assert_eq!(field.selected, State::Unfocused(0));
    field.change_selection_rel(3);
    assert_eq!(field.selected, State::Unfocused(0));
    field.focus();
    assert!(field.fields[0].selected);
    field.change_selection_rel(-1);
    assert_eq!(field.selected, State::Focused(15));
    assert!(field.fields[15].selected);
    assert!(!field.fields[0].selected);
    field.change_selection(7);
    assert_eq!(field.selected, State::Focused(7));
    field.unfocus();
    assert_eq!(field.selected, State::Unfocused(7));
    assert!(!field.fields[7].selected);
}

#[test]
fn camel_panel_starts_on_the_first_camel() {
    let panel = CamelStateField::new();
    assert_eq!(panel.selected, State::Focused(0));
    assert!(panel.camels[0].selected);
    assert!(!panel.camels[1].selected);
    assert_eq!(panel.camels[4].camel_color, CamelColor::White);
}
