use calc::{Color, ColorState};

#[test]
fn color_state_tests_color_state_assign() {
    let mut test_state = ColorState::default();
    test_state.assign_to_index(0, false);
    test_state.assign_to_index(2, false);
    test_state.assign_to_index(3, false);
    test_state.assign_to_index(4, false);
    assert_eq!(test_state.len(), 1);
    assert_eq!(test_state.state, 0b0100_0000);
    test_state.assign_to_index(3, true);
    test_state.assign_to_index(4, true);
    assert_eq!(test_state.len(), 3);
    assert_eq!(test_state.state, 0b0101_1000);
}

#[test]
fn color_state_tests_color_state_iter() {
    let mut test_state = ColorState::default();
    assert_eq!(test_state.next(), Some(Color::Blue.as_byte()));
    assert_eq!(test_state.next(), Some(Color::Green.as_byte()));
    assert_eq!(test_state.next(), Some(Color::Orange.as_byte()));
    assert_eq!(test_state.next(), Some(Color::White.as_byte()));
    assert_eq!(test_state.next(), Some(Color::Yellow.as_byte()));
    assert_eq!(test_state.next(), None);
}

#[test]
fn main_color_state_assign() {
    let mut test_state = ColorState::default();
    test_state.assign_to_index(0, false);
    test_state.assign_to_index(2, false);
    test_state.assign_to_index(3, false);
    test_state.assign_to_index(4, false);
    assert_eq!(test_state.len(), 1);
    assert_eq!(test_state.state, 0b0100_0000);
    test_state.assign_to_index(3, true);
    test_state.assign_to_index(4, true);
    assert_eq!(test_state.len(), 3);
    assert_eq!(test_state.state, 0b0101_1000);
}

#[test]
fn main_color_state_iter() {
    let mut test_state = ColorState::default();
    assert_eq!(test_state.next(), Some(Color::Blue.as_byte()));
    assert_eq!(test_state.next(), Some(Color::Green.as_byte()));
    assert_eq!(test_state.next(), Some(Color::Orange.as_byte()));
    assert_eq!(test_state.next(), Some(Color::White.as_byte()));
    assert_eq!(test_state.next(), Some(Color::Yellow.as_byte()));
    assert_eq!(test_state.next(), None);
}

#[test]
fn color_state_retain() {
    let mut available_colours = ColorState::new(vec![
        Color::Blue,
        Color::Green,
        Color::Orange,
        Color::White,
        Color::Yellow,
    ]);
    available_colours.retain(|c| {
        let val = c == Color::Blue.as_byte();
        println!("{c}, {}, {val}", Color::Blue.as_byte());
        val
    });
    let first_val = available_colours.next();
    assert!(first_val.is_some());
    assert_eq!(available_colours.next(), None);
}

#[test]
fn full_iteration_empties_the_set() {
    let mut set = ColorState::default();
    let mut seen: Vec<u8> = Vec::new();
    while let Some(mask) = set.next() {
        seen.push(mask);
    }
    assert_eq!(seen, vec![0x80, 0x40, 0x20, 0x10, 0x08]);
    assert_eq!(set.len(), 0);
    assert_eq!(set.next(), None);
}

#[test]
fn iteration_skips_missing_colors_and_keeps_the_source() {
    let source_set = ColorState::new(vec![Color::Yellow, Color::Green, Color::Green]);
    assert_eq!(source_set.len(), 2);
    let mut it = source_set.into_iter();
    assert_eq!(it.next(), Some(Color::Green.as_byte()));
    assert_eq!(it.len(), 1);
    assert_eq!(it.next(), Some(Color::Yellow.as_byte()));
    assert_eq!(it.next(), None);
    assert_eq!(source_set.len(), 2);
}

#[test]
fn equality_ignores_the_cursor() {
    let mut a = ColorState::new(vec![Color::Blue, Color::White]);
    let b = ColorState::new(vec![Color::White]);
    assert!(a != b);
    assert_eq!(a.next(), Some(Color::Blue.as_byte()));
    assert_ne!(a.state, b.state);
    assert!(a == b);
}

#[test]
fn add_and_remove_colors() {
    let mut set = ColorState::new(vec![]);
    assert_eq!(set.len(), 0);
    set.add_color(Color::Orange);
    set.add_color(Color::Orange);
    assert_eq!(set.state, 0b0010_0000);
    set.add_color(Color::Blue);
    assert_eq!(set.len(), 2);
    set.remove_color(Color::Orange);
    assert_eq!(set.state, 0b1000_0000);
    assert_eq!(set.len(), 1);
}

#[test]
fn color_conversions() {
    assert_eq!(Color::Blue.as_byte(), 0b1000_0000);
    assert_eq!(Color::Yellow.as_byte(), 0b0000_1000);
    assert_eq!(Color::Absent.as_byte(), 0b0000_0100);
    assert_eq!(Color::from_byte(0b0001_0000), Color::White);
    assert_eq!(Color::from_byte(0b0000_0011), Color::Absent);
    assert_eq!(Color::from(2usize), Color::Orange);
    assert_eq!(Color::from(7u8), Color::Absent);
    assert_eq!(usize::from(Color::Yellow), 4);
    assert_eq!(u8::from(Color::Green), 1);
    assert_eq!(Color::Absent.index(), 5);
}
