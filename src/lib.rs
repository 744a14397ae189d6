//! Exact finish-order probabilities for a dice-driven camel race.
//!
//! The library models the race board (stacks of camels on a sixteen-field
//! track with optional oasis and desert tiles), the set of camels whose die is
//! still in the pyramid, and an exhaustive, memoized enumeration of every way
//! the remaining dice of a round can come out.
pub mod color;
pub mod color_state;
pub mod camel_map;
pub mod configuration;
pub mod simulation;
pub mod game_view;

pub use color::Color;
pub use color_state::ColorState;
pub use camel_map::{CamelMap, CamelMapBuilder, EffectCard, MapError};
pub use configuration::{Configuration, ConfigurationBuilder, Dice};
pub use simulation::{
    aggragate_placements, simulate_rounds, try_simulate_rounds, CacheStatistics, Placement,
    SimulationResult, ALL_GAME_STATES_COUNT,
};
pub use game_view::{
    CamelColor, CamelField, CamelState, CamelStateField, GameField, GameState, MoveError, State,
};
