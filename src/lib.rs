pub mod game_constants;
pub mod game_universe;
pub mod game_engine;
pub mod game_entropy;
pub mod game_species;
pub mod game_text;
