//! The data that the systems work on, one module per component.

pub mod enemy;
pub mod energy_bar;
pub mod game_state;
pub mod highlight_tile;
pub mod input;
pub mod player;
pub mod sprite;
pub mod tile_data;

pub use self::enemy::Enemy;
pub use self::energy_bar::EnergyBar;
pub use self::game_state::GameState;
pub use self::highlight_tile::HighlightTile;
pub use self::input::Input;
pub use self::player::{Player, PlayerActionState};
pub use self::sprite::Sprite;
pub use self::tile_data::TileData;
