//! Rules engine and undo history for a FreeCell solitaire game.
//!
//! The board is a value: every move takes a board and returns a new one or a
//! typed error. Each operation is specified over [`model::GameModel`], the
//! mathematical view of a board.

pub mod card;
pub mod error;
pub mod model;
pub mod game;
pub mod deal;
pub mod undo;
pub mod laws;
pub mod text;

pub use card::{Card, CardAddress, Colour, Suit};
pub use error::{MoveError, PickUpReason, PlaceReason};
pub use game::{game_from_columns, game_from_state, game_get_state, Game, GameView, StateContainer};
pub use text::decimal_text;
pub use undo::GameUndoStack;
