//! A terminal minesweeper engine: board generation with a safe first click,
//! adjacency numbers, flood-fill reveal and the win judge.
pub mod app;
pub mod board;
pub mod command;
pub mod count;
pub mod error;
pub mod game;

pub use app::{handle_command, App, Input, Status};
pub use board::{generate_excluding, generate_random, render_color, Color, Config, ConfigError, Item};
pub use command::{parse_command, parse_move, parse_number, split_whitespace, trim_chars, Command};
pub use error::{AppError, GameError, RenderError};
pub use game::{Game, GameView, Layout, Outcome};
