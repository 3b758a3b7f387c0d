use vstd::prelude::*;

verus! {

/// Raised when the screen is asked to draw a game that does not exist.
#[derive(Clone, Copy, PartialEq, Eq, Debug, Structural)]
pub enum RenderError {
    NoGame,
}

/// Why a move was refused. The game is left as it was.
#[derive(Clone, Copy, PartialEq, Eq, Debug, Structural)]
pub enum GameError {
    /// The coordinates lie outside the board.
    InvalidInput,
    /// The move text is not two integers.
    ParseIntErr,
    /// The cell is already shown.
    AlreadyRevealed,
}

/// Why a menu command was refused.
#[derive(PartialEq, Eq, Debug)]
pub enum AppError {
    UnknownCmd(Vec<char>),
    ParseIntErr,
    /// A custom size that is not three numbers.
    InvalidCustom,
    /// A custom size whose mine count does not fit the board.
    InvalidMineCount,
}

} // verus!
