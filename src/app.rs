use vstd::prelude::*;

use crate::board::Config;
use crate::command::{command_of, parse_command, trim, Command};
use crate::error::AppError;
use crate::game::Game;

verus! {

/// Which screen the shell shows.
#[derive(Clone, Copy, PartialEq, Eq, Debug, Structural)]
pub enum Status {
    Welcome,
    Game,
    Success,
    Failed,
}

/// The text typed so far, and the message of the last refused command.
pub struct Input {
    pub content: Vec<char>,
    pub error_msg: String,
}

impl Input {
    pub fn new() -> (r: Input)
        ensures
            r.content@.len() == 0,
            r.error_msg@.len() == 0,
    {
        Input { content: Vec::new(), error_msg: String::new() }
    }

    /// Drops the typed text; the message stays.
    pub fn clear(&mut self)
        ensures
            final(self).content@.len() == 0,
            final(self).error_msg == old(self).error_msg,
    {
        self.content = Vec::new();
    }
}

/// What the shell holds between key presses.
pub struct App {
    pub game: Option<Game>,
    pub should_exit: bool,
    pub status: Status,
    pub input: Input,
}

impl App {
    /// The welcome screen, with no game and nothing typed.
    pub fn new() -> (r: App)
        ensures
            r.game is None,
            !r.should_exit,
            r.status == Status::Welcome,
            r.input.content@.len() == 0,
            r.input.error_msg@.len() == 0,
    {
        App { game: None, should_exit: false, status: Status::Welcome, input: Input::new() }
    }
}

/// The configuration that a command starts a game on.
pub open spec fn command_config(c: Command) -> Option<Config> {
    match c {
        Command::Easy => Some(Config { row: 8, col: 8, mine: 10 }),
        Command::Normal => Some(Config { row: 16, col: 16, mine: 40 }),
        Command::Hard => Some(Config { row: 16, col: 30, mine: 99 }),
        Command::Custom(cfg) => Some(cfg),
        _ => None,
    }
}

/// Runs the menu command typed in `app.input`: `q` leaves the game, or the
/// program from the menu; `e`, `n`, `h` and `c: rows cols mines` start a new
/// game on a placeholder board. A refused command leaves `app` as it was.
pub fn handle_command(app: &mut App) -> (r: Result<(), AppError>)
    ensures
        command_of(old(app).input.content@) matches Some(Err(e)) ==> r == Err::<(), AppError>(e),
        command_of(old(app).input.content@) is None ==> (r matches Err(AppError::UnknownCmd(t)) && t@ == trim(
            old(app).input.content@,
        )),
        r is Err ==> *final(app) == *old(app),
        command_of(old(app).input.content@) matches Some(Ok(c)) ==> {
            &&& r is Ok
            &&& c == Command::Quit ==> if old(app).status == Status::Welcome {
                *final(app) == (App { should_exit: true, ..*old(app) })
            } else {
                *final(app) == (App { status: Status::Welcome, ..*old(app) })
            }
            &&& c == Command::Nothing ==> *final(app) == *old(app)
            &&& command_config(c) matches Some(cfg) ==> {
                &&& final(app).status == Status::Game
                &&& final(app).should_exit == old(app).should_exit
                &&& final(app).input == old(app).input
                &&& final(app).game matches Some(g) && g@.wf() && g@.config == cfg && g@.first && !g@.detonated
                    && cfg.generated(g@.world)
            }
        },
{
    let cmd = parse_command(&app.input.content);
    let cfg = match cmd {
        Err(e) => {
            return Err(e);
        },
        Ok(Command::Quit) => {
            match app.status {
                Status::Welcome => {
                    app.should_exit = true;
                },
                _ => {
                    app.status = Status::Welcome;
                },
            }
            return Ok(());
        },
        Ok(Command::Nothing) => {
            return Ok(());
        },
        Ok(Command::Easy) => Config::easy(),
        Ok(Command::Normal) => Config::normal(),
        Ok(Command::Hard) => Config::hard(),
        Ok(Command::Custom(cfg)) => cfg,
    };
    let mut g = Game::new(cfg);
    g.generate();
    app.game = Some(g);
    app.status = Status::Game;
    Ok(())
}

} // verus!
