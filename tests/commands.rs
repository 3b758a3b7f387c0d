use minesweeper::{
    handle_command, parse_command, parse_move, parse_number, split_whitespace, trim_chars, App, AppError, Command,
    Config, Game, GameError, Item, Outcome, Status,
};

fn chars(s: &str) -> Vec<char> {
    s.chars().collect()
}

fn app_with(text: &str) -> App {
    let mut app = App::new();
    app.input.content = chars(text);
    app
}

fn layout(rows: usize, cols: usize, mines: &[(usize, usize)]) -> Game {
    let cfg = Config::new(rows, cols, mines.len()).unwrap();
    let mut flags = vec![false; rows * cols];
    for &(r, c) in mines {
        flags[r * cols + c] = true;
    }
    Game::with_mines(cfg, &flags).unwrap()
}

#[test]
fn numbers_parse() {
    assert_eq!(parse_number(&chars("0")), Some(0));
    assert_eq!(parse_number(&chars("42")), Some(42));
    assert_eq!(parse_number(&chars("007")), Some(7));
    assert_eq!(parse_number(&chars("18446744073709551615")), Some(usize::MAX));
    assert_eq!(parse_number(&chars("18446744073709551616")), None);
    assert_eq!(parse_number(&chars("")), None);
    assert_eq!(parse_number(&chars("4a")), None);
    assert_eq!(parse_number(&chars("-1")), None);
}

#[test]
fn words_and_trim() {
    assert_eq!(split_whitespace(&chars("  ab c\t d  ")), vec![chars("ab"), chars("c"), chars("d")]);
    assert!(split_whitespace(&chars("   ")).is_empty());
    assert_eq!(trim_chars(&chars(" \t c: 1 2 \n")), chars("c: 1 2"));
    assert_eq!(trim_chars(&chars("   ")), chars(""));
}

#[test]
fn menu_commands() {
    assert_eq!(parse_command(&chars(" q ")), Ok(Command::Quit));
    assert_eq!(parse_command(&chars("e")), Ok(Command::Easy));
    assert_eq!(parse_command(&chars("n")), Ok(Command::Normal));
    assert_eq!(parse_command(&chars("h")), Ok(Command::Hard));
    assert_eq!(parse_command(&chars("  ")), Ok(Command::Nothing));
    assert_eq!(
        parse_command(&chars("c: 5 6 7")),
        Ok(Command::Custom(Config { row: 5, col: 6, mine: 7 }))
    );
    assert_eq!(parse_command(&chars("c:5 6")), Err(AppError::InvalidCustom));
    assert_eq!(parse_command(&chars("c: 5 x 7")), Err(AppError::ParseIntErr));
    assert_eq!(parse_command(&chars("c: 2 2 4")), Err(AppError::InvalidMineCount));
    assert_eq!(parse_command(&chars("c: 2 2 0")), Err(AppError::InvalidMineCount));
    assert_eq!(parse_command(&chars(" hello ")), Err(AppError::UnknownCmd(chars("hello"))));
}

#[test]
fn moves_parse() {
    assert_eq!(parse_move(&chars("1 1")), Ok((0, 0)));
    assert_eq!(parse_move(&chars(" 3  7 ")), Ok((2, 6)));
    assert_eq!(parse_move(&chars("0 1")), Ok((-1, 0)));
    assert_eq!(parse_move(&chars("1")), Err(GameError::InvalidInput));
    assert_eq!(parse_move(&chars("1 2 3")), Err(GameError::InvalidInput));
    assert_eq!(parse_move(&chars("1 b")), Err(GameError::ParseIntErr));
    assert_eq!(parse_move(&chars("3000000000 1")), Err(GameError::InvalidInput));
}

#[test]
fn quit_from_menu_exits() {
    let mut app = app_with("q");
    assert_eq!(handle_command(&mut app), Ok(()));
    assert!(app.should_exit);
    assert_eq!(app.status, Status::Welcome);
}

#[test]
fn quit_from_game_returns_to_menu() {
    let mut app = app_with("q");
    app.status = Status::Failed;
    assert_eq!(handle_command(&mut app), Ok(()));
    assert!(!app.should_exit);
    assert_eq!(app.status, Status::Welcome);
}

#[test]
fn preset_command_starts_game() {
    let mut app = app_with("h");
    assert_eq!(handle_command(&mut app), Ok(()));
    assert_eq!(app.status, Status::Game);
    let game = app.game.as_ref().unwrap();
    assert_eq!(game.config(), Config::hard());
    assert!(game.is_first());
    assert_eq!(game.world().iter().filter(|it| matches!(it, Item::Mine)).count(), 99);
}

#[test]
fn custom_command_starts_game() {
    let mut app = app_with("c: 4 5 6");
    assert_eq!(handle_command(&mut app), Ok(()));
    assert_eq!(app.game.as_ref().unwrap().config(), Config { row: 4, col: 5, mine: 6 });
}

#[test]
fn refused_command_changes_nothing() {
    let mut app = app_with("zz");
    assert_eq!(handle_command(&mut app), Err(AppError::UnknownCmd(chars("zz"))));
    assert!(app.game.is_none());
    assert_eq!(app.status, Status::Welcome);
    let mut app = app_with("c: 3 3 9");
    assert_eq!(handle_command(&mut app), Err(AppError::InvalidMineCount));
    assert!(app.game.is_none());
}

#[test]
fn enter_plays_one_based_move() {
    let mut game = layout(3, 3, &[(1, 1)]);
    let mut status = Status::Game;
    assert_eq!(game.handle_enter(&chars("1 1"), &mut status), Ok(Outcome::Continue));
    assert!(game.board()[0]);
    assert_eq!(status, Status::Game);
    assert_eq!(game.handle_enter(&chars("1 1"), &mut status), Err(GameError::AlreadyRevealed));
    assert_eq!(game.handle_enter(&chars("4 1"), &mut status), Err(GameError::InvalidInput));
    assert_eq!(game.handle_enter(&chars("x 1"), &mut status), Err(GameError::ParseIntErr));
    assert_eq!(game.handle_enter(&chars("2 2"), &mut status), Ok(Outcome::Lost));
    assert_eq!(status, Status::Failed);
}

#[test]
fn enter_reports_win() {
    let mut game = layout(2, 2, &[(0, 0)]);
    let mut status = Status::Game;
    assert_eq!(game.handle_enter(&chars("1 2"), &mut status), Ok(Outcome::Continue));
    assert_eq!(game.handle_enter(&chars("2 1"), &mut status), Ok(Outcome::Continue));
    assert_eq!(game.handle_enter(&chars("2 2"), &mut status), Ok(Outcome::Won));
    assert_eq!(status, Status::Success);
}
