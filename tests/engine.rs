use minesweeper::{
    generate_excluding, generate_random, render_color, App, Color, Config, ConfigError, Game, GameError, Input,
    Item, Outcome, Status,
};

fn mines_in(world: &[Item]) -> usize {
    world.iter().filter(|it| matches!(it, Item::Mine)).count()
}

fn shown(game: &Game) -> usize {
    game.board().iter().filter(|b| **b).count()
}

fn neighbour_mines(world: &[Item], rows: usize, cols: usize, r: usize, c: usize) -> u8 {
    let mut n = 0;
    for dr in -1i64..=1 {
        for dc in -1i64..=1 {
            if dr == 0 && dc == 0 {
                continue;
            }
            let rr = r as i64 + dr;
            let cc = c as i64 + dc;
            if rr >= 0 && cc >= 0 && (rr as usize) < rows && (cc as usize) < cols {
                if matches!(world[rr as usize * cols + cc as usize], Item::Mine) {
                    n += 1;
                }
            }
        }
    }
    n
}

fn assert_numbered(world: &[Item], rows: usize, cols: usize) {
    for r in 0..rows {
        for c in 0..cols {
            match world[r * cols + c] {
                Item::Mine => {}
                Item::Number(n) => assert_eq!(n, neighbour_mines(world, rows, cols, r, c)),
                Item::Space => panic!("unclassified cell"),
            }
        }
    }
}

fn layout(rows: usize, cols: usize, mines: &[(usize, usize)]) -> Game {
    let cfg = Config::new(rows, cols, mines.len()).unwrap();
    let mut flags = vec![false; rows * cols];
    for &(r, c) in mines {
        flags[r * cols + c] = true;
    }
    Game::with_mines(cfg, &flags).unwrap()
}

#[test]
fn config_rejects_zero_mines() {
    assert_eq!(Config::new(3, 3, 0), Err(ConfigError::InvalidMineCount));
}

#[test]
fn config_rejects_full_board() {
    assert_eq!(Config::new(3, 3, 9), Err(ConfigError::InvalidMineCount));
    assert_eq!(Config::new(3, 3, 10), Err(ConfigError::InvalidMineCount));
    assert_eq!(Config::new(0, 3, 1), Err(ConfigError::InvalidMineCount));
}

#[test]
fn config_rejects_overflowing_size() {
    assert_eq!(Config::new(usize::MAX, 2, 1), Err(ConfigError::InvalidMineCount));
}

#[test]
fn config_accepts_valid() {
    assert_eq!(Config::new(3, 4, 11), Ok(Config { row: 3, col: 4, mine: 11 }));
}

#[test]
fn presets() {
    assert_eq!(Config::easy(), Config { row: 8, col: 8, mine: 10 });
    assert_eq!(Config::normal(), Config { row: 16, col: 16, mine: 40 });
    assert_eq!(Config::hard(), Config { row: 16, col: 30, mine: 99 });
}

#[test]
fn random_board_has_exact_mines_and_numbers() {
    for cfg in [Config::easy(), Config::normal(), Config::hard(), Config::new(2, 2, 3).unwrap()] {
        for _ in 0..20 {
            let world = generate_random(cfg);
            assert_eq!(world.len(), cfg.row * cfg.col);
            assert_eq!(mines_in(&world), cfg.mine);
            assert_numbered(&world, cfg.row, cfg.col);
        }
    }
}

#[test]
fn excluding_board_keeps_safe_cell() {
    let cfg = Config::new(2, 2, 3).unwrap();
    for (r, c) in [(0, 0), (0, 1), (1, 0), (1, 1)] {
        for _ in 0..20 {
            let world = generate_excluding(cfg, r, c);
            assert_eq!(mines_in(&world), 3);
            assert_eq!(world[r * 2 + c], Item::Number(3));
        }
    }
    let cfg = Config::hard();
    for _ in 0..20 {
        let world = generate_excluding(cfg, 5, 7);
        assert_eq!(mines_in(&world), 99);
        assert!(matches!(world[5 * 30 + 7], Item::Number(_)));
        assert_numbered(&world, 16, 30);
    }
}

#[test]
fn scenario_mine_in_centre() {
    let mut game = layout(3, 3, &[(1, 1)]);
    assert_eq!(game.world()[0], Item::Number(1));
    assert_eq!(game.handle_move(0, 0), Ok(Outcome::Continue));
    assert_eq!(shown(&game), 1);
    assert!(game.board()[0]);
}

#[test]
fn first_move_is_safe() {
    for _ in 0..30 {
        let mut game = Game::new(Config::new(3, 3, 8).unwrap());
        game.generate();
        assert!(game.is_first());
        assert_eq!(game.handle_move(1, 1), Ok(Outcome::Won));
        assert!(!game.is_first());
        assert_eq!(game.world()[4], Item::Number(8));
        assert!(game.detonated());
    }
}

#[test]
fn scenario_two_by_two_win() {
    for _ in 0..20 {
        let mut game = Game::new(Config::new(2, 2, 1).unwrap());
        game.generate();
        assert_eq!(game.handle_move(0, 0), Ok(Outcome::Continue));
        let safe: Vec<usize> = (1..4).filter(|&i| !matches!(game.world()[i], Item::Mine)).collect();
        assert_eq!(safe.len(), 2);
        for (n, &i) in safe.iter().enumerate() {
            assert_eq!(game.world()[i], Item::Number(1));
            let r = game.handle_move((i / 2) as i32, (i % 2) as i32);
            if n + 1 < safe.len() {
                assert_eq!(r, Ok(Outcome::Continue));
            } else {
                assert_eq!(r, Ok(Outcome::Won));
            }
        }
        assert!(game.judge());
    }
}

#[test]
fn scenario_out_of_bounds() {
    let mut game = layout(3, 4, &[(2, 3)]);
    let before = game.board().clone();
    assert_eq!(game.handle_move(3, 0), Err(GameError::InvalidInput));
    assert_eq!(game.handle_move(0, 4), Err(GameError::InvalidInput));
    assert_eq!(game.handle_move(-1, 0), Err(GameError::InvalidInput));
    assert_eq!(game.board(), &before);
    let mut fresh = Game::new(Config::new(3, 3, 1).unwrap());
    assert_eq!(fresh.handle_move(3, 0), Err(GameError::InvalidInput));
    assert!(fresh.is_first());
}

#[test]
fn scenario_repeat_move() {
    let mut game = layout(3, 3, &[(1, 1)]);
    assert_eq!(game.handle_move(0, 1), Ok(Outcome::Continue));
    let before = game.board().clone();
    assert_eq!(game.handle_move(0, 1), Err(GameError::AlreadyRevealed));
    assert_eq!(game.board(), &before);
}

#[test]
fn stepping_on_mine_loses() {
    let mut game = layout(3, 3, &[(1, 1)]);
    assert_eq!(game.handle_move(1, 1), Ok(Outcome::Lost));
    assert!(game.detonated());
    assert_eq!(shown(&game), 0);
}

#[test]
fn flood_from_zero_wins_small_board() {
    let mut game = layout(3, 3, &[(2, 2)]);
    assert_eq!(game.world()[0], Item::Number(0));
    assert_eq!(game.handle_move(0, 0), Ok(Outcome::Won));
    assert_eq!(shown(&game), 8);
    assert!(!game.board()[8]);
}

#[test]
fn flood_stops_at_numbers() {
    // a wall of mines in column 2 splits the board
    let mut game = layout(4, 5, &[(0, 2), (1, 2), (2, 2), (3, 2)]);
    assert_eq!(game.handle_move(0, 0), Ok(Outcome::Continue));
    let b = game.board().clone();
    for r in 0..4 {
        for c in 0..5 {
            assert_eq!(b[r * 5 + c], c < 2, "cell {} {}", r, c);
        }
    }
    assert_eq!(game.handle_move(0, 4), Ok(Outcome::Won));
    assert_eq!(shown(&game), 16);
}

#[test]
fn flood_twice_changes_nothing() {
    let mut game = layout(4, 4, &[(3, 3)]);
    assert_eq!(game.handle_move(0, 0), Ok(Outcome::Won));
    let after_first = game.board().clone();
    game.spread(0, 0);
    assert_eq!(game.board(), &after_first);
    assert_eq!(game.handle_move(0, 0), Err(GameError::AlreadyRevealed));

    let mut game = layout(4, 4, &[(0, 2), (1, 2), (2, 2), (3, 2)]);
    assert_eq!(game.handle_move(0, 0), Ok(Outcome::Continue));
    assert_eq!(shown(&game), 8);
    let after_first = game.board().clone();
    game.spread(0, 0);
    assert_eq!(game.board(), &after_first);
}

#[test]
fn judge_counts_shown_cells() {
    let mut game = layout(2, 2, &[(0, 0)]);
    assert!(!game.judge());
    assert_eq!(game.handle_move(0, 1), Ok(Outcome::Continue));
    assert!(!game.judge());
    assert_eq!(game.handle_move(1, 0), Ok(Outcome::Continue));
    assert_eq!(game.handle_move(1, 1), Ok(Outcome::Won));
    assert!(game.judge());
}

#[test]
fn with_mines_checks_layout() {
    let cfg = Config::new(2, 2, 1).unwrap();
    assert!(Game::with_mines(cfg, &vec![true, false, false]).is_none());
    assert!(Game::with_mines(cfg, &vec![true, true, false, false]).is_none());
    let game = Game::with_mines(cfg, &vec![false, false, false, true]).unwrap();
    assert_eq!(game.world(), &vec![Item::Number(1), Item::Number(1), Item::Number(1), Item::Mine]);
    assert!(!game.is_first());
}

#[test]
fn new_game_is_blank() {
    let game = Game::new(Config::easy());
    assert!(game.is_first());
    assert!(!game.detonated());
    assert_eq!(game.config(), Config::easy());
    assert!(game.world().iter().all(|it| *it == Item::Space));
    assert_eq!(shown(&game), 0);
}

#[test]
fn item_render() {
    assert_eq!(Item::Space.render(), '路');
    assert_eq!(Item::Mine.render(), 'X');
    assert_eq!(Item::Number(0).render(), ' ');
    assert_eq!(Item::Number(3).render(), '3');
    assert_eq!(Item::Number(8).render(), '8');
    assert_eq!(Item::Number(42).render(), '4');
    assert_eq!(Item::Number(250).render(), '2');
}

#[test]
fn colours() {
    assert_eq!(render_color('1'), Some(Color::Blue));
    assert_eq!(render_color('5'), Some(Color::DarkYellow));
    assert_eq!(render_color('8'), Some(Color::Grey));
    assert_eq!(render_color('X'), Some(Color::DarkMagenta));
    assert_eq!(render_color('路'), Some(Color::White));
    assert_eq!(render_color(' '), Some(Color::Plain));
    assert_eq!(render_color('9'), None);
}

#[test]
fn draw_hides_unshown_cells() {
    let mut game = layout(2, 3, &[(0, 0)]);
    assert_eq!(game.handle_move(1, 2), Ok(Outcome::Continue));
    let hidden = game.draw(false);
    assert_eq!(hidden, vec![vec!['路', '1', ' '], vec!['路', '1', ' ']]);
    let all = game.draw(true);
    assert_eq!(all, vec![vec!['X', '1', ' '], vec!['1', '1', ' ']]);
}

#[test]
fn app_and_input_start_empty() {
    let app = App::new();
    assert!(app.game.is_none());
    assert!(!app.should_exit);
    assert_eq!(app.status, Status::Welcome);
    let mut input = Input::new();
    input.content.push('e');
    input.error_msg = String::from("bad");
    input.clear();
    assert!(input.content.is_empty());
    assert_eq!(input.error_msg, "bad");
}
