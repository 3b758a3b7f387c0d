use vstd::prelude::*;
use rand::Rng;

use crate::count::{
    count_true, lemma_count_true_complement, lemma_count_true_none, lemma_count_true_push, lemma_count_true_set,
};

verus! {

/// What one cell of the world grid holds.
#[derive(Clone, Copy, PartialEq, Eq, Debug, Structural)]
pub enum Item {
    /// Not classified yet: only seen before the numbers are computed.
    Space,
    Mine,
    /// A safe cell with this many mines among its neighbours.
    Number(u8),
}

/// The character a cell is drawn with, before it is coloured.
pub open spec fn item_char(it: Item) -> char {
    match it {
        Item::Space => '路',
        Item::Mine => 'X',
        Item::Number(n) => if n == 0 {
            ' '
        } else {
            digit_char(leading_digit(n))
        },
    }
}

/// The first decimal digit of `n`.
pub open spec fn leading_digit(n: u8) -> u8 {
    if n >= 100 {
        (n / 100) as u8
    } else if n >= 10 {
        (n / 10) as u8
    } else {
        n
    }
}

pub open spec fn digit_char(d: u8) -> char {
    ((d + 48) as u8) as char
}

/// The colour a drawn character takes on screen.
#[derive(Clone, Copy, PartialEq, Eq, Debug, Structural)]
pub enum Color {
    Blue,
    DarkGreen,
    DarkRed,
    DarkBlue,
    DarkYellow,
    DarkCyan,
    Black,
    Grey,
    White,
    DarkMagenta,
    /// Drawn as it is.
    Plain,
}

pub open spec fn char_color(c: char) -> Option<Color> {
    if c == '1' {
        Some(Color::Blue)
    } else if c == '2' {
        Some(Color::DarkGreen)
    } else if c == '3' {
        Some(Color::DarkRed)
    } else if c == '4' {
        Some(Color::DarkBlue)
    } else if c == '5' {
        Some(Color::DarkYellow)
    } else if c == '6' {
        Some(Color::DarkCyan)
    } else if c == '7' {
        Some(Color::Black)
    } else if c == '8' {
        Some(Color::Grey)
    } else if c == '路' {
        Some(Color::White)
    } else if c == 'X' {
        Some(Color::DarkMagenta)
    } else if c == ' ' {
        Some(Color::Plain)
    } else {
        None
    }
}

/// The colour of a drawn character; `None` for a character that is not drawn.
pub fn render_color(c: char) -> (r: Option<Color>)
    ensures
        r == char_color(c),
{
    match c {
        '1' => Some(Color::Blue),
        '2' => Some(Color::DarkGreen),
        '3' => Some(Color::DarkRed),
        '4' => Some(Color::DarkBlue),
        '5' => Some(Color::DarkYellow),
        '6' => Some(Color::DarkCyan),
        '7' => Some(Color::Black),
        '8' => Some(Color::Grey),
        '路' => Some(Color::White),
        'X' => Some(Color::DarkMagenta),
        ' ' => Some(Color::Plain),
        _ => None,
    }
}

impl Item {
    pub fn render(&self) -> (r: char)
        ensures
            r == item_char(*self),
    {
        match self {
            Item::Space => '路',
            Item::Mine => 'X',
            Item::Number(n) => {
                if *n == 0 {
                    ' '
                } else {
                    let d: u8 = if *n >= 100 {
                        *n / 100
                    } else if *n >= 10 {
                        *n / 10
                    } else {
                        *n
                    };
                    (d + 48) as char
                }
            },
        }
    }
}

/// Board dimensions and number of mines.
#[derive(Clone, Copy, PartialEq, Eq, Debug, Structural)]
pub struct Config {
    pub row: usize,
    pub col: usize,
    pub mine: usize,
}

/// Why a configuration was refused.
#[derive(Clone, Copy, PartialEq, Eq, Debug, Structural)]
pub enum ConfigError {
    /// No mines, or no free cell left beside the mines.
    InvalidMineCount,
}

pub open spec fn in_bounds(rows: int, cols: int, r: int, c: int) -> bool {
    0 <= r < rows && 0 <= c < cols
}

/// Position of cell `(r, c)` in the row-major flat grid.
pub open spec fn idx(cols: int, r: int, c: int) -> int {
    r * cols + c
}

/// One of the eight offsets to a neighbouring cell.
pub open spec fn is_offset(dr: int, dc: int) -> bool {
    -1 <= dr <= 1 && -1 <= dc <= 1 && !(dr == 0 && dc == 0)
}

/// Flat position of the neighbour of `(r, c)` at offset `(dr, dc)`.
pub open spec fn nbr_idx(cols: int, r: int, c: int, dr: int, dc: int) -> int {
    idx(cols, r + dr, c + dc)
}

pub open spec fn is_mine_at(world: Seq<Item>, rows: int, cols: int, r: int, c: int) -> bool {
    in_bounds(rows, cols, r, c) && world[idx(cols, r, c)] is Mine
}

pub open spec fn mine_bit(world: Seq<Item>, rows: int, cols: int, r: int, c: int) -> nat {
    if is_mine_at(world, rows, cols, r, c) {
        1
    } else {
        0
    }
}

/// Number of mines among the in-bounds neighbours of `(r, c)`.
pub open spec fn adjacent_mines(world: Seq<Item>, rows: int, cols: int, r: int, c: int) -> nat {
    mine_bit(world, rows, cols, r - 1, c - 1) + mine_bit(world, rows, cols, r - 1, c)
        + mine_bit(world, rows, cols, r - 1, c + 1) + mine_bit(world, rows, cols, r, c - 1)
        + mine_bit(world, rows, cols, r, c + 1) + mine_bit(world, rows, cols, r + 1, c - 1)
        + mine_bit(world, rows, cols, r + 1, c) + mine_bit(world, rows, cols, r + 1, c + 1)
}

pub open spec fn mine_flags(world: Seq<Item>) -> Seq<bool> {
    world.map_values(|it: Item| it is Mine)
}

/// Number of mines anywhere in the grid.
pub open spec fn mine_count(world: Seq<Item>) -> nat {
    count_true(mine_flags(world))
}

/// Every safe cell carries the number of mines around it.
#[verifier::opaque]
pub open spec fn numbered(world: Seq<Item>, rows: int, cols: int) -> bool {
    forall|r: int, c: int|
        in_bounds(rows, cols, r, c) ==> {
            let it = #[trigger] world[idx(cols, r, c)];
            it is Mine || it == Item::Number(adjacent_mines(world, rows, cols, r, c) as u8)
        }
}

/// Each cell is a mine or not yet classified.
pub open spec fn unnumbered(world: Seq<Item>) -> bool {
    forall|i: int| 0 <= i < world.len() ==> (#[trigger] world[i] is Mine || world[i] is Space)
}

impl Config {
    /// Board sizes whose cell count fits the machine, with at least one mine
    /// and at least one safe cell.
    pub open spec fn wf(&self) -> bool {
        self.row * self.col < usize::MAX && 0 < self.mine < self.row * self.col
    }

    pub open spec fn cells(&self) -> int {
        self.row * self.col
    }

    /// A finished board for this configuration: the right number of mines,
    /// and every other cell numbered.
    pub open spec fn generated(&self, world: Seq<Item>) -> bool {
        &&& world.len() == self.cells()
        &&& mine_count(world) == self.mine
        &&& numbered(world, self.row as int, self.col as int)
    }

    /// Checks the mine count against the board size.
    pub fn new(row: usize, col: usize, mine: usize) -> (r: Result<Config, ConfigError>)
        ensures
            r is Ok <==> (row * col < usize::MAX && 0 < mine < row * col),
            r matches Ok(cfg) ==> cfg == (Config { row, col, mine }),
    {
        match row.checked_mul(col) {
            Some(n) => {
                if n < usize::MAX && 0 < mine && mine < n {
                    Ok(Config { row, col, mine })
                } else {
                    Err(ConfigError::InvalidMineCount)
                }
            },
            None => {
                proof {
                    assert(row * col > usize::MAX);
                }
                Err(ConfigError::InvalidMineCount)
            },
        }
    }

    /// 8 by 8 with 10 mines.
    pub fn easy() -> (r: Config)
        ensures
            r == (Config { row: 8, col: 8, mine: 10 }),
            r.wf(),
    {
        Config { row: 8, col: 8, mine: 10 }
    }

    /// 16 by 16 with 40 mines.
    pub fn normal() -> (r: Config)
        ensures
            r == (Config { row: 16, col: 16, mine: 40 }),
            r.wf(),
    {
        Config { row: 16, col: 16, mine: 40 }
    }

    /// 16 rows by 30 columns with 99 mines.
    pub fn hard() -> (r: Config)
        ensures
            r == (Config { row: 16, col: 30, mine: 99 }),
            r.wf(),
    {
        Config { row: 16, col: 30, mine: 99 }
    }
}

pub proof fn lemma_idx_bound(rows: int, cols: int, r: int, c: int)
    requires
        in_bounds(rows, cols, r, c),
    ensures
        0 <= idx(cols, r, c) < rows * cols,
{
    assert(0 <= r * cols + c < rows * cols) by (nonlinear_arith)
        requires
            0 <= r < rows,
            0 <= c < cols,
    ;
}

/// Relies on rand's `Rng::random_range` with the thread-local generator:
/// a value drawn from `0..n`, which is not empty.
#[verifier::external_body]
fn random_below(n: usize) -> (r: usize)
    requires
        n > 0,
    ensures
        r < n,
{
    rand::rng().random_range(0..n)
}

pub proof fn lemma_idx_inj(rows: int, cols: int, r: int, c: int, r2: int, c2: int)
    requires
        in_bounds(rows, cols, r, c),
        in_bounds(rows, cols, r2, c2),
        idx(cols, r, c) == idx(cols, r2, c2),
    ensures
        r == r2 && c == c2,
{
    vstd::arithmetic::div_mod::lemma_fundamental_div_mod_converse(idx(cols, r, c), cols, r, c);
    vstd::arithmetic::div_mod::lemma_fundamental_div_mod_converse(idx(cols, r2, c2), cols, r2, c2);
}

/// Cells that may take the next mine: not a mine yet, and not the excluded cell.
pub open spec fn free_flags(world: Seq<Item>, safe: Option<usize>) -> Seq<bool> {
    Seq::new(world.len(), |i: int| !(world[i] is Mine || safe == Some(i as usize)))
}

proof fn lemma_free_count(world: Seq<Item>, safe: Option<usize>)
    requires
        world.len() <= usize::MAX,
        safe matches Some(s) ==> s < world.len() && !(world[s as int] is Mine),
    ensures
        count_true(free_flags(world, safe)) + mine_count(world) + (if safe is Some { 1int } else { 0int })
            == world.len(),
{
    let blocked = Seq::new(world.len(), |i: int| world[i] is Mine || safe == Some(i as usize));
    lemma_count_true_complement(free_flags(world, safe), blocked);
    match safe {
        Some(s) => {
            assert forall|i: int| 0 <= i < world.len() implies blocked[i] == mine_flags(world).update(s as int, true)[i] by {
                if i != s as int {
                    assert(i as usize != s);
                }
            }
            assert(blocked =~= mine_flags(world).update(s as int, true));
            lemma_count_true_set(mine_flags(world), s as int);
        },
        None => {
            assert(blocked =~= mine_flags(world));
        },
    }
}

/// The position of the `k`-th free cell.
fn nth_free(world: &Vec<Item>, safe: Option<usize>, k: usize) -> (j: usize)
    requires
        k < count_true(free_flags(world@, safe)),
    ensures
        j < world@.len(),
        free_flags(world@, safe)[j as int],
{
    let ghost free = free_flags(world@, safe);
    let n = world.len();
    let mut seen: usize = 0;
    let mut j: usize = 0;
    while j < n
        invariant
            n == world@.len(),
            free == free_flags(world@, safe),
            k < count_true(free),
            j <= n,
            seen <= k,
            seen == count_true(free.take(j as int)),
        decreases n - j,
    {
        proof {
            lemma_count_true_push(free, j as int);
        }
        let excluded = match safe {
            Some(s) => s == j,
            None => false,
        };
        let is_free = !(matches!(world[j], Item::Mine) || excluded);
        if is_free {
            if seen == k {
                return j;
            }
            seen = seen + 1;
        }
        j = j + 1;
    }
    proof {
        assert(free.take(n as int) =~= free);
    }
    0
}

/// Places `cfg.mine` mines on distinct random cells, never on `safe`,
/// leaving every other cell unclassified.
fn place_mines(cfg: Config, safe: Option<usize>) -> (world: Vec<Item>)
    requires
        cfg.wf(),
        safe matches Some(s) ==> s < cfg.cells(),
    ensures
        world@.len() == cfg.cells(),
        unnumbered(world@),
        mine_count(world@) == cfg.mine,
        safe matches Some(s) ==> !(world@[s as int] is Mine),
{
    let n = cfg.row * cfg.col;
    let mut world: Vec<Item> = Vec::new();
    let mut i: usize = 0;
    while i < n
        invariant
            n == cfg.cells(),
            i <= n,
            world@.len() == i,
            forall|j: int| 0 <= j < i ==> #[trigger] world@[j] == Item::Space,
        decreases n - i,
    {
        world.push(Item::Space);
        i = i + 1;
    }
    proof {
        lemma_count_true_none(mine_flags(world@));
    }
    let mut m: usize = 0;
    while m < cfg.mine
        invariant
            cfg.wf(),
            n == cfg.cells(),
            safe matches Some(s) ==> s < n,
            m <= cfg.mine,
            world@.len() == n,
            unnumbered(world@),
            mine_count(world@) == m,
            safe matches Some(s) ==> !(world@[s as int] is Mine),
        decreases cfg.mine - m,
    {
        let excluded: usize = if safe.is_some() { 1 } else { 0 };
        proof {
            lemma_free_count(world@, safe);
        }
        let k = random_below(n - m - excluded);
        let j = nth_free(&world, safe, k);
        proof {
            assert(mine_flags(world@.update(j as int, Item::Mine)) =~= mine_flags(world@).update(j as int, true));
            lemma_count_true_set(mine_flags(world@), j as int);
        }
        world.set(j, Item::Mine);
        m = m + 1;
    }
    world
}

/// 1 when the neighbour of `(r, c)` at offset `(dr - 1, dc - 1)` is a mine.
fn mine_flag(world: &Vec<Item>, rows: usize, cols: usize, r: usize, c: usize, dr: usize, dc: usize) -> (n: u8)
    requires
        world@.len() == rows * cols,
        rows * cols < usize::MAX,
        in_bounds(rows as int, cols as int, r as int, c as int),
        dr <= 2,
        dc <= 2,
    ensures
        n == mine_bit(world@, rows as int, cols as int, r + dr - 1, c + dc - 1),
{
    proof {
        assert(rows <= rows * cols && cols <= rows * cols) by (nonlinear_arith)
            requires
                r < rows,
                c < cols,
        ;
    }
    if r + dr == 0 || c + dc == 0 {
        return 0;
    }
    let rr = r + dr - 1;
    let cc = c + dc - 1;
    if rr >= rows || cc >= cols {
        return 0;
    }
    proof {
        lemma_idx_bound(rows as int, cols as int, rr as int, cc as int);
    }
    if matches!(world[rr * cols + cc], Item::Mine) {
        1
    } else {
        0
    }
}

/// Counts the mines around `(r, c)`.
fn count_adjacent(world: &Vec<Item>, rows: usize, cols: usize, r: usize, c: usize) -> (n: u8)
    requires
        world@.len() == rows * cols,
        rows * cols < usize::MAX,
        in_bounds(rows as int, cols as int, r as int, c as int),
    ensures
        n == adjacent_mines(world@, rows as int, cols as int, r as int, c as int),
{
    mine_flag(world, rows, cols, r, c, 0, 0) + mine_flag(world, rows, cols, r, c, 0, 1)
        + mine_flag(world, rows, cols, r, c, 0, 2) + mine_flag(world, rows, cols, r, c, 1, 0)
        + mine_flag(world, rows, cols, r, c, 1, 2) + mine_flag(world, rows, cols, r, c, 2, 0)
        + mine_flag(world, rows, cols, r, c, 2, 1) + mine_flag(world, rows, cols, r, c, 2, 2)
}

/// What a cell becomes once the numbers are computed.
pub open spec fn classified(world: Seq<Item>, rows: int, cols: int, r: int, c: int) -> Item {
    if world[idx(cols, r, c)] is Mine {
        Item::Mine
    } else {
        Item::Number(adjacent_mines(world, rows, cols, r, c) as u8)
    }
}

proof fn lemma_same_mines(a: Seq<Item>, b: Seq<Item>, rows: int, cols: int, r: int, c: int)
    requires
        a.len() == b.len(),
        forall|j: int| 0 <= j < a.len() ==> (#[trigger] a[j] is Mine) == (b[j] is Mine),
        a.len() == rows * cols,
    ensures
        adjacent_mines(a, rows, cols, r, c) == adjacent_mines(b, rows, cols, r, c),
{
    assert forall|dr: int, dc: int| -1 <= dr <= 1 && -1 <= dc <= 1 implies
        #[trigger] mine_bit(a, rows, cols, r + dr, c + dc) == mine_bit(b, rows, cols, r + dr, c + dc) by {
        if in_bounds(rows, cols, r + dr, c + dc) {
            lemma_idx_bound(rows, cols, r + dr, c + dc);
        }
    }
    assert(mine_bit(a, rows, cols, r - 1, c - 1) == mine_bit(b, rows, cols, r + -1, c + -1));
    assert(mine_bit(a, rows, cols, r - 1, c) == mine_bit(b, rows, cols, r + -1, c + 0));
    assert(mine_bit(a, rows, cols, r - 1, c + 1) == mine_bit(b, rows, cols, r + -1, c + 1));
    assert(mine_bit(a, rows, cols, r, c - 1) == mine_bit(b, rows, cols, r + 0, c + -1));
    assert(mine_bit(a, rows, cols, r, c + 1) == mine_bit(b, rows, cols, r + 0, c + 1));
    assert(mine_bit(a, rows, cols, r + 1, c - 1) == mine_bit(b, rows, cols, r + 1, c + -1));
    assert(mine_bit(a, rows, cols, r + 1, c) == mine_bit(b, rows, cols, r + 1, c + 0));
    assert(mine_bit(a, rows, cols, r + 1, c + 1) == mine_bit(b, rows, cols, r + 1, c + 1));
}

/// Writes its adjacency number into every cell that is not a mine.
pub(crate) fn generate_number(world: &mut Vec<Item>, rows: usize, cols: usize)
    requires
        old(world)@.len() == rows * cols,
        rows * cols < usize::MAX,
        unnumbered(old(world)@),
    ensures
        final(world)@.len() == rows * cols,
        mine_flags(final(world)@) == mine_flags(old(world)@),
        forall|r: int, c: int|
            in_bounds(rows as int, cols as int, r, c) ==> #[trigger] final(world)@[idx(cols as int, r, c)]
                == classified(old(world)@, rows as int, cols as int, r, c),
{
    let ghost w0 = world@;
    let mut r: usize = 0;
    while r < rows
        invariant
            w0.len() == rows * cols,
            rows * cols < usize::MAX,
            unnumbered(w0),
            r <= rows,
            world@.len() == w0.len(),
            forall|j: int| 0 <= j < w0.len() ==> (#[trigger] world@[j] is Mine) == (w0[j] is Mine),
            forall|r2: int, c2: int|
                in_bounds(rows as int, cols as int, r2, c2) && r2 < r ==> #[trigger] world@[idx(cols as int, r2, c2)]
                    == classified(w0, rows as int, cols as int, r2, c2),
            forall|r2: int, c2: int|
                in_bounds(rows as int, cols as int, r2, c2) && r2 >= r ==> #[trigger] world@[idx(cols as int, r2, c2)]
                    == w0[idx(cols as int, r2, c2)],
        decreases rows - r,
    {
        let mut c: usize = 0;
        while c < cols
            invariant
                w0.len() == rows * cols,
                rows * cols < usize::MAX,
                unnumbered(w0),
                r < rows,
                c <= cols,
                world@.len() == w0.len(),
                forall|j: int| 0 <= j < w0.len() ==> (#[trigger] world@[j] is Mine) == (w0[j] is Mine),
                forall|r2: int, c2: int|
                    in_bounds(rows as int, cols as int, r2, c2) && (r2 < r || (r2 == r && c2 < c)) ==>
                        #[trigger] world@[idx(cols as int, r2, c2)] == classified(w0, rows as int, cols as int, r2, c2),
                forall|r2: int, c2: int|
                    in_bounds(rows as int, cols as int, r2, c2) && !(r2 < r || (r2 == r && c2 < c)) ==>
                        #[trigger] world@[idx(cols as int, r2, c2)] == w0[idx(cols as int, r2, c2)],
            decreases cols - c,
        {
            proof {
                lemma_idx_bound(rows as int, cols as int, r as int, c as int);
                lemma_same_mines(world@, w0, rows as int, cols as int, r as int, c as int);
            }
            let i = r * cols + c;
            let ghost start = world@;
            if !matches!(world[i], Item::Mine) {
                let n = count_adjacent(world, rows, cols, r, c);
                let ghost before = world@;
                world.set(i, Item::Number(n));
                proof {
                    assert forall|r2: int, c2: int| in_bounds(rows as int, cols as int, r2, c2) && idx(cols as int, r2, c2) == i
                        implies r2 == r && c2 == c by {
                        lemma_idx_inj(rows as int, cols as int, r as int, c as int, r2, c2);
                    }
                    assert forall|j: int| 0 <= j < w0.len() implies (#[trigger] world@[j] is Mine) == (w0[j] is Mine) by {
                        if j != i {
                            assert(world@[j] == before[j]);
                        } else {
                            assert(w0[j] is Space);
                        }
                    }
                }
            } else {
                proof {
                    assert forall|r2: int, c2: int| in_bounds(rows as int, cols as int, r2, c2) && idx(cols as int, r2, c2) == i
                        implies r2 == r && c2 == c by {
                        lemma_idx_inj(rows as int, cols as int, r as int, c as int, r2, c2);
                    }
                }
            }
            proof {
                assert forall|r2: int, c2: int| in_bounds(rows as int, cols as int, r2, c2) && !(r2 == r && c2 == c)
                    implies #[trigger] world@[idx(cols as int, r2, c2)] == start[idx(cols as int, r2, c2)] by {
                    lemma_idx_bound(rows as int, cols as int, r2, c2);
                    if idx(cols as int, r2, c2) == i {
                        lemma_idx_inj(rows as int, cols as int, r as int, c as int, r2, c2);
                    }
                }
            }
            c = c + 1;
        }
        r = r + 1;
    }
    proof {
        assert(mine_flags(world@) =~= mine_flags(w0));
    }
}

pub(crate) proof fn lemma_numbers_complete(w0: Seq<Item>, w: Seq<Item>, rows: int, cols: int)
    requires
        w0.len() == rows * cols,
        w.len() == rows * cols,
        mine_flags(w) == mine_flags(w0),
        forall|r: int, c: int|
            in_bounds(rows, cols, r, c) ==> #[trigger] w[idx(cols, r, c)] == classified(w0, rows, cols, r, c),
    ensures
        numbered(w, rows, cols),
{
    reveal(numbered);
    assert forall|j: int| 0 <= j < w0.len() implies (#[trigger] w[j] is Mine) == (w0[j] is Mine) by {
        assert(mine_flags(w)[j] == (w[j] is Mine));
        assert(mine_flags(w0)[j] == (w0[j] is Mine));
    }
    assert forall|r: int, c: int| in_bounds(rows, cols, r, c) implies {
        let it = #[trigger] w[idx(cols, r, c)];
        it is Mine || it == Item::Number(adjacent_mines(w, rows, cols, r, c) as u8)
    } by {
        lemma_same_mines(w, w0, rows, cols, r, c);
        lemma_idx_bound(rows, cols, r, c);
    }
}

/// A board with `cfg.mine` mines on random distinct cells, every other cell
/// numbered.
pub fn generate_random(cfg: Config) -> (world: Vec<Item>)
    requires
        cfg.wf(),
    ensures
        cfg.generated(world@),
{
    let mut world = place_mines(cfg, None);
    let ghost w0 = world@;
    generate_number(&mut world, cfg.row, cfg.col);
    proof {
        lemma_numbers_complete(w0, world@, cfg.row as int, cfg.col as int);
    }
    world
}

/// Like `generate_random`, but no mine lands on `(safe_row, safe_col)`.
pub fn generate_excluding(cfg: Config, safe_row: usize, safe_col: usize) -> (world: Vec<Item>)
    requires
        cfg.wf(),
        safe_row < cfg.row,
        safe_col < cfg.col,
    ensures
        cfg.generated(world@),
        world@[idx(cfg.col as int, safe_row as int, safe_col as int)] is Number,
{
    proof {
        lemma_idx_bound(cfg.row as int, cfg.col as int, safe_row as int, safe_col as int);
    }
    let safe = safe_row * cfg.col + safe_col;
    let mut world = place_mines(cfg, Some(safe));
    let ghost w0 = world@;
    generate_number(&mut world, cfg.row, cfg.col);
    proof {
        lemma_numbers_complete(w0, world@, cfg.row as int, cfg.col as int);
    }
    world
}

} // verus!
