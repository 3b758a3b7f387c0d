use vstd::prelude::*;

use crate::app::Status;
use crate::board::{
    generate_excluding, generate_number, generate_random, idx, in_bounds, is_offset, item_char, lemma_idx_bound,
    lemma_idx_inj, lemma_numbers_complete, mine_flags, nbr_idx, Config, Item,
};
use crate::command::{move_of, parse_move};
use crate::count::{
    count_true, lemma_count_true_bound, lemma_count_true_complement, lemma_count_true_push, lemma_count_true_set,
};
use crate::error::GameError;

verus! {

/// `a` shows no cell that `b` hides.
pub open spec fn subset(a: Seq<bool>, b: Seq<bool>) -> bool {
    forall|i: int| 0 <= i < a.len() && #[trigger] a[i] ==> b[i]
}

/// What a move led to.
#[derive(Clone, Copy, PartialEq, Eq, Debug, Structural)]
pub enum Outcome {
    Continue,
    Lost,
    Won,
}

/// A game in progress: the configuration, the mine layout, and which cells
/// the player can see.
pub struct Game {
    first: bool,
    detonated: bool,
    config: Config,
    world: Vec<Item>,
    board: Vec<bool>,
}

/// The state of a `Game` as values.
pub struct GameView {
    pub config: Config,
    /// No move has been accepted yet: the layout is only a placeholder.
    pub first: bool,
    /// The whole board is to be shown: the game was lost or won.
    pub detonated: bool,
    pub world: Seq<Item>,
    pub board: Seq<bool>,
}

impl View for Game {
    type V = GameView;

    closed spec fn view(&self) -> GameView {
        GameView {
            config: self.config,
            first: self.first,
            detonated: self.detonated,
            world: self.world@,
            board: self.board@,
        }
    }
}

impl GameView {
    pub open spec fn rows(self) -> int {
        self.config.row as int
    }

    pub open spec fn cols(self) -> int {
        self.config.col as int
    }

    pub open spec fn cells(self) -> int {
        self.config.cells()
    }

    pub open spec fn layout(self) -> Layout {
        Layout { config: self.config, world: self.world }
    }

    /// The grids have one entry per cell of the configuration.
    pub open spec fn sized(self) -> bool {
        &&& self.config.wf()
        &&& self.world.len() == self.cells()
        &&& self.board.len() == self.cells()
    }

    pub open spec fn wf(self) -> bool {
        &&& self.config.wf()
        &&& self.world.len() == self.cells()
        &&& self.board.len() == self.cells()
        &&& self.first ==> forall|i: int| 0 <= i < self.board.len() ==> !#[trigger] self.board[i]
        &&& !self.first ==> self.config.generated(self.world)
        &&& self.only_safe_shown()
    }

    /// No mine is shown.
    pub open spec fn only_safe_shown(self) -> bool {
        forall|i: int| 0 <= i < self.cells() && #[trigger] self.board[i] ==> self.world[i] is Number
    }

    /// Every safe cell is shown: the revealed count and the mines fill the board.
    pub open spec fn won(self) -> bool {
        count_true(self.board) + self.config.mine == self.cells()
    }

}


/// The part of a game that a flood reads: the configuration and the mine layout.
pub struct Layout {
    pub config: Config,
    pub world: Seq<Item>,
}

impl Layout {
    pub open spec fn rows(self) -> int {
        self.config.row as int
    }

    pub open spec fn cols(self) -> int {
        self.config.col as int
    }

    pub open spec fn cells(self) -> int {
        self.config.cells()
    }

    pub open spec fn sized(self) -> bool {
        &&& self.config.wf()
        &&& self.world.len() == self.cells()
    }

    /// The neighbour of `(r, c)` at offset `(dr, dc)`, if it is a safe cell,
    /// is shown in `t`.
    pub open spec fn shown(self, t: Seq<bool>, r: int, c: int, dr: int, dc: int) -> bool {
        in_bounds(self.rows(), self.cols(), r + dr, c + dc) && self.world[nbr_idx(self.cols(), r, c, dr, dc)] is Number
            ==> t[nbr_idx(self.cols(), r, c, dr, dc)]
    }

    /// Every safe neighbour of `(r, c)` is shown in `t`.
    pub open spec fn nbrs_shown(self, t: Seq<bool>, r: int, c: int) -> bool {
        forall|dr: int, dc: int| #![trigger nbr_idx(self.cols(), r, c, dr, dc)]
            is_offset(dr, dc) ==> self.shown(t, r, c, dr, dc)
    }

    /// Every zero cell that `t` shows beyond `base` has its safe neighbours shown.
    pub open spec fn closed_from(self, base: Seq<bool>, t: Seq<bool>) -> bool {
        forall|r: int, c: int|
            in_bounds(self.rows(), self.cols(), r, c) && #[trigger] t[idx(self.cols(), r, c)]
                && !base[idx(self.cols(), r, c)] && self.world[idx(self.cols(), r, c)] == Item::Number(0)
                ==> self.nbrs_shown(t, r, c)
    }

    /// `t` holds `base`, the safe neighbours of `(r, c)`, and is closed beyond `base`.
    pub open spec fn flood_covers(self, base: Seq<bool>, r: int, c: int, t: Seq<bool>) -> bool {
        &&& t.len() == self.cells()
        &&& subset(base, t)
        &&& self.nbrs_shown(t, r, c)
        &&& self.closed_from(base, t)
    }

    /// `t` is what flood-fill from `(r, c)` shows on top of `base`: the least cover.
    pub open spec fn is_flood(self, base: Seq<bool>, r: int, c: int, t: Seq<bool>) -> bool {
        &&& self.flood_covers(base, r, c, t)
        &&& forall|u: Seq<bool>| #[trigger] self.flood_covers(base, r, c, u) ==> subset(t, u)
    }

    /// The start of a flood from `(si, sj)`, or a zero cell it has newly shown.
    pub open spec fn pending(self, b0: Seq<bool>, si: int, sj: int, board: Seq<bool>, r: int, c: int) -> bool {
        (r == si && c == sj) || (board[idx(self.cols(), r, c)] && !b0[idx(self.cols(), r, c)]
            && self.world[idx(self.cols(), r, c)] == Item::Number(0))
    }

    /// What holds while a flood from `(si, sj)` runs, `cur` being the cell
    /// whose neighbours are being visited.
    pub open spec fn flood_inv(
        self,
        b0: Seq<bool>,
        si: int,
        sj: int,
        board: Seq<bool>,
        stack: Seq<(usize, usize)>,
        cur: (int, int),
    ) -> bool {
        &&& board.len() == self.cells()
        &&& b0.len() == self.cells()
        &&& subset(b0, board)
        &&& forall|u: Seq<bool>| #[trigger] self.flood_covers(b0, si, sj, u) ==> subset(board, u)
        &&& forall|k: int| 0 <= k < stack.len() ==> {
            let e = #[trigger] stack[k];
            in_bounds(self.rows(), self.cols(), e.0 as int, e.1 as int) && self.pending(b0, si, sj, board, e.0 as int, e.1 as int)
        }
        &&& forall|r: int, c: int|
            in_bounds(self.rows(), self.cols(), r, c) && #[trigger] self.pending(b0, si, sj, board, r, c) ==> stack.contains(
                (r as usize, c as usize),
            ) || self.nbrs_shown(board, r, c) || (r == cur.0 && c == cur.1)
    }
}

/// Showing exactly the safe cells of a finished board wins: the shown count
/// and the mines then fill the board.
pub proof fn lemma_all_safe_shown_wins(g: GameView)
    requires
        g.sized(),
        g.config.generated(g.world),
        forall|i: int| 0 <= i < g.cells() ==> #[trigger] g.board[i] == !(g.world[i] is Mine),
    ensures
        g.won(),
{
    assert forall|i: int| 0 <= i < g.cells() implies #[trigger] g.board[i] == !mine_flags(g.world)[i] by {}
    lemma_count_true_complement(g.board, mine_flags(g.world));
}

/// Once the first move is played, the game is won exactly when every safe
/// cell is shown.
pub proof fn lemma_won_iff_all_safe_shown(g: GameView)
    requires
        g.wf(),
        !g.first,
    ensures
        g.won() <==> forall|i: int| 0 <= i < g.cells() ==> #[trigger] g.board[i] == !(g.world[i] is Mine),
{
    if g.won() {
        assert forall|i: int| 0 <= i < g.cells() implies #[trigger] g.board[i] == !(g.world[i] is Mine) by {
            if !g.board[i] && !(g.world[i] is Mine) {
                let both = Seq::new(g.board.len(), |j: int| g.board[j] || mine_flags(g.world)[j]);
                let neither = Seq::new(g.board.len(), |j: int| !(g.board[j] || mine_flags(g.world)[j]));
                lemma_count_true_complement(both, neither);
                lemma_count_true_union(g.board, mine_flags(g.world));
                assert(neither[i]);
                lemma_count_true_positive(neither, i);
            }
        }
    } else {
        if forall|i: int| 0 <= i < g.cells() ==> #[trigger] g.board[i] == !(g.world[i] is Mine) {
            lemma_all_safe_shown_wins(g);
        }
    }
}

proof fn lemma_count_true_positive(s: Seq<bool>, i: int)
    requires
        0 <= i < s.len(),
        s[i],
    ensures
        count_true(s) >= 1,
    decreases s.len(),
{
    if i < s.len() - 1 {
        lemma_count_true_positive(s.drop_last(), i);
    }
}

/// For disjoint flags, the count of their union is the sum of the counts.
proof fn lemma_count_true_union(a: Seq<bool>, b: Seq<bool>)
    requires
        a.len() == b.len(),
        forall|i: int| 0 <= i < a.len() && #[trigger] a[i] ==> !b[i],
    ensures
        count_true(Seq::new(a.len(), |j: int| a[j] || b[j])) == count_true(a) + count_true(b),
    decreases a.len(),
{
    let u = Seq::new(a.len(), |j: int| a[j] || b[j]);
    if a.len() > 0 {
        let a1 = a.drop_last();
        let b1 = b.drop_last();
        lemma_count_true_union(a1, b1);
        assert(u.drop_last() =~= Seq::new(a1.len(), |j: int| a1[j] || b1[j]));
    }
}

/// A flood shows no mine beyond its base.
pub proof fn lemma_flood_only_numbers(l: Layout, base: Seq<bool>, r: int, c: int, t: Seq<bool>)
    requires
        l.sized(),
        base.len() == l.cells(),
        l.is_flood(base, r, c, t),
    ensures
        forall|i: int| 0 <= i < l.cells() && #[trigger] t[i] && !base[i] ==> l.world[i] is Number,
{
    let u = Seq::new(base.len(), |i: int| base[i] || l.world[i] is Number);
    assert forall|dr: int, dc: int, r2: int, c2: int|
        is_offset(dr, dc) && in_bounds(l.rows(), l.cols(), r2, c2) implies #[trigger] l.shown(u, r2, c2, dr, dc) by {
        if in_bounds(l.rows(), l.cols(), r2 + dr, c2 + dc) {
            lemma_idx_bound(l.rows(), l.cols(), r2 + dr, c2 + dc);
        }
    }
    assert forall|dr: int, dc: int| #![trigger nbr_idx(l.cols(), r, c, dr, dc)] is_offset(dr, dc) implies l.shown(u, r, c, dr, dc) by {
        if in_bounds(l.rows(), l.cols(), r + dr, c + dc) {
            lemma_idx_bound(l.rows(), l.cols(), r + dr, c + dc);
        }
    }
    assert forall|r2: int, c2: int|
        in_bounds(l.rows(), l.cols(), r2, c2) && #[trigger] u[idx(l.cols(), r2, c2)] && !base[idx(l.cols(), r2, c2)]
            && l.world[idx(l.cols(), r2, c2)] == Item::Number(0) implies l.nbrs_shown(u, r2, c2) by {
        assert forall|dr: int, dc: int| #![trigger nbr_idx(l.cols(), r2, c2, dr, dc)] is_offset(dr, dc) implies l.shown(u, r2, c2, dr, dc) by {
            if in_bounds(l.rows(), l.cols(), r2 + dr, c2 + dc) {
                lemma_idx_bound(l.rows(), l.cols(), r2 + dr, c2 + dc);
            }
        }
    }
    assert(l.flood_covers(base, r, c, u));
    assert forall|i: int| 0 <= i < l.cells() && #[trigger] t[i] && !base[i] implies l.world[i] is Number by {
        assert(subset(t, u));
        assert(u[i]);
    }
}

/// The flood from a cell is unique: two results from one start and one base agree.
pub proof fn lemma_flood_unique(l: Layout, base: Seq<bool>, r: int, c: int, t1: Seq<bool>, t2: Seq<bool>)
    requires
        l.is_flood(base, r, c, t1),
        l.is_flood(base, r, c, t2),
    ensures
        t1 == t2,
{
    assert(subset(t1, t2));
    assert(subset(t2, t1));
    assert(t1 =~= t2);
}

/// Flooding again from the same cell shows nothing new.
pub proof fn lemma_flood_idempotent(l: Layout, base: Seq<bool>, r: int, c: int, t1: Seq<bool>, t2: Seq<bool>)
    requires
        l.is_flood(base, r, c, t1),
        l.is_flood(t1, r, c, t2),
    ensures
        t2 == t1,
{
    assert(l.flood_covers(t1, r, c, t1));
    assert(subset(t2, t1));
    assert(subset(t1, t2));
    assert(t1 =~= t2);
}

/// What a move at `(x, y)` (0-based) does to a game, and what it answers.
pub open spec fn move_post(o: GameView, f: GameView, x: int, y: int, r: Result<Outcome, GameError>) -> bool {
    &&& f.wf()
    &&& !in_bounds(o.rows(), o.cols(), x, y) ==> r == Err::<Outcome, GameError>(GameError::InvalidInput) && f == o
    &&& in_bounds(o.rows(), o.cols(), x, y) ==> {
        let k = idx(o.cols(), x, y);
        &&& f.config == o.config
        &&& !f.first
        &&& o.first ==> f.world[k] is Number
        &&& !o.first ==> f.world == o.world
        &&& f.world[k] is Mine ==> r == Ok::<Outcome, GameError>(Outcome::Lost) && f.detonated && f.board == o.board
        &&& f.world[k] is Number && o.board[k] ==> r == Err::<Outcome, GameError>(GameError::AlreadyRevealed)
            && f.board == o.board && f.detonated == o.detonated
        &&& f.world[k] is Number && !o.board[k] ==> {
            let b1 = o.board.update(k, true);
            &&& f.world[k] == Item::Number(0) ==> f.layout().is_flood(b1, x, y, f.board)
            &&& f.world[k] != Item::Number(0) ==> f.board == b1
            &&& r == Ok::<Outcome, GameError>(if f.won() { Outcome::Won } else { Outcome::Continue })
            &&& f.detonated == (o.detonated || f.won())
        }
    }
}

/// A move that shows a safe cell answers `Won` exactly when every safe cell
/// is then shown, and `Continue` otherwise; a move onto a mine answers `Lost`.
pub proof fn lemma_move_outcome(o: GameView, f: GameView, x: int, y: int, r: Result<Outcome, GameError>)
    requires
        o.wf(),
        move_post(o, f, x, y, r),
        in_bounds(o.rows(), o.cols(), x, y),
    ensures
        f.world[idx(o.cols(), x, y)] is Mine ==> r == Ok::<Outcome, GameError>(Outcome::Lost),
        f.world[idx(o.cols(), x, y)] is Number && !o.board[idx(o.cols(), x, y)] ==> {
            &&& r == Ok::<Outcome, GameError>(Outcome::Won) <==> forall|i: int|
                0 <= i < f.cells() ==> #[trigger] f.board[i] == !(f.world[i] is Mine)
            &&& r == Ok::<Outcome, GameError>(Outcome::Continue) <==> !f.won()
        },
{
    lemma_won_iff_all_safe_shown(f);
}

pub open spec fn flood_measure(cells: int, board: Seq<bool>, stack: Seq<(usize, usize)>) -> int {
    9 * (cells - count_true(board)) + stack.len()
}

/// Showing the hidden safe neighbour `(nr, nc)` of the cell being visited,
/// and queueing it when it is a zero, keeps the flood invariant.
proof fn lemma_visit_reveal(
    v: Layout,
    b0: Seq<bool>,
    si: int,
    sj: int,
    b: Seq<bool>,
    s: Seq<(usize, usize)>,
    ri: int,
    ci: int,
    di: int,
    dj: int,
    nr: int,
    nc: int,
    zero: bool,
    b2: Seq<bool>,
    s2: Seq<(usize, usize)>,
)
    requires
        v.sized(),
        v.flood_inv(b0, si, sj, b, s, (ri, ci)),
        v.pending(b0, si, sj, b, ri, ci),
        in_bounds(v.rows(), v.cols(), ri, ci),
        in_bounds(v.rows(), v.cols(), nr, nc),
        is_offset(di, dj),
        nr == ri + di,
        nc == ci + dj,
        nr <= usize::MAX,
        nc <= usize::MAX,
        v.world[idx(v.cols(), nr, nc)] is Number,
        zero == (v.world[idx(v.cols(), nr, nc)] == Item::Number(0)),
        !b[idx(v.cols(), nr, nc)],
        b2 == b.update(idx(v.cols(), nr, nc), true),
        s2 == if zero { s.push((nr as usize, nc as usize)) } else { s },
    ensures
        v.flood_inv(b0, si, sj, b2, s2, (ri, ci)),
        subset(b, b2),
        flood_measure(v.cells(), b2, s2) < flood_measure(v.cells(), b, s),
{
    let k = idx(v.cols(), nr, nc);
    lemma_idx_bound(v.rows(), v.cols(), nr, nc);
    lemma_idx_bound(v.rows(), v.cols(), ri, ci);
    lemma_count_true_set(b, k);
    lemma_count_true_bound(b2);
    assert(nbr_idx(v.cols(), ri, ci, di, dj) == k);
    assert forall|u: Seq<bool>| #[trigger] v.flood_covers(b0, si, sj, u) implies subset(b2, u) by {
        assert(subset(b, u));
        if ri == si && ci == sj {
            assert(v.shown(u, si, sj, di, dj));
        } else {
            assert(u[idx(v.cols(), ri, ci)]);
            assert(v.nbrs_shown(u, ri, ci));
            assert(v.shown(u, ri, ci, di, dj));
        }
    }
    assert(subset(b, b2));
    assert(subset(b0, b2));
    assert(s2.len() <= s.len() + 1);
    lemma_stack_entries(v, b0, si, sj, b, s, k, nr, nc, zero, b2, s2);
    lemma_pending_covered(v, b0, si, sj, b, s, ri, ci, k, nr, nc, zero, b2, s2);
    assert(b2.len() == v.cells());
    assert(forall|u: Seq<bool>| #[trigger] v.flood_covers(b0, si, sj, u) ==> subset(b2, u));
    assert(v.flood_inv(b0, si, sj, b2, s2, (ri, ci)));
    assert(flood_measure(v.cells(), b2, s2) < flood_measure(v.cells(), b, s));
}

proof fn lemma_stack_entries(
    v: Layout,
    b0: Seq<bool>,
    si: int,
    sj: int,
    b: Seq<bool>,
    s: Seq<(usize, usize)>,
    k: int,
    nr: int,
    nc: int,
    zero: bool,
    b2: Seq<bool>,
    s2: Seq<(usize, usize)>,
)
    requires
        b0.len() == v.cells(),
        v.sized(),
        b.len() == v.cells(),
        subset(b0, b),
        forall|q: int| 0 <= q < s.len() ==> {
            let e = #[trigger] s[q];
            in_bounds(v.rows(), v.cols(), e.0 as int, e.1 as int) && v.pending(b0, si, sj, b, e.0 as int, e.1 as int)
        },
        in_bounds(v.rows(), v.cols(), nr, nc),
        k == idx(v.cols(), nr, nc),
        zero == (v.world[k] == Item::Number(0)),
        b2 == b.update(k, true),
        s2 == if zero { s.push((nr as usize, nc as usize)) } else { s },
        !b[k],
    ensures
        forall|q: int| 0 <= q < s2.len() ==> {
            let e = #[trigger] s2[q];
            in_bounds(v.rows(), v.cols(), e.0 as int, e.1 as int) && v.pending(b0, si, sj, b2, e.0 as int, e.1 as int)
        },
{
    lemma_idx_bound(v.rows(), v.cols(), nr, nc);
    assert(!b0[k]);
    assert forall|q: int| 0 <= q < s2.len() implies {
        let e = #[trigger] s2[q];
        in_bounds(v.rows(), v.cols(), e.0 as int, e.1 as int) && v.pending(b0, si, sj, b2, e.0 as int, e.1 as int)
    } by {
        if q < s.len() {
            assert(s2[q] == s[q]);
            let e = s[q];
            lemma_idx_bound(v.rows(), v.cols(), e.0 as int, e.1 as int);
        }
    }
}

proof fn lemma_pending_covered(
    v: Layout,
    b0: Seq<bool>,
    si: int,
    sj: int,
    b: Seq<bool>,
    s: Seq<(usize, usize)>,
    ri: int,
    ci: int,
    k: int,
    nr: int,
    nc: int,
    zero: bool,
    b2: Seq<bool>,
    s2: Seq<(usize, usize)>,
)
    requires
        v.sized(),
        b.len() == v.cells(),
        forall|r: int, c: int|
            in_bounds(v.rows(), v.cols(), r, c) && #[trigger] v.pending(b0, si, sj, b, r, c) ==> s.contains(
                (r as usize, c as usize),
            ) || v.nbrs_shown(b, r, c) || (r == ri && c == ci),
        in_bounds(v.rows(), v.cols(), nr, nc),
        k == idx(v.cols(), nr, nc),
        zero == (v.world[k] == Item::Number(0)),
        b2 == b.update(k, true),
        s2 == if zero { s.push((nr as usize, nc as usize)) } else { s },
    ensures
        forall|r: int, c: int|
            in_bounds(v.rows(), v.cols(), r, c) && #[trigger] v.pending(b0, si, sj, b2, r, c) ==> s2.contains(
                (r as usize, c as usize),
            ) || v.nbrs_shown(b2, r, c) || (r == ri && c == ci),
{
    lemma_idx_bound(v.rows(), v.cols(), nr, nc);
    assert forall|r2: int, c2: int|
        in_bounds(v.rows(), v.cols(), r2, c2) && #[trigger] v.pending(b0, si, sj, b2, r2, c2) implies s2.contains(
            (r2 as usize, c2 as usize),
        ) || v.nbrs_shown(b2, r2, c2) || (r2 == ri && c2 == ci) by {
        lemma_idx_bound(v.rows(), v.cols(), r2, c2);
        if idx(v.cols(), r2, c2) == k && !(r2 == si && c2 == sj) {
            lemma_idx_inj(v.rows(), v.cols(), r2, c2, nr, nc);
            assert(s2[s2.len() - 1] == (r2 as usize, c2 as usize));
        } else {
            assert(v.pending(b0, si, sj, b, r2, c2));
            if s.contains((r2 as usize, c2 as usize)) {
                let q = choose|q: int| 0 <= q < s.len() && s[q] == (r2 as usize, c2 as usize);
                assert(s2[q] == s[q]);
            } else if v.nbrs_shown(b, r2, c2) {
                assert forall|d1: int, d2: int| #![trigger nbr_idx(v.cols(), r2, c2, d1, d2)]
                    is_offset(d1, d2) implies v.shown(b2, r2, c2, d1, d2) by {
                    assert(v.shown(b, r2, c2, d1, d2));
                    if in_bounds(v.rows(), v.cols(), r2 + d1, c2 + d2) {
                        lemma_idx_bound(v.rows(), v.cols(), r2 + d1, c2 + d2);
                    }
                }
            }
        }
    }
}

impl Game {
    /// A game on `cfg` with nothing shown and no cell classified yet.
    pub fn new(cfg: Config) -> (g: Game)
        requires
            cfg.wf(),
        ensures
            g@.wf(),
            g@.config == cfg,
            g@.first,
            !g@.detonated,
            forall|i: int| 0 <= i < cfg.cells() ==> #[trigger] g@.world[i] == Item::Space,
    {
        let n = cfg.row * cfg.col;
        let mut world: Vec<Item> = Vec::new();
        let mut board: Vec<bool> = Vec::new();
        let mut i: usize = 0;
        while i < n
            invariant
                n == cfg.cells(),
                i <= n,
                world@.len() == i,
                board@.len() == i,
                forall|j: int| 0 <= j < i ==> #[trigger] world@[j] == Item::Space,
                forall|j: int| 0 <= j < i ==> !#[trigger] board@[j],
            decreases n - i,
        {
            world.push(Item::Space);
            board.push(false);
            i = i + 1;
        }
        Game { first: true, detonated: false, config: cfg, world, board }
    }

    /// A game on a given layout: `mines` flags, row by row, the cells that
    /// hold a mine. The first move then plays on this layout as it is.
    /// `None` when `mines` does not have one flag per cell or does not hold
    /// `cfg.mine` mines.
    pub fn with_mines(cfg: Config, mines: &Vec<bool>) -> (r: Option<Game>)
        requires
            cfg.wf(),
        ensures
            r is Some <==> mines@.len() == cfg.cells() && count_true(mines@) == cfg.mine,
            r matches Some(g) ==> {
                &&& g@.wf()
                &&& g@.config == cfg
                &&& !g@.first
                &&& !g@.detonated
                &&& mine_flags(g@.world) == mines@
                &&& forall|i: int| 0 <= i < cfg.cells() ==> !#[trigger] g@.board[i]
            },
    {
        let n = cfg.row * cfg.col;
        if mines.len() != n {
            return None;
        }
        let mut world: Vec<Item> = Vec::new();
        let mut board: Vec<bool> = Vec::new();
        let mut count: usize = 0;
        let mut i: usize = 0;
        while i < n
            invariant
                n == cfg.cells(),
                n == mines@.len(),
                i <= n,
                world@.len() == i,
                board@.len() == i,
                count == count_true(mines@.take(i as int)),
                forall|j: int| 0 <= j < i ==> #[trigger] world@[j] == if mines@[j] { Item::Mine } else { Item::Space },
                forall|j: int| 0 <= j < i ==> !#[trigger] board@[j],
            decreases n - i,
        {
            proof {
                lemma_count_true_push(mines@, i as int);
                lemma_count_true_bound(mines@.take(i as int));
            }
            if mines[i] {
                world.push(Item::Mine);
                count = count + 1;
            } else {
                world.push(Item::Space);
            }
            board.push(false);
            i = i + 1;
        }
        proof {
            assert(mines@.take(n as int) =~= mines@);
            assert(mine_flags(world@) =~= mines@);
        }
        if count != cfg.mine {
            return None;
        }
        let ghost w0 = world@;
        generate_number(&mut world, cfg.row, cfg.col);
        proof {
            lemma_numbers_complete(w0, world@, cfg.row as int, cfg.col as int);
        }
        Some(Game { first: false, detonated: false, config: cfg, world, board })
    }

    /// Lays a random placeholder board, shown before the first move.
    pub fn generate(&mut self)
        requires
            old(self)@.wf(),
            old(self)@.first,
        ensures
            final(self)@ == (GameView { world: final(self)@.world, ..old(self)@ }),
            final(self)@.wf(),
            old(self)@.config.generated(final(self)@.world),
    {
        self.world = generate_random(self.config);
    }

    /// Whether every safe cell is shown.
    pub fn judge(&self) -> (r: bool)
        requires
            self@.sized(),
        ensures
            r == self@.won(),
    {
        let n = self.board.len();
        let mut count: usize = 0;
        let mut i: usize = 0;
        while i < n
            invariant
                n == self.board@.len(),
                i <= n,
                count == count_true(self.board@.take(i as int)),
            decreases n - i,
        {
            proof {
                lemma_count_true_push(self.board@, i as int);
                lemma_count_true_bound(self.board@.take(i as int));
            }
            if self.board[i] {
                count = count + 1;
            }
            i = i + 1;
        }
        proof {
            assert(self.board@.take(n as int) =~= self.board@);
            lemma_count_true_bound(self.board@);
        }
        self.config.row * self.config.col - count == self.config.mine
    }

    /// The characters of the grid as the player sees it, row by row: hidden
    /// cells as '路', unless `all` asks for the whole layout.
    pub fn draw(&self, all: bool) -> (rows: Vec<Vec<char>>)
        requires
            self@.sized(),
        ensures
            rows@.len() == self@.rows(),
            forall|r: int| 0 <= r < self@.rows() ==> (#[trigger] rows@[r])@.len() == self@.cols(),
            forall|r: int, c: int|
                in_bounds(self@.rows(), self@.cols(), r, c) ==> #[trigger] rows@[r]@[c] == if all
                    || self@.board[idx(self@.cols(), r, c)] {
                    item_char(self@.world[idx(self@.cols(), r, c)])
                } else {
                    '路'
                },
    {
        let rows = self.config.row;
        let cols = self.config.col;
        let mut out: Vec<Vec<char>> = Vec::new();
        let mut r: usize = 0;
        while r < rows
            invariant
                self@.sized(),
                rows == self@.rows(),
                cols == self@.cols(),
                r <= rows,
                out@.len() == r,
                forall|r2: int| 0 <= r2 < r ==> (#[trigger] out@[r2])@.len() == cols,
                forall|r2: int, c2: int|
                    0 <= r2 < r && 0 <= c2 < cols ==> #[trigger] out@[r2]@[c2] == if all || self@.board[idx(
                        cols as int,
                        r2,
                        c2,
                    )] {
                        item_char(self@.world[idx(cols as int, r2, c2)])
                    } else {
                        '路'
                    },
            decreases rows - r,
        {
            let mut line: Vec<char> = Vec::new();
            let mut c: usize = 0;
            while c < cols
                invariant
                    self@.sized(),
                    rows == self@.rows(),
                    cols == self@.cols(),
                    r < rows,
                    c <= cols,
                    line@.len() == c,
                    forall|c2: int| 0 <= c2 < c ==> #[trigger] line@[c2] == if all || self@.board[idx(
                        cols as int,
                        r as int,
                        c2,
                    )] {
                        item_char(self@.world[idx(cols as int, r as int, c2)])
                    } else {
                        '路'
                    },
                decreases cols - c,
            {
                proof {
                    lemma_idx_bound(rows as int, cols as int, r as int, c as int);
                }
                let k = r * cols + c;
                if all || self.board[k] {
                    line.push(self.world[k].render());
                } else {
                    line.push('路');
                }
                c = c + 1;
            }
            out.push(line);
            r = r + 1;
        }
        out
    }

    pub fn config(&self) -> (r: Config)
        ensures
            r == self@.config,
    {
        self.config
    }

    /// The mine layout, row by row.
    pub fn world(&self) -> (r: &Vec<Item>)
        ensures
            r@ == self@.world,
    {
        &self.world
    }

    /// Which cells are shown, row by row.
    pub fn board(&self) -> (r: &Vec<bool>)
        ensures
            r@ == self@.board,
    {
        &self.board
    }

    /// No move has been accepted yet.
    pub fn is_first(&self) -> (r: bool)
        ensures
            r == self@.first,
    {
        self.first
    }

    /// The whole board is to be shown.
    pub fn detonated(&self) -> (r: bool)
        ensures
            r == self@.detonated,
    {
        self.detonated
    }

    /// Plays the cell `(x, y)` (0-based row and column). The first accepted
    /// move lays a fresh board on which that cell is safe.
    pub fn handle_move(&mut self, x: i32, y: i32) -> (r: Result<Outcome, GameError>)
        requires
            old(self)@.wf(),
        ensures
            move_post(old(self)@, final(self)@, x as int, y as int, r),
    {
        if x < 0 || y < 0 || x as usize >= self.config.row || y as usize >= self.config.col {
            return Err(GameError::InvalidInput);
        }
        let r = x as usize;
        let c = y as usize;
        proof {
            lemma_idx_bound(self@.rows(), self@.cols(), r as int, c as int);
        }
        if self.first {
            self.world = generate_excluding(self.config, r, c);
            self.first = false;
        }
        let k = r * self.config.col + c;
        match self.world[k] {
            Item::Mine => {
                self.detonated = true;
                Ok(Outcome::Lost)
            },
            Item::Number(n) => {
                if self.board[k] {
                    return Err(GameError::AlreadyRevealed);
                }
                self.board.set(k, true);
                if n == 0 {
                    let ghost v1 = self@;
                    self.spread(x, y);
                    proof {
                        lemma_flood_only_numbers(v1.layout(), v1.board, x as int, y as int, self@.board);
                    }
                }
                if self.judge() {
                    self.detonated = true;
                    Ok(Outcome::Won)
                } else {
                    Ok(Outcome::Continue)
                }
            },
            Item::Space => {
                proof {
                    assert(self@.config.generated(self@.world));
                    reveal(crate::board::numbered);
                    assert(self@.world[idx(self@.cols(), r as int, c as int)] != Item::Space);
                }
                Ok(Outcome::Continue)
            },
        }
    }

    /// Plays the move text `content` (row and column, counted from 1) and
    /// moves the shell to its failure or success screen when the game ends.
    pub fn handle_enter(&mut self, content: &Vec<char>, status: &mut Status) -> (r: Result<Outcome, GameError>)
        requires
            old(self)@.wf(),
        ensures
            final(self)@.wf(),
            move_of(content@) matches Err(e) ==> r == Err::<Outcome, GameError>(e) && final(self)@ == old(self)@,
            move_of(content@) matches Ok((x, y)) ==> move_post(old(self)@, final(self)@, x, y, r),
            *final(status) == match r {
                Ok(Outcome::Lost) => Status::Failed,
                Ok(Outcome::Won) => Status::Success,
                _ => *old(status),
            },
    {
        match parse_move(content) {
            Err(e) => Err(e),
            Ok((x, y)) => {
                let r = self.handle_move(x, y);
                match r {
                    Ok(Outcome::Lost) => {
                        *status = Status::Failed;
                    },
                    Ok(Outcome::Won) => {
                        *status = Status::Success;
                    },
                    _ => {},
                }
                r
            },
        }
    }

    /// Shows the neighbour of `(r, c)` at offset `(dr - 1, dc - 1)` if it is a
    /// hidden safe cell, and queues it when it is a zero.
    fn visit(
        &mut self,
        stack: &mut Vec<(usize, usize)>,
        r: usize,
        c: usize,
        dr: usize,
        dc: usize,
        Ghost(v): Ghost<Layout>,
        Ghost(b0): Ghost<Seq<bool>>,
        Ghost(si): Ghost<int>,
        Ghost(sj): Ghost<int>,
    )
        requires
            v.sized(),
            old(self)@.layout() == v,
            v.flood_inv(b0, si, sj, old(self)@.board, old(stack)@, (r as int, c as int)),
            v.pending(b0, si, sj, old(self)@.board, r as int, c as int),
            in_bounds(v.rows(), v.cols(), si, sj),
            in_bounds(v.rows(), v.cols(), r as int, c as int),
            dr <= 2,
            dc <= 2,
            !(dr == 1 && dc == 1),
        ensures
            final(self)@ == (GameView { board: final(self)@.board, ..old(self)@ }),
            v.flood_inv(b0, si, sj, final(self)@.board, final(stack)@, (r as int, c as int)),
            subset(old(self)@.board, final(self)@.board),
            flood_measure(v.cells(), final(self)@.board, final(stack)@) <= flood_measure(
                v.cells(),
                old(self)@.board,
                old(stack)@,
            ),
            v.shown(final(self)@.board, r as int, c as int, dr - 1, dc - 1),
    {
        let rows = self.config.row;
        let cols = self.config.col;
        proof {
            assert(rows <= rows * cols && cols <= rows * cols) by (nonlinear_arith)
                requires
                    r < rows,
                    c < cols,
            ;
        }
        if r + dr == 0 || c + dc == 0 {
            return;
        }
        let nr = r + dr - 1;
        let nc = c + dc - 1;
        if nr >= rows || nc >= cols {
            return;
        }
        proof {
            lemma_idx_bound(v.rows(), v.cols(), nr as int, nc as int);
        }
        let k = nr * cols + nc;
        let ghost b = self.board@;
        let ghost s = stack@;
        let ghost ri = r as int;
        let ghost ci = c as int;
        let ghost di = dr - 1;
        let ghost dj = dc - 1;
        assert(nbr_idx(v.cols(), ri, ci, di, dj) == k);
        if let Item::Number(n) = self.world[k] {
            if !self.board[k] {
                self.board.set(k, true);
                if n == 0 {
                    stack.push((nr, nc));
                }
                proof {
                    lemma_visit_reveal(v, b0, si, sj, b, s, ri, ci, di, dj, nr as int, nc as int, n == 0, self.board@, stack@);
                }
            }
        }
    }

    /// Flood-fill from `(i, j)`: shows its hidden safe neighbours, and keeps
    /// going from each newly shown zero cell.
    pub fn spread(&mut self, i: i32, j: i32)
        requires
            old(self)@.layout().sized(),
            old(self)@.board.len() == old(self)@.cells(),
            in_bounds(old(self)@.rows(), old(self)@.cols(), i as int, j as int),
        ensures
            final(self)@ == (GameView { board: final(self)@.board, ..old(self)@ }),
            old(self)@.layout().is_flood(old(self)@.board, i as int, j as int, final(self)@.board),
    {
        let ghost v = self@.layout();
        let ghost b0 = self@.board;
        let ghost v0 = self@;
        let ghost si = i as int;
        let ghost sj = j as int;
        let mut stack: Vec<(usize, usize)> = Vec::new();
        stack.push((i as usize, j as usize));
        proof {
            assert forall|r: int, c: int|
                in_bounds(v.rows(), v.cols(), r, c) && #[trigger] v.pending(b0, si, sj, b0, r, c) implies stack@.contains(
                    (r as usize, c as usize),
                ) || v.nbrs_shown(b0, r, c) || (r == -1 && c == -1) by {
                assert(stack@[0] == (i as usize, j as usize));
            }
        }
        while stack.len() > 0
            invariant
                v.sized(),
                in_bounds(v.rows(), v.cols(), si, sj),
                self@ == (GameView { board: self@.board, ..v0 }),
                v == v0.layout(),
                v.flood_inv(b0, si, sj, self@.board, stack@, (-1, -1)),
            decreases flood_measure(v.cells(), self@.board, stack@),
        {
            let ghost s0 = stack@;
            let ghost m0 = flood_measure(v.cells(), self@.board, stack@);
            let top = stack.pop().unwrap();
            let r = top.0;
            let c = top.1;
            proof {
                let b = self@.board;
                let s1 = stack@;
                assert(s0[s0.len() - 1] == top);
                assert forall|q: int| 0 <= q < s1.len() implies {
                    let e = #[trigger] s1[q];
                    in_bounds(v.rows(), v.cols(), e.0 as int, e.1 as int) && v.pending(b0, si, sj, b, e.0 as int, e.1 as int)
                } by {
                    assert(s1[q] == s0[q]);
                }
                assert forall|r2: int, c2: int|
                    in_bounds(v.rows(), v.cols(), r2, c2) && #[trigger] v.pending(b0, si, sj, b, r2, c2) implies s1.contains(
                        (r2 as usize, c2 as usize),
                    ) || v.nbrs_shown(b, r2, c2) || (r2 == r && c2 == c) by {
                    if s0.contains((r2 as usize, c2 as usize)) {
                        let q = choose|q: int| 0 <= q < s0.len() && s0[q] == (r2 as usize, c2 as usize);
                        if q < s1.len() {
                            assert(s1[q] == s0[q]);
                        }
                    }
                }
            }
            let mut k: usize = 0;
            while k < 9
                invariant
                    v.sized(),
                    in_bounds(v.rows(), v.cols(), si, sj),
                    in_bounds(v.rows(), v.cols(), r as int, c as int),
                    self@ == (GameView { board: self@.board, ..v0 }),
                v == v0.layout(),
                    v.flood_inv(b0, si, sj, self@.board, stack@, (r as int, c as int)),
                    v.pending(b0, si, sj, self@.board, r as int, c as int),
                    flood_measure(v.cells(), self@.board, stack@) < m0,
                    k <= 9,
                    forall|dr: int, dc: int| #![trigger nbr_idx(v.cols(), r as int, c as int, dr, dc)]
                        is_offset(dr, dc) && (dr + 1) * 3 + dc + 1 < k ==> v.shown(self@.board, r as int, c as int, dr, dc),
                decreases 9 - k,
            {
                if k != 4 {
                    let ghost b = self@.board;
                    self.visit(&mut stack, r, c, k / 3, k % 3, Ghost(v), Ghost(b0), Ghost(si), Ghost(sj));
                    proof {
                        let b2 = self@.board;
                        assert forall|dr: int, dc: int| #![trigger nbr_idx(v.cols(), r as int, c as int, dr, dc)]
                            is_offset(dr, dc) && (dr + 1) * 3 + dc + 1 < k + 1 implies v.shown(b2, r as int, c as int, dr, dc) by {
                            if (dr + 1) * 3 + dc + 1 < k {
                                assert(v.shown(b, r as int, c as int, dr, dc));
                                if in_bounds(v.rows(), v.cols(), r + dr, c + dc) {
                                    lemma_idx_bound(v.rows(), v.cols(), r + dr, c + dc);
                                }
                            } else {
                                assert(dr == k / 3 - 1 && dc == k % 3 - 1);
                            }
                        }
                        assert(v.pending(b0, si, sj, b2, r as int, c as int)) by {
                            lemma_idx_bound(v.rows(), v.cols(), r as int, c as int);
                        }
                    }
                }
                k = k + 1;
            }
            proof {
                let b = self@.board;
                lemma_count_true_bound(b);
                assert(v.nbrs_shown(b, r as int, c as int));
            }
        }
        proof {
            let b = self@.board;
            assert forall|r: int, c: int|
                in_bounds(v.rows(), v.cols(), r, c) && #[trigger] b[idx(v.cols(), r, c)] && !b0[idx(v.cols(), r, c)]
                    && v.world[idx(v.cols(), r, c)] == Item::Number(0) implies v.nbrs_shown(b, r, c) by {
                assert(v.pending(b0, si, sj, b, r, c));
            }
            assert(v.pending(b0, si, sj, b, si, sj));
        }
    }
}

} // verus!
