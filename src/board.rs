use vstd::prelude::*;
use crate::grid::{
    cell_index, empties_before, has_empty, lemma_empties_before, lemma_reservoir_pick, reservoir_pick, lemma_cell_index_bounds, lemma_cell_index_unique, lemma_double_power,
    lemma_put_line, lemma_put_line_valid, lemma_rest_index_range, line_count, line_len, line_of,
    moved, next_tile, put_line, resolve_grid, resolve_line, rest_index, spawned, tiles_fit,
    tiles_valid, MAX_TILE,
};
use crate::render::{board_text, render_grid};
use crate::util::{check_power_of_base, flip, is_power_of};

verus! {

/// A requested shift of every tile on the board, or no shift at all.
#[derive(Clone, Copy, Debug, PartialEq, Eq, Structural)]
pub enum Action {
    Up,
    Down,
    Left,
    Right,
    Noop,
}

/// Outcome of one move.
#[derive(Clone, Copy, Debug, PartialEq, Eq, Structural)]
pub enum Status {
    Valid,
    Invalid,
    Win,
    Lose,
}

/// A grid of `l` rows and `w` columns, stored row by row; 0 is an empty cell.
pub struct Board {
    l: usize,
    w: usize,
    goal: u32,
    cells: Vec<u32>,
}

/// Handles a line in place, from the edge the tiles move toward. Returns whether a
/// merge reached `goal` and whether anything changed.
fn resolve_line_in(s: &mut Vec<u32>, goal: u32) -> (r: (bool, bool))
    requires
        tiles_fit(old(s)@),
    ensures
        (final(s)@, r.0, r.1) == resolve_line(old(s)@, 0, goal),
        final(s)@.len() == old(s)@.len(),
        tiles_valid(old(s)@) ==> tiles_valid(final(s)@),
{
    let ghost s_in = s@;
    let ghost target = resolve_line(s@, 0, goal);
    let len = s.len();
    let mut changed = false;
    let mut m: usize = 0;
    while m < len
        invariant
            len == s@.len(),
            0 <= m <= len,
            forall|i: int| m <= i < len ==> s@[i] <= MAX_TILE,
            len == s_in.len(),
            s_in == old(s)@,
            target == resolve_line(s_in, 0, goal),
            tiles_valid(s_in) ==> tiles_valid(s@),
            ({
                let r = resolve_line(s@, m as int, goal);
                target == (r.0, r.1, changed || r.2)
            }),
        decreases len - m,
    {
        if s[m] == 0 {
            m += 1;
            continue;
        }
        let mut q: usize = m + 1;
        while q < len && s[q] == 0
            invariant
                len == s@.len(),
                m < q <= len,
                tiles_valid(s_in) ==> tiles_valid(s@),
                next_tile(s@, q as int) == next_tile(s@, m + 1),
            decreases len - q,
        {
            q += 1;
        }
        let ghost s0 = s@;
        let merge = q < len && s[q] == s[m];
        if merge {
            proof {
                if tiles_valid(s_in) {
                    lemma_double_power(s[m as int]);
                }
            }
            let v = s[m] * 2;
            s.set(m, v);
            s.set(q, 0);
            changed = true;
            if v == goal {
                assert(s@ =~= s0.update(m as int, (2 * s0[m as int]) as u32).update(q as int, 0));
                assert(resolve_line(s0, m as int, goal) == (s@, true, true));
                return (true, true);
            }
        }
        let ghost s1 = s@;
        proof {
            lemma_rest_index_range(s1, m as int);
        }
        let mut t: usize = m;
        while t > 0 && s[t - 1] == 0
            invariant
                len == s@.len(),
                t <= m < len,
                tiles_valid(s_in) ==> tiles_valid(s@),
                rest_index(s@, t as int) == rest_index(s@, m as int),
            decreases t,
        {
            t -= 1;
        }
        if t != m {
            let v = s[m];
            s.set(t, v);
            s.set(m, 0);
            changed = true;
        }
        m += 1;
    }
    (false, changed)
}

impl Board {
    /// Number of rows.
    pub closed spec fn rows(&self) -> nat {
        self.l as nat
    }

    /// Number of columns.
    pub closed spec fn cols(&self) -> nat {
        self.w as nat
    }

    /// Tile value that wins the game.
    pub closed spec fn target(&self) -> u32 {
        self.goal
    }

    /// The cells, row by row.
    pub closed spec fn grid(&self) -> Seq<u32> {
        self.cells@
    }

    /// Both dimensions are positive, the cells fill the grid exactly, their number
    /// fits a `u32`, and each cell is empty or holds a power of two.
    pub closed spec fn wf(&self) -> bool {
        &&& self.l >= 1
        &&& self.w >= 1
        &&& self.cells@.len() == self.l * self.w
        &&& self.cells@.len() < u32::MAX
        &&& tiles_valid(self.cells@)
    }

    /// Position in `cells` of the `m`-th cell of line `line` of move `a`.
    fn index_of(&self, a: Action, line: usize, m: usize) -> (k: usize)
        requires
            self.wf(),
            line < line_count(a, self.l as int, self.w as int),
            m < line_len(a, self.l as int, self.w as int),
        ensures
            k == cell_index(a, self.l as int, self.w as int, line as int, m as int),
            k < self.cells@.len(),
    {
        proof {
            lemma_cell_index_bounds(a, self.l as int, self.w as int, line as int, m as int);
        }
        match a {
            Action::Up => m * self.w + line,
            Action::Down => (self.l - 1 - m) * self.w + line,
            Action::Left => line * self.w + m,
            Action::Right => line * self.w + (self.w - 1 - m),
            Action::Noop => 0,
        }
    }

    /// Copies out line `line` of move `a`.
    fn read_line(&self, a: Action, line: usize, len: usize) -> (s: Vec<u32>)
        requires
            self.wf(),
            line < line_count(a, self.l as int, self.w as int),
            len == line_len(a, self.l as int, self.w as int),
        ensures
            s@ == line_of(self.cells@, a, self.l as int, self.w as int, line as int),
    {
        let ghost want = line_of(self.cells@, a, self.l as int, self.w as int, line as int);
        let mut s: Vec<u32> = Vec::new();
        let mut m: usize = 0;
        while m < len
            invariant
                self.wf(),
                line < line_count(a, self.l as int, self.w as int),
                len == line_len(a, self.l as int, self.w as int),
                want == line_of(self.cells@, a, self.l as int, self.w as int, line as int),
                m <= len,
                s@ == want.take(m as int),
            decreases len - m,
        {
            let k = self.index_of(a, line, m);
            s.push(self.cells[k]);
            m += 1;
            assert(s@ =~= want.take(m as int));
        }
        assert(s@ =~= want);
        s
    }

    /// Writes `s` back as line `line` of move `a`.
    fn write_line(&mut self, a: Action, line: usize, s: &Vec<u32>)
        requires
            old(self).wf(),
            line < line_count(a, old(self).l as int, old(self).w as int),
            s@.len() == line_len(a, old(self).l as int, old(self).w as int),
            tiles_valid(s@),
        ensures
            final(self).wf(),
            final(self).l == old(self).l,
            final(self).w == old(self).w,
            final(self).goal == old(self).goal,
            final(self).cells@ == put_line(
                old(self).cells@,
                a,
                old(self).l as int,
                old(self).w as int,
                line as int,
                s@,
                s@.len() as int,
            ),
    {
        let ghost g0 = self.cells@;
        let len = s.len();
        let mut m: usize = 0;
        while m < len
            invariant
                self.wf(),
                self.l == old(self).l,
                self.w == old(self).w,
                self.goal == old(self).goal,
                line < line_count(a, self.l as int, self.w as int),
                len == s@.len(),
                tiles_valid(s@),
                len == line_len(a, self.l as int, self.w as int),
                m <= len,
                self.cells@ == put_line(g0, a, self.l as int, self.w as int, line as int, s@, m as int),
            decreases len - m,
        {
            let k = self.index_of(a, line, m);
            self.cells.set(k, s[m]);
            m += 1;
        }
    }
}


impl Board {
    /// An empty `l` by `w` grid with one tile spawned on it.
    pub fn new(l: usize, w: usize, goal: u32) -> (b: Board)
        requires
            l >= 1,
            w >= 1,
            l * w < u32::MAX,
            is_power_of(goal as nat, 2),
        ensures
            b.wf(),
            b.rows() == l,
            b.cols() == w,
            b.target() == goal,
            spawned(Seq::new((l * w) as nat, |i: int| 0u32), b.grid()),
    {
        let n = l * w;
        let mut cells: Vec<u32> = Vec::new();
        let mut i: usize = 0;
        while i < n
            invariant
                i <= n,
                cells@ == Seq::new(i as nat, |j: int| 0u32),
            decreases n - i,
        {
            cells.push(0);
            i += 1;
            assert(cells@ =~= Seq::new(i as nat, |j: int| 0u32));
        }
        let mut b = Board { l, w, goal, cells };
        let ghost g0 = b.cells@;
        assert(l * w >= 1) by (nonlinear_arith)
            requires
                l >= 1,
                w >= 1,
        ;
        assert(g0.len() > 0 && g0[0] == 0);
        let full = b.spawn();
        b
    }

    /// Places a 2 or a 4, at even odds, in an empty cell chosen uniformly by a single
    /// pass over the grid (reservoir sampling): the `k`-th empty cell met replaces the
    /// candidate with probability `1 / (k + 1)`. Returns true, and changes nothing,
    /// when no cell is empty.
    fn spawn(&mut self) -> (full: bool)
        requires
            old(self).wf(),
        ensures
            final(self).wf(),
            final(self).l == old(self).l,
            final(self).w == old(self).w,
            final(self).goal == old(self).goal,
            full == !has_empty(old(self).cells@),
            full ==> final(self).cells@ == old(self).cells@,
            !full ==> spawned(old(self).cells@, final(self).cells@),
    {
        let size = self.cells.len();
        let mut draws: Vec<bool> = Vec::new();
        let mut denom: u32 = 1;
        let mut i: usize = 0;
        while i < size
            invariant
                self.wf(),
                size == self.cells@.len(),
                i <= size,
                draws@.len() == empties_before(self.cells@, i as int),
                denom == draws@.len() + 1,
                draws@.len() > 0 ==> draws@[0],
            decreases size - i,
        {
            proof {
                lemma_empties_before(self.cells@, i as int);
            }
            if self.cells[i] == 0 {
                draws.push(flip(1, denom));
                denom += 1;
            }
            i += 1;
        }
        let four = draws.len() > 0 && flip(1, 2);
        proof {
            lemma_empties_before(self.cells@, size as int);
            lemma_reservoir_pick(self.cells@, draws@, size as int);
        }
        self.spawn_with(&draws, four)
    }

    /// Places a tile where reservoir sampling with the given draws lands: the last
    /// empty cell whose draw is true, where the `k`-th empty cell met reads
    /// `draws[k]`. The tile is a 4 if `four`, else a 2. Returns true, and changes
    /// nothing, when no draw picks a cell.
    pub fn spawn_with(&mut self, draws: &Vec<bool>, four: bool) -> (full: bool)
        requires
            old(self).wf(),
            draws@.len() >= empties_before(old(self).grid(), old(self).grid().len() as int),
        ensures
            final(self).wf(),
            final(self).rows() == old(self).rows(),
            final(self).cols() == old(self).cols(),
            final(self).target() == old(self).target(),
            match reservoir_pick(old(self).grid(), draws@, old(self).grid().len() as int) {
                None => full && final(self).grid() == old(self).grid(),
                Some(i) => !full && final(self).grid() == old(self).grid().update(
                    i,
                    if four {
                        4u32
                    } else {
                        2u32
                    },
                ),
            },
    {
        let size = self.cells.len();
        let mut index = size;
        let mut n: usize = 0;
        let mut i: usize = 0;
        while i < size
            invariant
                self.wf(),
                size == self.cells@.len(),
                i <= size,
                n == empties_before(self.cells@, i as int),
                draws@.len() >= empties_before(self.cells@, size as int),
                match reservoir_pick(self.cells@, draws@, i as int) {
                    None => index == size,
                    Some(p) => index == p && p < i && self.cells@[p] == 0,
                },
            decreases size - i,
        {
            proof {
                lemma_empties_before(self.cells@, size as int);
                lemma_empties_before(self.cells@, i as int + 1);
            }
            if self.cells[i] == 0 {
                if draws[n] {
                    index = i;
                }
                n += 1;
            }
            i += 1;
        }
        if index == size {
            return true;
        }
        let v = if four {
            4
        } else {
            2
        };
        proof {
            reveal_with_fuel(is_power_of, 3);
        }
        self.cells.set(index, v);
        false
    }

    /// Shifts every tile toward the side `action` names, merging equal tiles that meet,
    /// and spawns a tile when anything changed. The lines of the move are handled in
    /// order; a merge that reaches the goal ends the move at once.
    pub fn act(&mut self, action: Action) -> (st: Status)
        requires
            old(self).wf(),
            tiles_fit(old(self).grid()),
        ensures
            final(self).wf(),
            final(self).rows() == old(self).rows(),
            final(self).cols() == old(self).cols(),
            final(self).target() == old(self).target(),
            ({
                let r = moved(
                    old(self).grid(),
                    action,
                    old(self).rows() as int,
                    old(self).cols() as int,
                    old(self).target(),
                );
                &&& r.1 ==> st == Status::Win && final(self).grid() == r.0
                &&& !r.1 && !r.2 ==> st == Status::Invalid && final(self).grid() == r.0
                &&& !r.1 && r.2 && has_empty(r.0) ==> st == Status::Valid && spawned(
                    r.0,
                    final(self).grid(),
                )
                &&& !r.1 && r.2 && !has_empty(r.0) ==> st == Status::Lose && final(self).grid()
                    == r.0
            }),
    {
        let ghost g0 = self.cells@;
        let ghost target = moved(g0, action, self.l as int, self.w as int, self.goal);
        let (count, len) = match action {
            Action::Up | Action::Down => (self.w, self.l),
            Action::Left | Action::Right => (self.l, self.w),
            Action::Noop => (0, 0),
        };
        let mut changed = false;
        let mut line: usize = 0;
        while line < count
            invariant
                self.wf(),
                self.l == old(self).l,
                self.w == old(self).w,
                self.goal == old(self).goal,
                g0 == old(self).cells@,
                g0.len() == self.cells@.len(),
                tiles_fit(g0),
                target == moved(g0, action, self.l as int, self.w as int, self.goal),
                count == line_count(action, self.l as int, self.w as int),
                len == line_len(action, self.l as int, self.w as int),
                line <= count,
                ({
                    let r = resolve_grid(self.cells@, action, self.l as int, self.w as int, self.goal, line as int);
                    target == (r.0, r.1, changed || r.2)
                }),
                forall|line2: int, m: int|
                    line <= line2 < count && 0 <= m < len ==> self.cells@[cell_index(
                        action,
                        self.l as int,
                        self.w as int,
                        line2,
                        m,
                    )] == g0[cell_index(action, self.l as int, self.w as int, line2, m)],
            decreases count - line,
        {
            let ghost l = self.l as int;
            let ghost w = self.w as int;
            let ghost g1 = self.cells@;
            let mut s = self.read_line(action, line, len);
            proof {
                assert forall|m: int| 0 <= m < s@.len() implies s@[m] <= MAX_TILE by {
                    lemma_cell_index_bounds(action, l, w, line as int, m);
                }
            }
            proof {
                assert forall|m: int| 0 <= m < s@.len() implies s@[m] == 0 || is_power_of(s@[m] as nat, 2) by {
                    lemma_cell_index_bounds(action, l, w, line as int, m);
                }
            }
            let (won, ch) = resolve_line_in(&mut s, self.goal);
            proof {
                lemma_put_line_valid(self.cells@, action, l, w, line as int, s@, len as int);
            }
            self.write_line(action, line, &s);
            proof {
                lemma_put_line(g1, action, l, w, line as int, s@, len as int);
                assert forall|line2: int, m2: int|
                    line < line2 < count && 0 <= m2 < len implies self.cells@[cell_index(
                        action,
                        l,
                        w,
                        line2,
                        m2,
                    )] == g0[cell_index(action, l, w, line2, m2)] by {
                    assert forall|m: int| 0 <= m < len implies cell_index(action, l, w, line as int, m)
                        != cell_index(action, l, w, line2, m2) by {
                        lemma_cell_index_unique(action, l, w, line as int, m, line2, m2);
                    }
                    lemma_cell_index_bounds(action, l, w, line2, m2);
                }
            }
            if ch {
                changed = true;
            }
            if won {
                return Status::Win;
            }
            line += 1;
        }
        if changed {
            if self.spawn() {
                Status::Lose
            } else {
                Status::Valid
            }
        } else {
            Status::Invalid
        }
    }
}

impl Board {
    /// A board holding the given cells, row by row, or `None` when the dimensions
    /// are not positive, do not match the number of cells, or give more cells than a
    /// `u32` counts, when a cell is neither empty nor a power of two, or when `goal`
    /// is not a power of two.
    pub fn from_cells(l: usize, w: usize, goal: u32, cells: Vec<u32>) -> (r: Option<Board>)
        ensures
            r.is_some() <==> (l >= 1 && w >= 1 && cells@.len() == l * w && cells@.len() < u32::MAX
                && tiles_valid(cells@) && is_power_of(goal as nat, 2)),
            r matches Some(b) ==> b.wf() && b.rows() == l && b.cols() == w && b.target() == goal
                && b.grid() == cells@,
    {
        if l == 0 || w == 0 || !check_power_of_base(goal, 2) {
            return None;
        }
        let mut i: usize = 0;
        while i < cells.len()
            invariant
                i <= cells@.len(),
                forall|j: int| 0 <= j < i ==> cells@[j] == 0 || is_power_of(cells@[j] as nat, 2),
            decreases cells@.len() - i,
        {
            if cells[i] != 0 && !check_power_of_base(cells[i], 2) {
                return None;
            }
            i += 1;
        }
        match l.checked_mul(w) {
            Some(n) => {
                if n == cells.len() && n < u32::MAX as usize {
                    Some(Board { l, w, goal, cells })
                } else {
                    None
                }
            },
            None => {
                proof {
                    assert(l * w >= w) by (nonlinear_arith)
                        requires
                            l >= 1,
                    ;
                }
                None
            },
        }
    }

    /// Number of rows.
    pub fn length(&self) -> (r: usize)
        ensures
            r == self.rows(),
    {
        self.l
    }

    /// Number of columns.
    pub fn width(&self) -> (r: usize)
        ensures
            r == self.cols(),
    {
        self.w
    }

    /// Tile value that wins the game.
    pub fn goal(&self) -> (r: u32)
        ensures
            r == self.target(),
    {
        self.goal
    }

    /// The cells, row by row; 0 is an empty cell.
    pub fn cells(&self) -> (r: &Vec<u32>)
        ensures
            r@ == self.grid(),
    {
        &self.cells
    }

    /// The board as bordered text: five characters a cell, empty cells blank,
    /// values aligned right.
    pub fn to_string(&self) -> (r: String)
        requires
            self.wf(),
        ensures
            r@ == board_text(self.grid(), self.rows() as int, self.cols() as int),
    {
        render_grid(&self.cells, self.l, self.w)
    }

    /// Whether every tile can still be doubled inside a `u32`, which `act` needs.
    pub fn tiles_fit(&self) -> (r: bool)
        ensures
            r == tiles_fit(self.grid()),
    {
        let mut i: usize = 0;
        while i < self.cells.len()
            invariant
                i <= self.cells@.len(),
                forall|j: int| 0 <= j < i ==> self.cells@[j] <= MAX_TILE,
            decreases self.cells@.len() - i,
        {
            if self.cells[i] > MAX_TILE {
                return false;
            }
            i += 1;
        }
        true
    }
}

} // verus!
