use vstd::prelude::*;
use crate::board::Action;
use crate::util::is_power_of;

verus! {

/// Largest tile value that can still be doubled inside a `u32`.
pub const MAX_TILE: u32 = 0x8000_0000 - 1;

/// Every cell can be doubled without leaving `u32`.
pub open spec fn tiles_fit(g: Seq<u32>) -> bool {
    forall|i: int| 0 <= i < g.len() ==> g[i] <= MAX_TILE
}

/// Every cell is empty or holds a power of two.
pub open spec fn tiles_valid(g: Seq<u32>) -> bool {
    forall|i: int| 0 <= i < g.len() ==> g[i] == 0 || is_power_of(g[i] as nat, 2)
}

/// Doubling a power of two that fits gives a power of two.
pub proof fn lemma_double_power(v: u32)
    requires
        is_power_of(v as nat, 2),
        v <= MAX_TILE,
    ensures
        is_power_of((2 * v) as u32 as nat, 2),
{
    assert(((2 * v) as u32 as nat) / 2 == v as nat);
}

pub proof fn lemma_put_line_valid(g: Seq<u32>, a: Action, l: int, w: int, line: int, s: Seq<u32>, n: int)
    requires
        l > 0,
        w > 0,
        g.len() == l * w,
        0 <= line < line_count(a, l, w),
        0 <= n <= line_len(a, l, w),
        s.len() == line_len(a, l, w),
        tiles_valid(g),
        tiles_valid(s),
    ensures
        tiles_valid(put_line(g, a, l, w, line, s, n)),
    decreases n,
{
    if n > 0 {
        lemma_put_line_valid(g, a, l, w, line, s, n - 1);
        lemma_put_line(g, a, l, w, line, s, n - 1);
        lemma_cell_index_bounds(a, l, w, line, n - 1);
    }
}

/// Some cell of `g` is empty.
pub open spec fn has_empty(g: Seq<u32>) -> bool {
    exists|i: int| 0 <= i < g.len() && g[i] == 0
}

/// `after` is `before` with one empty cell filled by a 2 or a 4.
pub open spec fn spawned(before: Seq<u32>, after: Seq<u32>) -> bool {
    exists|i: int|
        0 <= i < before.len() && before[i] == 0 && (after[i] == 2 || after[i] == 4) && after
            == before.update(i, after[i])
}

/// Number of empty cells among the first `n` cells of `g`.
pub open spec fn empties_before(g: Seq<u32>, n: int) -> nat
    decreases n,
{
    if n <= 0 {
        0
    } else if g[n - 1] == 0 {
        empties_before(g, n - 1) + 1
    } else {
        empties_before(g, n - 1)
    }
}

/// The cell that a single pass of reservoir sampling over the first `n` cells keeps:
/// the last empty cell whose draw came up true, where the `k`-th empty cell met
/// (from 0) reads `draws[k]`; `None` when no draw came up true.
pub open spec fn reservoir_pick(g: Seq<u32>, draws: Seq<bool>, n: int) -> Option<int>
    decreases n,
{
    if n <= 0 {
        None
    } else if g[n - 1] == 0 && draws[empties_before(g, n - 1) as int] {
        Some(n - 1)
    } else {
        reservoir_pick(g, draws, n - 1)
    }
}

pub proof fn lemma_empties_before(g: Seq<u32>, n: int)
    requires
        0 <= n <= g.len(),
    ensures
        empties_before(g, n) <= n,
        empties_before(g, n) > 0 <==> exists|i: int| 0 <= i < n && g[i] == 0,
        forall|i: int| 0 <= i <= n ==> #[trigger] empties_before(g, i) <= empties_before(g, n),
    decreases n,
{
    if n > 0 {
        lemma_empties_before(g, n - 1);
        if g[n - 1] == 0 {
            assert(0 <= n - 1 < n && g[n - 1] == 0);
        }
    }
}

/// With the first draw true, the pick exists exactly when some cell is empty, and it
/// is an empty cell.
pub proof fn lemma_reservoir_pick(g: Seq<u32>, draws: Seq<bool>, n: int)
    requires
        0 <= n <= g.len(),
        draws.len() >= empties_before(g, n),
    ensures
        reservoir_pick(g, draws, n) matches Some(i) ==> 0 <= i < n && g[i] == 0,
        draws.len() > 0 && draws[0] && empties_before(g, n) > 0 ==> reservoir_pick(g, draws, n).is_some(),
    decreases n,
{
    if n > 0 {
        lemma_empties_before(g, n);
        lemma_reservoir_pick(g, draws, n - 1);
    }
}

/// Sum of all values of `s`.
pub open spec fn total(s: Seq<u32>) -> int
    decreases s.len(),
{
    if s.len() == 0 {
        0
    } else {
        total(s.drop_last()) + s.last()
    }
}

// ---- one line, indexed from the edge that the tiles move toward ----
/// Index of the first nonempty cell of `s` at or after `q`, or `s.len()` if there is none.
pub open spec fn next_tile(s: Seq<u32>, q: int) -> int
    decreases s.len() - q,
{
    if q < 0 || q >= s.len() {
        s.len() as int
    } else if s[q] != 0 {
        q
    } else {
        next_tile(s, q + 1)
    }
}

/// Where the tile at `m` comes to rest when it slides toward index 0: the lowest
/// `t <= m` such that every cell in `[t, m)` is empty.
pub open spec fn rest_index(s: Seq<u32>, m: int) -> int
    decreases m,
{
    if m <= 0 || s[m - 1] != 0 {
        m
    } else {
        rest_index(s, m - 1)
    }
}

/// Result of handling the cells of a line from index `m` on: the final line, whether a
/// merge reached `goal` (which stops the work at once), and whether anything changed.
/// Each nonempty cell is first merged with the next tile behind it if the two are
/// equal, then slid toward index 0.
pub open spec fn resolve_line(s: Seq<u32>, m: int, goal: u32) -> (Seq<u32>, bool, bool)
    decreases s.len() - m,
    via resolve_line_decreases
{
    if m < 0 || m >= s.len() {
        (s, false, false)
    } else if s[m] == 0 {
        resolve_line(s, m + 1, goal)
    } else {
        let q = next_tile(s, m + 1);
        let merge = q < s.len() && s[q] == s[m];
        let s1 = if merge {
            s.update(m, (2 * s[m]) as u32).update(q, 0)
        } else {
            s
        };
        if merge && s1[m] == goal {
            (s1, true, true)
        } else {
            let t = rest_index(s1, m);
            let s2 = if t != m {
                s1.update(t, s1[m]).update(m, 0)
            } else {
                s1
            };
            let r = resolve_line(s2, m + 1, goal);
            (r.0, r.1, merge || t != m || r.2)
        }
    }
}

#[via_fn]
proof fn resolve_line_decreases(s: Seq<u32>, m: int, goal: u32) {
    if 0 <= m < s.len() && s[m] != 0 {
        let q = next_tile(s, m + 1);
        lemma_next_tile_range(s, m + 1);
        let merge = q < s.len() && s[q] == s[m];
        let s1 = if merge {
            s.update(m, (2 * s[m]) as u32).update(q, 0)
        } else {
            s
        };
        lemma_rest_index_range(s1, m);
    }
}

pub proof fn lemma_next_tile_range(s: Seq<u32>, q: int)
    requires
        0 <= q,
    ensures
        q <= next_tile(s, q) <= s.len() || (q > s.len() && next_tile(s, q) == s.len()),
        next_tile(s, q) < s.len() ==> s[next_tile(s, q)] != 0,
        forall|i: int| q <= i < next_tile(s, q) ==> s[i] == 0,
    decreases s.len() - q,
{
    if q < s.len() && s[q] == 0 {
        lemma_next_tile_range(s, q + 1);
    }
}

pub proof fn lemma_rest_index_range(s: Seq<u32>, m: int)
    requires
        0 <= m < s.len(),
    ensures
        0 <= rest_index(s, m) <= m,
        forall|i: int| rest_index(s, m) <= i < m ==> s[i] == 0,
        rest_index(s, m) > 0 ==> s[rest_index(s, m) - 1] != 0,
    decreases m,
{
    if m > 0 && s[m - 1] == 0 {
        lemma_rest_index_range(s, m - 1);
    }
}

// ---- the board: `l` rows of `w` cells, row-major ----
/// Number of lines that a move handles: columns for vertical moves, rows for horizontal ones.
pub open spec fn line_count(a: Action, l: int, w: int) -> int {
    match a {
        Action::Up | Action::Down => w,
        Action::Left | Action::Right => l,
        Action::Noop => 0,
    }
}

/// Number of cells in each line of a move.
pub open spec fn line_len(a: Action, l: int, w: int) -> int {
    match a {
        Action::Up | Action::Down => l,
        Action::Left | Action::Right => w,
        Action::Noop => 0,
    }
}

/// Row of the `m`-th cell of line `line`, counted from the edge the tiles move toward.
pub open spec fn row_of(a: Action, l: int, w: int, line: int, m: int) -> int {
    match a {
        Action::Up => m,
        Action::Down => l - 1 - m,
        Action::Left | Action::Right => line,
        Action::Noop => 0,
    }
}

/// Column of the `m`-th cell of line `line`, counted from the edge the tiles move toward.
pub open spec fn col_of(a: Action, l: int, w: int, line: int, m: int) -> int {
    match a {
        Action::Up | Action::Down => line,
        Action::Left => m,
        Action::Right => w - 1 - m,
        Action::Noop => 0,
    }
}

/// Position in the flattened grid of the `m`-th cell of line `line`.
pub open spec fn cell_index(a: Action, l: int, w: int, line: int, m: int) -> int {
    row_of(a, l, w, line, m) * w + col_of(a, l, w, line, m)
}

/// The cells of line `line`, from the edge the tiles move toward.
pub open spec fn line_of(g: Seq<u32>, a: Action, l: int, w: int, line: int) -> Seq<u32> {
    Seq::new(line_len(a, l, w) as nat, |m: int| g[cell_index(a, l, w, line, m)])
}

/// `g` with the first `n` cells of line `line` replaced by those of `s`.
pub open spec fn put_line(g: Seq<u32>, a: Action, l: int, w: int, line: int, s: Seq<u32>, n: int) -> Seq<u32>
    decreases n,
{
    if n <= 0 {
        g
    } else {
        put_line(g, a, l, w, line, s, n - 1).update(cell_index(a, l, w, line, n - 1), s[n - 1])
    }
}

/// Result of a move from line `line` on: the grid, whether a merge reached `goal`
/// (the lines after it are then left as they are), and whether anything changed.
pub open spec fn resolve_grid(g: Seq<u32>, a: Action, l: int, w: int, goal: u32, line: int) -> (Seq<u32>, bool, bool)
    decreases line_count(a, l, w) - line,
{
    if line < 0 || line >= line_count(a, l, w) {
        (g, false, false)
    } else {
        let r = resolve_line(line_of(g, a, l, w, line), 0, goal);
        let g1 = put_line(g, a, l, w, line, r.0, line_len(a, l, w));
        if r.1 {
            (g1, true, r.2)
        } else {
            let r2 = resolve_grid(g1, a, l, w, goal, line + 1);
            (r2.0, r2.1, r.2 || r2.2)
        }
    }
}

/// The whole move `a` on grid `g`.
pub open spec fn moved(g: Seq<u32>, a: Action, l: int, w: int, goal: u32) -> (Seq<u32>, bool, bool) {
    resolve_grid(g, a, l, w, goal, 0)
}

pub proof fn lemma_put_line(g: Seq<u32>, a: Action, l: int, w: int, line: int, s: Seq<u32>, n: int)
    requires
        l > 0,
        w > 0,
        g.len() == l * w,
        0 <= line < line_count(a, l, w),
        0 <= n <= line_len(a, l, w),
    ensures
        put_line(g, a, l, w, line, s, n).len() == g.len(),
        forall|k: int|
            0 <= k < g.len() && (forall|m: int| 0 <= m < n ==> cell_index(a, l, w, line, m) != k)
                ==> put_line(g, a, l, w, line, s, n)[k] == g[k],
    decreases n,
{
    if n > 0 {
        lemma_put_line(g, a, l, w, line, s, n - 1);
        lemma_cell_index_bounds(a, l, w, line, n - 1);
    }
}

// ---- index arithmetic ----
pub proof fn lemma_cell_index_bounds(a: Action, l: int, w: int, line: int, m: int)
    requires
        l > 0,
        w > 0,
        0 <= line < line_count(a, l, w),
        0 <= m < line_len(a, l, w),
    ensures
        0 <= row_of(a, l, w, line, m) < l,
        0 <= col_of(a, l, w, line, m) < w,
        0 <= row_of(a, l, w, line, m) * w,
        row_of(a, l, w, line, m) * w + w <= l * w,
        0 <= cell_index(a, l, w, line, m) < l * w,
{
    let r = row_of(a, l, w, line, m);
    assert(0 <= r * w && r * w + w <= l * w) by (nonlinear_arith)
        requires
            0 <= r < l,
            w > 0,
    ;
}

pub proof fn lemma_cell_index_unique(a: Action, l: int, w: int, line1: int, m1: int, line2: int, m2: int)
    requires
        l > 0,
        w > 0,
        0 <= line1 < line_count(a, l, w),
        0 <= m1 < line_len(a, l, w),
        0 <= line2 < line_count(a, l, w),
        0 <= m2 < line_len(a, l, w),
        line1 != line2 || m1 != m2,
    ensures
        cell_index(a, l, w, line1, m1) != cell_index(a, l, w, line2, m2),
{
    let r1 = row_of(a, l, w, line1, m1);
    let r2 = row_of(a, l, w, line2, m2);
    let c1 = col_of(a, l, w, line1, m1);
    let c2 = col_of(a, l, w, line2, m2);
    lemma_cell_index_bounds(a, l, w, line1, m1);
    lemma_cell_index_bounds(a, l, w, line2, m2);
    if r1 < r2 {
        assert(r1 * w + w <= r2 * w) by (nonlinear_arith)
            requires
                r1 < r2,
                w > 0,
        ;
    } else if r2 < r1 {
        assert(r2 * w + w <= r1 * w) by (nonlinear_arith)
            requires
                r2 < r1,
                w > 0,
        ;
    }
}


// ---- facts about a single line ----
pub proof fn lemma_resolve_line_len(s: Seq<u32>, m: int, goal: u32)
    requires
        0 <= m,
    ensures
        resolve_line(s, m, goal).0.len() == s.len(),
    decreases s.len() - m,
{
    if m < s.len() {
        if s[m] == 0 {
            lemma_resolve_line_len(s, m + 1, goal);
        } else {
            let q = next_tile(s, m + 1);
            lemma_next_tile_range(s, m + 1);
            let merge = q < s.len() && s[q] == s[m];
            let s1 = if merge {
                s.update(m, (2 * s[m]) as u32).update(q, 0)
            } else {
                s
            };
            lemma_rest_index_range(s1, m);
            let t = rest_index(s1, m);
            let s2 = if t != m {
                s1.update(t, s1[m]).update(m, 0)
            } else {
                s1
            };
            lemma_resolve_line_len(s2, m + 1, goal);
        }
    }
}

/// Changing one cell changes the total by the difference.
pub proof fn lemma_total_update(s: Seq<u32>, i: int, v: u32)
    requires
        0 <= i < s.len(),
    ensures
        total(s.update(i, v)) == total(s) - s[i] + v,
    decreases s.len(),
{
    if i == s.len() - 1 {
        assert(s.update(i, v).drop_last() =~= s.drop_last());
    } else {
        assert(s.update(i, v).drop_last() =~= s.drop_last().update(i, v));
        lemma_total_update(s.drop_last(), i, v);
    }
}

pub proof fn lemma_total_take(s: Seq<u32>, n: int)
    requires
        0 < n <= s.len(),
    ensures
        total(s.take(n)) == total(s.take(n - 1)) + s[n - 1],
{
    assert(s.take(n).drop_last() =~= s.take(n - 1));
}

pub proof fn lemma_line_total(s: Seq<u32>, m: int, goal: u32)
    requires
        0 <= m,
        forall|i: int| m <= i < s.len() ==> s[i] <= MAX_TILE,
    ensures
        total(resolve_line(s, m, goal).0) == total(s),
    decreases s.len() - m,
{
    if m < s.len() {
        if s[m] == 0 {
            lemma_line_total(s, m + 1, goal);
        } else {
            let q = next_tile(s, m + 1);
            lemma_next_tile_range(s, m + 1);
            let merge = q < s.len() && s[q] == s[m];
            let s1 = if merge {
                s.update(m, (2 * s[m]) as u32).update(q, 0)
            } else {
                s
            };
            if merge {
                lemma_total_update(s, m, (2 * s[m]) as u32);
                lemma_total_update(s.update(m, (2 * s[m]) as u32), q, 0);
            }
            lemma_rest_index_range(s1, m);
            let t = rest_index(s1, m);
            let s2 = if t != m {
                s1.update(t, s1[m]).update(m, 0)
            } else {
                s1
            };
            if t != m {
                lemma_total_update(s1, t, s1[m]);
                lemma_total_update(s1.update(t, s1[m]), m, 0);
            }
            if !(merge && s1[m] == goal) {
                lemma_line_total(s2, m + 1, goal);
            }
        }
    }
}

/// A tile of line `s` can move: an empty cell lies in front of it, or the next tile
/// behind it holds the same value.
pub open spec fn line_can_shift(s: Seq<u32>) -> bool {
    exists|m: int|
        0 <= m < s.len() && #[trigger] s[m] != 0 && ((m > 0 && s[m - 1] == 0) || (next_tile(s, m + 1)
            < s.len() && s[next_tile(s, m + 1)] == s[m]))
}

/// Some line of move `a` has a tile that can move.
pub open spec fn can_shift(g: Seq<u32>, a: Action, l: int, w: int) -> bool {
    exists|line: int| 0 <= line < line_count(a, l, w) && #[trigger] line_can_shift(line_of(g, a, l, w, line))
}

pub proof fn lemma_line_stuck(s: Seq<u32>, m: int, goal: u32)
    requires
        0 <= m,
        !line_can_shift(s),
    ensures
        resolve_line(s, m, goal) == (s, false, false),
    decreases s.len() - m,
{
    if m < s.len() {
        if s[m] != 0 {
            lemma_next_tile_range(s, m + 1);
            assert(!((m > 0 && s[m - 1] == 0) || (next_tile(s, m + 1) < s.len() && s[next_tile(s, m + 1)] == s[m])));
        }
        lemma_line_stuck(s, m + 1, goal);
    }
}

pub proof fn lemma_line_unchanged(s: Seq<u32>, m: int, goal: u32)
    requires
        0 <= m,
        !resolve_line(s, m, goal).1,
        !resolve_line(s, m, goal).2,
    ensures
        resolve_line(s, m, goal).0 == s,
    decreases s.len() - m,
{
    if m < s.len() {
        lemma_line_unchanged(s, m + 1, goal);
    }
}

// ---- facts about a whole move ----
pub proof fn lemma_put_line_same(g: Seq<u32>, a: Action, l: int, w: int, line: int, n: int)
    requires
        l > 0,
        w > 0,
        g.len() == l * w,
        0 <= line < line_count(a, l, w),
        0 <= n <= line_len(a, l, w),
    ensures
        put_line(g, a, l, w, line, line_of(g, a, l, w, line), n) == g,
    decreases n,
{
    if n > 0 {
        lemma_put_line_same(g, a, l, w, line, n - 1);
        lemma_cell_index_bounds(a, l, w, line, n - 1);
        assert(g.update(cell_index(a, l, w, line, n - 1), g[cell_index(a, l, w, line, n - 1)]) =~= g);
    }
}

pub proof fn lemma_put_line_total(g: Seq<u32>, a: Action, l: int, w: int, line: int, s: Seq<u32>, n: int)
    requires
        l > 0,
        w > 0,
        g.len() == l * w,
        0 <= line < line_count(a, l, w),
        0 <= n <= line_len(a, l, w),
        s.len() == line_len(a, l, w),
    ensures
        total(put_line(g, a, l, w, line, s, n)) == total(g) - total(line_of(g, a, l, w, line).take(n))
            + total(s.take(n)),
    decreases n,
{
    if n == 0 {
        assert(line_of(g, a, l, w, line).take(0) =~= Seq::<u32>::empty());
        assert(s.take(0) =~= Seq::<u32>::empty());
    } else {
        let k = cell_index(a, l, w, line, n - 1);
        lemma_put_line_total(g, a, l, w, line, s, n - 1);
        lemma_put_line(g, a, l, w, line, s, n - 1);
        lemma_cell_index_bounds(a, l, w, line, n - 1);
        assert forall|m: int| 0 <= m < n - 1 implies cell_index(a, l, w, line, m) != k by {
            lemma_cell_index_unique(a, l, w, line, m, line, n - 1);
        }
        lemma_total_update(put_line(g, a, l, w, line, s, n - 1), k, s[n - 1]);
        lemma_total_take(line_of(g, a, l, w, line), n);
        lemma_total_take(s, n);
    }
}

/// Cells of the lines of move `a` from `line` on hold tiles that can be doubled.
pub open spec fn lines_fit(g: Seq<u32>, a: Action, l: int, w: int, line: int) -> bool {
    forall|line2: int, m: int|
        line <= line2 < line_count(a, l, w) && 0 <= m < line_len(a, l, w) ==> g[cell_index(a, l, w, line2, m)]
            <= MAX_TILE
}

pub proof fn lemma_put_line_keeps_later(g: Seq<u32>, a: Action, l: int, w: int, line: int, s: Seq<u32>)
    requires
        l > 0,
        w > 0,
        g.len() == l * w,
        0 <= line < line_count(a, l, w),
    ensures
        put_line(g, a, l, w, line, s, line_len(a, l, w)).len() == g.len(),
        forall|line2: int, m2: int|
            line < line2 < line_count(a, l, w) && 0 <= m2 < line_len(a, l, w) ==> put_line(g, a, l, w, line, s, line_len(a, l, w))[cell_index(a, l, w, line2, m2)]
                == g[cell_index(a, l, w, line2, m2)],
{
    lemma_put_line(g, a, l, w, line, s, line_len(a, l, w));
    assert forall|line2: int, m2: int|
        line < line2 < line_count(a, l, w) && 0 <= m2 < line_len(a, l, w) implies put_line(g, a, l, w, line, s, line_len(a, l, w))[cell_index(a, l, w, line2, m2)]
            == g[cell_index(a, l, w, line2, m2)] by {
        assert forall|m: int| 0 <= m < line_len(a, l, w) implies cell_index(a, l, w, line, m) != cell_index(a, l, w, line2, m2) by {
            lemma_cell_index_unique(a, l, w, line, m, line2, m2);
        }
        lemma_cell_index_bounds(a, l, w, line2, m2);
    }
}

pub proof fn lemma_grid_total(g: Seq<u32>, a: Action, l: int, w: int, goal: u32, line: int)
    requires
        l > 0,
        w > 0,
        g.len() == l * w,
        0 <= line,
        lines_fit(g, a, l, w, line),
    ensures
        total(resolve_grid(g, a, l, w, goal, line).0) == total(g),
    decreases line_count(a, l, w) - line,
{
    if line < line_count(a, l, w) {
        let s = line_of(g, a, l, w, line);
        let r = resolve_line(s, 0, goal);
        lemma_line_total(s, 0, goal);
        lemma_resolve_line_len(s, 0, goal);
        let n = line_len(a, l, w);
        lemma_put_line_total(g, a, l, w, line, r.0, n);
        assert(s.take(n) =~= s);
        assert(r.0.take(n) =~= r.0);
        lemma_put_line_keeps_later(g, a, l, w, line, r.0);
        if !r.1 {
            lemma_grid_total(put_line(g, a, l, w, line, r.0, n), a, l, w, goal, line + 1);
        }
    }
}

pub proof fn lemma_grid_stuck(g: Seq<u32>, a: Action, l: int, w: int, goal: u32, line: int)
    requires
        l > 0,
        w > 0,
        g.len() == l * w,
        0 <= line,
        !can_shift(g, a, l, w),
    ensures
        resolve_grid(g, a, l, w, goal, line) == (g, false, false),
    decreases line_count(a, l, w) - line,
{
    if line < line_count(a, l, w) {
        let s = line_of(g, a, l, w, line);
        assert(!line_can_shift(s));
        lemma_line_stuck(s, 0, goal);
        lemma_put_line_same(g, a, l, w, line, line_len(a, l, w));
        lemma_grid_stuck(g, a, l, w, goal, line + 1);
    }
}

pub proof fn lemma_grid_unchanged(g: Seq<u32>, a: Action, l: int, w: int, goal: u32, line: int)
    requires
        l > 0,
        w > 0,
        g.len() == l * w,
        0 <= line,
        !resolve_grid(g, a, l, w, goal, line).1,
        !resolve_grid(g, a, l, w, goal, line).2,
    ensures
        resolve_grid(g, a, l, w, goal, line).0 == g,
    decreases line_count(a, l, w) - line,
{
    if line < line_count(a, l, w) {
        let s = line_of(g, a, l, w, line);
        lemma_line_unchanged(s, 0, goal);
        lemma_put_line_same(g, a, l, w, line, line_len(a, l, w));
        lemma_grid_unchanged(g, a, l, w, goal, line + 1);
    }
}


// ---- a line against pairwise merging of its tiles ----
/// The tiles of `s` in order, empty cells left out.
pub open spec fn tiles(s: Seq<u32>) -> Seq<u32>
    decreases s.len(),
{
    if s.len() == 0 {
        seq![]
    } else if s[0] != 0 {
        seq![s[0]] + tiles(s.skip(1))
    } else {
        tiles(s.skip(1))
    }
}

/// Tiles merged as one move does it: from the front, two equal neighbours become one
/// tile of twice the value, and a tile joins at most one pair.
pub open spec fn merge_pairs(t: Seq<u32>) -> Seq<u32>
    decreases t.len(),
{
    if t.len() < 2 {
        t
    } else if t[0] == t[1] {
        seq![(2 * t[0]) as u32] + merge_pairs(t.skip(2))
    } else {
        seq![t[0]] + merge_pairs(t.skip(1))
    }
}

proof fn lemma_tiles_skip_empty(s: Seq<u32>, i: int, j: int)
    requires
        0 <= i <= j <= s.len(),
        forall|k: int| i <= k < j ==> s[k] == 0,
    ensures
        tiles(s.skip(i)) == tiles(s.skip(j)),
    decreases j - i,
{
    if i < j {
        assert(s.skip(i).skip(1) =~= s.skip(i + 1));
        lemma_tiles_skip_empty(s, i + 1, j);
    }
}

proof fn lemma_tiles_at_tile(s: Seq<u32>, m: int)
    requires
        0 <= m < s.len(),
        s[m] != 0,
    ensures
        tiles(s.skip(m)) == seq![s[m]] + tiles(s.skip(m + 1)),
{
    assert(s.skip(m).skip(1) =~= s.skip(m + 1));
}

proof fn lemma_rest_index_at(s: Seq<u32>, m: int, p: int)
    requires
        0 <= p <= m < s.len(),
        forall|i: int| p <= i < m ==> s[i] == 0,
        p == 0 || s[p - 1] != 0,
    ensures
        rest_index(s, m) == p,
    decreases m,
{
    if m > p {
        lemma_rest_index_at(s, m - 1, p);
    }
}

pub proof fn lemma_line_merges(s0: Seq<u32>, s: Seq<u32>, m: int, p: int, goal: u32)
    requires
        0 <= p <= m <= s.len(),
        forall|i: int| 0 <= i < p ==> s[i] != 0,
        forall|i: int| p <= i < m ==> s[i] == 0,
        forall|i: int| m <= i < s.len() ==> s[i] <= MAX_TILE,
        merge_pairs(tiles(s0)) == s.take(p) + merge_pairs(tiles(s.skip(m))),
        !resolve_line(s, m, goal).1,
    ensures
        merge_pairs(tiles(s0)).len() <= s.len(),
        resolve_line(s, m, goal).0 == merge_pairs(tiles(s0)) + Seq::new(
            (s.len() - merge_pairs(tiles(s0)).len()) as nat,
            |i: int| 0u32,
        ),
    decreases s.len() - m,
{
    let mp = merge_pairs(tiles(s0));
    if m == s.len() {
        assert(s.skip(m) =~= Seq::<u32>::empty());
        assert(s =~= mp + Seq::new((s.len() - mp.len()) as nat, |i: int| 0u32));
    } else if s[m] == 0 {
        lemma_tiles_skip_empty(s, m, m + 1);
        lemma_line_merges(s0, s, m + 1, p, goal);
    } else {
        let a = s[m];
        let q = next_tile(s, m + 1);
        lemma_next_tile_range(s, m + 1);
        lemma_tiles_at_tile(s, m);
        lemma_tiles_skip_empty(s, m + 1, q);
        let merge = q < s.len() && s[q] == s[m];
        let s1 = if merge {
            s.update(m, (2 * s[m]) as u32).update(q, 0)
        } else {
            s
        };
        let v = s1[m];
        if merge {
            lemma_tiles_at_tile(s, q);
            let t = seq![a] + (seq![s[q]] + tiles(s.skip(q + 1)));
            assert(t.skip(2) =~= tiles(s.skip(q + 1)));
            lemma_tiles_skip_empty(s1, m + 1, q + 1);
            assert(s1.skip(q + 1) =~= s.skip(q + 1));
        } else {
            let t = seq![a] + tiles(s.skip(m + 1));
            if q < s.len() {
                lemma_tiles_at_tile(s, q);
            } else {
                assert(s.skip(q) =~= Seq::<u32>::empty());
            }
            assert(t.skip(1) =~= tiles(s.skip(m + 1)));
        }
        assert(mp == s.take(p) + (seq![v] + merge_pairs(tiles(s1.skip(m + 1)))));
        lemma_rest_index_at(s1, m, p);
        let s2 = if p != m {
            s1.update(p, v).update(m, 0)
        } else {
            s1
        };
        assert(s2.skip(m + 1) =~= s1.skip(m + 1));
        assert(s2.take(p + 1) =~= s.take(p).push(v));
        assert(mp =~= s2.take(p + 1) + merge_pairs(tiles(s2.skip(m + 1))));
        lemma_line_merges(s0, s2, m + 1, p + 1, goal);
    }
}


pub proof fn lemma_put_line_reads(g: Seq<u32>, a: Action, l: int, w: int, line: int, s: Seq<u32>, n: int)
    requires
        l > 0,
        w > 0,
        g.len() == l * w,
        0 <= line < line_count(a, l, w),
        0 <= n <= line_len(a, l, w),
        s.len() == line_len(a, l, w),
    ensures
        forall|m: int| 0 <= m < n ==> put_line(g, a, l, w, line, s, n)[cell_index(a, l, w, line, m)] == s[m],
    decreases n,
{
    if n > 0 {
        lemma_put_line_reads(g, a, l, w, line, s, n - 1);
        lemma_put_line(g, a, l, w, line, s, n - 1);
        lemma_cell_index_bounds(a, l, w, line, n - 1);
        assert forall|m: int| 0 <= m < n implies put_line(g, a, l, w, line, s, n)[#[trigger] cell_index(a, l, w, line, m)] == s[m] by {
            if m < n - 1 {
                lemma_cell_index_unique(a, l, w, line, m, line, n - 1);
                lemma_cell_index_bounds(a, l, w, line, m);
            }
        }
    }
}

/// Writing line `line` makes it read back as written, and leaves every other line alone.
pub proof fn lemma_put_line_lines(g: Seq<u32>, a: Action, l: int, w: int, line: int, s: Seq<u32>)
    requires
        l > 0,
        w > 0,
        g.len() == l * w,
        0 <= line < line_count(a, l, w),
        s.len() == line_len(a, l, w),
    ensures
        put_line(g, a, l, w, line, s, line_len(a, l, w)).len() == g.len(),
        line_of(put_line(g, a, l, w, line, s, line_len(a, l, w)), a, l, w, line) == s,
        forall|line2: int|
            0 <= line2 < line_count(a, l, w) && line2 != line ==> #[trigger] line_of(
                put_line(g, a, l, w, line, s, line_len(a, l, w)),
                a,
                l,
                w,
                line2,
            ) == line_of(g, a, l, w, line2),
{
    let n = line_len(a, l, w);
    let g1 = put_line(g, a, l, w, line, s, n);
    lemma_put_line(g, a, l, w, line, s, n);
    lemma_put_line_reads(g, a, l, w, line, s, n);
    assert(line_of(g1, a, l, w, line) =~= s);
    assert forall|line2: int|
        0 <= line2 < line_count(a, l, w) && line2 != line implies #[trigger] line_of(g1, a, l, w, line2)
            == line_of(g, a, l, w, line2) by {
        assert forall|m2: int| 0 <= m2 < n implies g1[cell_index(a, l, w, line2, m2)] == g[cell_index(a, l, w, line2, m2)] by {
            assert forall|m: int| 0 <= m < n implies cell_index(a, l, w, line, m) != cell_index(a, l, w, line2, m2) by {
                lemma_cell_index_unique(a, l, w, line, m, line2, m2);
            }
            lemma_cell_index_bounds(a, l, w, line2, m2);
        }
        assert(line_of(g1, a, l, w, line2) =~= line_of(g, a, l, w, line2));
    }
}

pub proof fn lemma_grid_keeps_done_lines(g: Seq<u32>, a: Action, l: int, w: int, goal: u32, line: int)
    requires
        l > 0,
        w > 0,
        g.len() == l * w,
        0 <= line,
    ensures
        resolve_grid(g, a, l, w, goal, line).0.len() == g.len(),
        forall|line2: int|
            0 <= line2 < line && line2 < line_count(a, l, w) ==> #[trigger] line_of(
                resolve_grid(g, a, l, w, goal, line).0,
                a,
                l,
                w,
                line2,
            ) == line_of(g, a, l, w, line2),
    decreases line_count(a, l, w) - line,
{
    if line < line_count(a, l, w) {
        let r = resolve_line(line_of(g, a, l, w, line), 0, goal);
        lemma_resolve_line_len(line_of(g, a, l, w, line), 0, goal);
        let g1 = put_line(g, a, l, w, line, r.0, line_len(a, l, w));
        lemma_put_line_lines(g, a, l, w, line, r.0);
        if !r.1 {
            lemma_grid_keeps_done_lines(g1, a, l, w, goal, line + 1);
        }
    }
}

pub proof fn lemma_grid_lines(g: Seq<u32>, a: Action, l: int, w: int, goal: u32, line: int)
    requires
        l > 0,
        w > 0,
        g.len() == l * w,
        0 <= line,
        !resolve_grid(g, a, l, w, goal, line).1,
    ensures
        forall|line2: int|
            line <= line2 < line_count(a, l, w) ==> #[trigger] line_of(
                resolve_grid(g, a, l, w, goal, line).0,
                a,
                l,
                w,
                line2,
            ) == resolve_line(line_of(g, a, l, w, line2), 0, goal).0
                && !resolve_line(line_of(g, a, l, w, line2), 0, goal).1,
    decreases line_count(a, l, w) - line,
{
    if line < line_count(a, l, w) {
        let r = resolve_line(line_of(g, a, l, w, line), 0, goal);
        lemma_resolve_line_len(line_of(g, a, l, w, line), 0, goal);
        let g1 = put_line(g, a, l, w, line, r.0, line_len(a, l, w));
        lemma_put_line_lines(g, a, l, w, line, r.0);
        lemma_grid_lines(g1, a, l, w, goal, line + 1);
        lemma_grid_keeps_done_lines(g1, a, l, w, goal, line + 1);
        assert(line_of(resolve_grid(g, a, l, w, goal, line).0, a, l, w, line) == line_of(g1, a, l, w, line));
    }
}

} // verus!
