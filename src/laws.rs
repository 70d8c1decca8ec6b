use vstd::prelude::*;
use crate::board::Action;
use crate::grid::{
    can_shift, cell_index, lemma_cell_index_bounds, lemma_grid_lines, lemma_grid_stuck,
    lemma_grid_total, lemma_grid_unchanged, lemma_line_merges, line_count, line_len, line_of,
    merge_pairs, moved, resolve_line, tiles, tiles_fit, total, MAX_TILE,
};

verus! {

/// A move keeps the sum of all tile values: a merge turns two equal tiles into one of
/// twice the value, and a slide only relocates a tile.
pub proof fn lemma_move_keeps_total(g: Seq<u32>, a: Action, l: int, w: int, goal: u32)
    requires
        l >= 1,
        w >= 1,
        g.len() == l * w,
        tiles_fit(g),
    ensures
        total(moved(g, a, l, w, goal).0) == total(g),
{
    assert forall|line2: int, m: int|
        0 <= line2 < line_count(a, l, w) && 0 <= m < line_len(a, l, w) implies g[cell_index(a, l, w, line2, m)]
            <= MAX_TILE by {
        lemma_cell_index_bounds(a, l, w, line2, m);
    }
    lemma_grid_total(g, a, l, w, goal, 0);
}

/// A move in which no tile can slide or merge leaves the grid exactly as it was and
/// reports no change (so `act` answers `Invalid`); and whenever a move reports neither
/// a win nor a change, the grid is exactly as it was.
pub proof fn lemma_stuck_move_changes_nothing(g: Seq<u32>, a: Action, l: int, w: int, goal: u32)
    requires
        l >= 1,
        w >= 1,
        g.len() == l * w,
    ensures
        !can_shift(g, a, l, w) ==> moved(g, a, l, w, goal) == (g, false, false),
        !moved(g, a, l, w, goal).1 && !moved(g, a, l, w, goal).2 ==> moved(g, a, l, w, goal).0 == g,
{
    if !can_shift(g, a, l, w) {
        lemma_grid_stuck(g, a, l, w, goal, 0);
    }
    if !moved(g, a, l, w, goal).1 && !moved(g, a, l, w, goal).2 {
        lemma_grid_unchanged(g, a, l, w, goal, 0);
    }
}

/// A line that a move resolves without reaching the goal ends as pairwise merging
/// of its tiles gives it, followed by empty cells: no tile that came out of a merge
/// merges again in the same move.
pub proof fn lemma_line_merges_once(s: Seq<u32>, goal: u32)
    requires
        tiles_fit(s),
        !resolve_line(s, 0, goal).1,
    ensures
        merge_pairs(tiles(s)).len() <= s.len(),
        resolve_line(s, 0, goal).0 == merge_pairs(tiles(s)) + Seq::new(
            (s.len() - merge_pairs(tiles(s)).len()) as nat,
            |i: int| 0u32,
        ),
{
    assert(s.skip(0) =~= s);
    assert(s.take(0) + merge_pairs(tiles(s)) =~= merge_pairs(tiles(s)));
    lemma_line_merges(s, s, 0, 0, goal);
}

/// In a move that reaches no win, every line ends as pairwise merging of its own
/// tiles gives it, followed by empty cells: no tile that came out of a merge merges
/// again in the same move.
pub proof fn lemma_move_merges_once(g: Seq<u32>, a: Action, l: int, w: int, goal: u32)
    requires
        l >= 1,
        w >= 1,
        g.len() == l * w,
        tiles_fit(g),
        !moved(g, a, l, w, goal).1,
    ensures
        forall|line: int|
            0 <= line < line_count(a, l, w) ==> #[trigger] line_of(moved(g, a, l, w, goal).0, a, l, w, line)
                == merge_pairs(tiles(line_of(g, a, l, w, line))) + Seq::new(
                (line_len(a, l, w) - merge_pairs(tiles(line_of(g, a, l, w, line))).len()) as nat,
                |i: int| 0u32,
            ),
{
    lemma_grid_lines(g, a, l, w, goal, 0);
    assert forall|line: int| 0 <= line < line_count(a, l, w) implies #[trigger] line_of(
        moved(g, a, l, w, goal).0,
        a,
        l,
        w,
        line,
    ) == merge_pairs(tiles(line_of(g, a, l, w, line))) + Seq::new(
        (line_len(a, l, w) - merge_pairs(tiles(line_of(g, a, l, w, line))).len()) as nat,
        |i: int| 0u32,
    ) by {
        let s = line_of(g, a, l, w, line);
        assert(line_of(crate::grid::resolve_grid(g, a, l, w, goal, 0).0, a, l, w, line) == resolve_line(s, 0, goal).0);
        assert forall|m: int| 0 <= m < s.len() implies s[m] <= MAX_TILE by {
            lemma_cell_index_bounds(a, l, w, line, m);
        }
        lemma_line_merges_once(s, goal);
    }
}

} // verus!
