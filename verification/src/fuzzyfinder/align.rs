//! Local alignment of two sequences of scalars.
//!
//! The grid has one row for every prefix of the first sequence and one column
//! for every prefix of the second. A cell holds the best score of an alignment
//! that ends exactly at that pair of prefixes; an alignment may start anywhere,
//! so no cell is negative. The score of the two sequences is the largest cell.

use vstd::prelude::*;

verus! {

/// Reward for a pair of equal scalars.
pub const MATCH: usize = 16;

/// Cost of skipping one scalar of either sequence.
pub const GAP: usize = 1;

/// The larger of two integers.
pub open spec fn max2(x: int, y: int) -> int {
    if x >= y {
        x
    } else {
        y
    }
}

/// The smaller of two integers.
pub open spec fn min2(x: int, y: int) -> int {
    if x <= y {
        x
    } else {
        y
    }
}

/// The cell in row `i`, column `j` of the grid for `a` and `b`.
///
/// Row 0 and column 0 are zero. Elsewhere the cell is the best of: the
/// diagonal neighbour plus `MATCH`, if `a[i - 1]` and `b[j - 1]` are equal (an
/// unequal pair is never aligned); the neighbour above less `GAP`; the
/// neighbour to the left less `GAP`; and zero, a fresh start.
pub open spec fn cell(a: Seq<char>, b: Seq<char>, i: int, j: int) -> int
    decreases i + j,
{
    if i <= 0 || j <= 0 {
        0
    } else {
        let diagonal = if a[i - 1] == b[j - 1] {
            cell(a, b, i - 1, j - 1) + MATCH
        } else {
            0
        };
        let up = cell(a, b, i - 1, j) - GAP;
        let left = cell(a, b, i, j - 1) - GAP;
        max2(max2(diagonal, up), max2(left, 0))
    }
}

/// The largest cell of row `i` in columns `0..=j`.
pub open spec fn row_best(a: Seq<char>, b: Seq<char>, i: int, j: int) -> int
    decreases j,
{
    if j <= 0 {
        0
    } else {
        max2(row_best(a, b, i, j - 1), cell(a, b, i, j))
    }
}

/// The largest cell of rows `0..=i`, all columns.
pub open spec fn grid_best(a: Seq<char>, b: Seq<char>, i: int) -> int
    decreases i,
{
    if i <= 0 {
        0
    } else {
        max2(grid_best(a, b, i - 1), row_best(a, b, i, b.len() as int))
    }
}

/// The local alignment score of `a` and `b`: the largest cell of the whole grid.
pub open spec fn best_alignment(a: Seq<char>, b: Seq<char>) -> int {
    grid_best(a, b, a.len() as int)
}

/// No cell is negative, and none exceeds `MATCH` times the shorter of its two
/// prefixes: every step that adds to a score consumes a scalar of each side.
pub proof fn lemma_cell_bounds(a: Seq<char>, b: Seq<char>, i: int, j: int)
    ensures
        0 <= cell(a, b, i, j),
        i >= 0 && j >= 0 ==> cell(a, b, i, j) <= MATCH * min2(i, j),
    decreases i + j,
{
    if i > 0 && j > 0 {
        lemma_cell_bounds(a, b, i - 1, j - 1);
        lemma_cell_bounds(a, b, i - 1, j);
        lemma_cell_bounds(a, b, i, j - 1);
    }
}

/// `row_best` is an upper bound of the cells it ranges over, is one of them,
/// and stays within the bound of its row.
proof fn lemma_row_best(a: Seq<char>, b: Seq<char>, i: int, j: int)
    requires
        0 <= i,
        0 <= j,
    ensures
        forall|k: int| 0 <= k <= j ==> cell(a, b, i, k) <= row_best(a, b, i, j),
        exists|k: int| 0 <= k <= j && cell(a, b, i, k) == row_best(a, b, i, j),
        0 <= row_best(a, b, i, j) <= MATCH * min2(i, j),
    decreases j,
{
    if j == 0 {
        assert(cell(a, b, i, 0) == row_best(a, b, i, 0));
    } else {
        lemma_row_best(a, b, i, j - 1);
        lemma_cell_bounds(a, b, i, j);
        let k = if row_best(a, b, i, j) == cell(a, b, i, j) {
            j
        } else {
            choose|k: int| 0 <= k <= j - 1 && cell(a, b, i, k) == row_best(a, b, i, j - 1)
        };
        assert(0 <= k <= j && cell(a, b, i, k) == row_best(a, b, i, j));
    }
}

/// `grid_best` is an upper bound of the cells of its rows, is one of them, and
/// stays within the bound of the grid.
proof fn lemma_grid_best(a: Seq<char>, b: Seq<char>, i: int)
    requires
        0 <= i,
    ensures
        forall|r: int, k: int|
            0 <= r <= i && 0 <= k <= b.len() ==> cell(a, b, r, k) <= grid_best(a, b, i),
        exists|r: int, k: int|
            0 <= r <= i && 0 <= k <= b.len() && cell(a, b, r, k) == grid_best(a, b, i),
        0 <= grid_best(a, b, i) <= MATCH * min2(i, b.len() as int),
    decreases i,
{
    let m = b.len() as int;
    if i == 0 {
        assert(cell(a, b, 0, 0) == grid_best(a, b, 0));
    } else {
        lemma_grid_best(a, b, i - 1);
        lemma_row_best(a, b, i, m);
        let (r, k) = if grid_best(a, b, i) == row_best(a, b, i, m) {
            (i, choose|k: int| 0 <= k <= m && cell(a, b, i, k) == row_best(a, b, i, m))
        } else {
            choose|r: int, k: int|
                0 <= r <= i - 1 && 0 <= k <= m && cell(a, b, r, k) == grid_best(a, b, i - 1)
        };
        assert(0 <= r <= i && 0 <= k <= m && cell(a, b, r, k) == grid_best(a, b, i));
    }
}

/// The score is the maximum of the grid: no cell is larger, and some cell
/// equals it. It is never negative and at most `MATCH` times the length of the
/// shorter sequence.
pub proof fn lemma_best_alignment_is_maximum(a: Seq<char>, b: Seq<char>)
    ensures
        forall|i: int, j: int|
            0 <= i <= a.len() && 0 <= j <= b.len() ==> cell(a, b, i, j) <= best_alignment(a, b),
        exists|i: int, j: int|
            0 <= i <= a.len() && 0 <= j <= b.len() && cell(a, b, i, j) == best_alignment(a, b),
        0 <= best_alignment(a, b) <= MATCH * min2(a.len() as int, b.len() as int),
{
    lemma_grid_best(a, b, a.len() as int);
}

/// A sequence aligned with itself scores `MATCH` for every scalar, which is the
/// most that any sequence can score against it.
pub proof fn lemma_exact_match_is_best(a: Seq<char>, other: Seq<char>)
    ensures
        best_alignment(a, a) == MATCH * a.len(),
        best_alignment(a, other) <= best_alignment(a, a),
{
    lemma_diagonal(a, a.len() as int);
    lemma_best_alignment_is_maximum(a, a);
    lemma_best_alignment_is_maximum(a, other);
}

/// On the diagonal of a sequence's grid against itself every step is a match.
proof fn lemma_diagonal(a: Seq<char>, i: int)
    requires
        0 <= i <= a.len(),
    ensures
        cell(a, a, i, i) == MATCH * i,
    decreases i,
{
    lemma_cell_bounds(a, a, i, i);
    if i > 0 {
        lemma_diagonal(a, i - 1);
    }
}

/// Computes the local alignment score of `a` and `b` with one rolling row of
/// the grid. The score has to fit in `usize`; it does where `MATCH` times the
/// shorter length fits.
pub fn alignment_score(a: &[char], b: &[char]) -> (best: usize)
    requires
        best_alignment(a@, b@) <= usize::MAX,
    ensures
        best == best_alignment(a@, b@),
{
    let n = a.len();
    let m = b.len();
    let mut row: Vec<usize> = Vec::new();
    row.push(0);
    let mut j: usize = 0;
    while j < m
        invariant
            j <= m,
            row@.len() == j + 1,
            forall|k: int| 0 <= k <= j ==> row@[k] == 0,
        decreases m - j,
    {
        row.push(0);
        j += 1;
    }
    let mut best: usize = 0;
    let mut i: usize = 0;
    while i < n
        invariant
            n == a@.len(),
            m == b@.len(),
            i <= n,
            row@.len() == m + 1,
            forall|k: int| 0 <= k <= m ==> row@[k] == cell(a@, b@, i as int, k),
            best == grid_best(a@, b@, i as int),
            best_alignment(a@, b@) <= usize::MAX,
        decreases n - i,
    {
        let mut diagonal: usize = row[0];
        let mut j: usize = 0;
        while j < m
            invariant
                n == a@.len(),
                m == b@.len(),
                i < n,
                j <= m,
                row@.len() == m + 1,
                forall|k: int| 0 <= k <= j ==> row@[k] == cell(a@, b@, i + 1, k),
                forall|k: int| j < k <= m ==> row@[k] == cell(a@, b@, i as int, k),
                diagonal == cell(a@, b@, i as int, j as int),
                best == max2(grid_best(a@, b@, i as int), row_best(a@, b@, i + 1, j as int)),
                best_alignment(a@, b@) <= usize::MAX,
            decreases m - j,
        {
            proof {
                lemma_best_alignment_is_maximum(a@, b@);
                lemma_cell_bounds(a@, b@, i as int, j + 1);
                lemma_cell_bounds(a@, b@, i + 1, j as int);
            }
            let up = row[j + 1];
            let left = row[j];
            let mut value: usize = 0;
            if a[i] == b[j] {
                assert(diagonal + MATCH <= cell(a@, b@, i + 1, j + 1) <= best_alignment(a@, b@));
                value = diagonal + MATCH;
            }
            if up > GAP && up - GAP > value {
                value = up - GAP;
            }
            if left > GAP && left - GAP > value {
                value = left - GAP;
            }
            diagonal = up;
            row[j + 1] = value;
            if value > best {
                best = value;
            }
            j += 1;
        }
        i += 1;
    }
    best
}

} // verus!
