//! The grid model: a rectangular table of non-negative `u32` weights with a
//! hexagonal adjacency rule (pointy-topped layout, column-parity dependent).

use vstd::prelude::*;

verus! {

/// The mathematical view of a grid: a sequence of rows, each a sequence of
/// cell weights.
pub open spec fn gview(g: &Vec<Vec<u32>>) -> Seq<Seq<u32>> {
    Seq::new(g@.len(), |i: int| g@[i]@)
}

/// A grid is valid when it has at least one row, at least one column, and
/// every row has the same length.
pub open spec fn valid_grid(g: Seq<Seq<u32>>) -> bool {
    &&& g.len() >= 1
    &&& g[0].len() >= 1
    &&& forall|i: int| 0 <= i < g.len() ==> (#[trigger] g[i]).len() == g[0].len()
}

/// A coordinate lies inside an `rows` x `cols` grid.
pub open spec fn in_bounds(p: (int, int), rows: int, cols: int) -> bool {
    0 <= p.0 < rows && 0 <= p.1 < cols
}

/// The hex adjacency rule. Every cell touches the cells directly above,
/// below, left and right of it; in addition, a cell in an even column
/// touches its two upper diagonals, and a cell in an odd column its two
/// lower diagonals.
pub open spec fn hex_adjacent(a: (int, int), b: (int, int)) -> bool {
    let dr = b.0 - a.0;
    let dc = b.1 - a.1;
    ||| (dr == -1 && dc == 0)
    ||| (dr == 1 && dc == 0)
    ||| (dr == 0 && dc == -1)
    ||| (dr == 0 && dc == 1)
    ||| (if a.1 % 2 == 0 {
            (dr == -1 && dc == -1) || (dr == -1 && dc == 1)
        } else {
            (dr == 1 && dc == -1) || (dr == 1 && dc == 1)
        })
}

/// Adjacency is symmetric: if `b` is a neighbor of `a`, then `a` is a
/// neighbor of `b`. This holds for any pair of cells with non-negative
/// columns, and in particular for every pair of in-bounds cells, across
/// both column parities.
pub proof fn lemma_hex_adjacent_symmetric(a: (int, int), b: (int, int))
    requires
        a.1 >= 0,
        b.1 >= 0,
        hex_adjacent(a, b),
    ensures
        hex_adjacent(b, a),
{
}

/// Whether a whole `Vec`-of-`Vec`s representation satisfies the grid
/// invariant: at least one row, at least one column, all rows equally long.
pub fn grid_is_valid(grid: &Vec<Vec<u32>>) -> (r: bool)
    ensures
        r == valid_grid(gview(grid)),
{
    if grid.len() == 0 {
        return false;
    }
    let cols = grid[0].len();
    if cols == 0 {
        return false;
    }
    let mut i: usize = 1;
    while i < grid.len()
        invariant
            1 <= i <= grid@.len(),
            cols == gview(grid)[0].len(),
            cols >= 1,
            forall|j: int| 0 <= j < i ==> (#[trigger] gview(grid)[j]).len() == cols,
        decreases grid@.len() - i,
    {
        if grid[i].len() != cols {
            assert(gview(grid)[i as int].len() != gview(grid)[0].len());
            return false;
        }
        i = i + 1;
    }
    true
}

/// All in-bounds hex neighbors of `pos` in an `rows` x `cols` grid: exactly
/// the cells that are `hex_adjacent` to `pos` and lie inside the grid, each
/// listed once.
pub fn get_neighbors(pos: (usize, usize), rows: usize, cols: usize) -> (r: Vec<(usize, usize)>)
    requires
        pos.0 < rows,
        pos.1 < cols,
    ensures
        forall|q: (usize, usize)|
            #[trigger] r@.contains(q) <==> (q.0 < rows && q.1 < cols && hex_adjacent(
                (pos.0 as int, pos.1 as int),
                (q.0 as int, q.1 as int),
            )),
        forall|i: int| 0 <= i < r@.len() ==> (#[trigger] r@[i]).0 < rows && r@[i].1 < cols,
        r@.no_duplicates(),
{
    let (row, col) = pos;
    let mut r: Vec<(usize, usize)> = Vec::new();
    // Up and down.
    if row > 0 {
        r.push((row - 1, col));
    }
    if row + 1 < rows {
        r.push((row + 1, col));
    }
    // Left and right.
    if col > 0 {
        r.push((row, col - 1));
    }
    if col + 1 < cols {
        r.push((row, col + 1));
    }
    // Diagonals: upper pair for even columns, lower pair for odd columns.
    if col % 2 == 0 {
        if row > 0 && col > 0 {
            r.push((row - 1, col - 1));
        }
        if row > 0 && col + 1 < cols {
            r.push((row - 1, col + 1));
        }
    } else {
        if row + 1 < rows && col > 0 {
            r.push((row + 1, col - 1));
        }
        if row + 1 < rows && col + 1 < cols {
            r.push((row + 1, col + 1));
        }
    }
    proof {
        broadcast use vstd::seq_lib::lemma_seq_contains_after_push;

        let a = (row as int, col as int);
        assert forall|q: (usize, usize)|
            q.0 < rows && q.1 < cols && hex_adjacent(a, (q.0 as int, q.1 as int))
            implies #[trigger] r@.contains(q) by {
            let dr = q.0 as int - a.0;
            let dc = q.1 as int - a.1;
            if dr == -1 && dc == 0 {
                assert(q == (((row - 1) as usize), col));
            } else if dr == 1 && dc == 0 {
                assert(q == (((row + 1) as usize), col));
            } else if dr == 0 && dc == -1 {
                assert(q == (row, ((col - 1) as usize)));
            } else if dr == 0 && dc == 1 {
                assert(q == (row, ((col + 1) as usize)));
            } else if dr == -1 && dc == -1 {
                assert(q == (((row - 1) as usize), ((col - 1) as usize)));
            } else if dr == -1 && dc == 1 {
                assert(q == (((row - 1) as usize), ((col + 1) as usize)));
            } else if dr == 1 && dc == -1 {
                assert(q == (((row + 1) as usize), ((col - 1) as usize)));
            } else {
                assert(q == (((row + 1) as usize), ((col + 1) as usize)));
            }
        }
    }
    r
}

} // verus!
