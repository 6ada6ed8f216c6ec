//! The path search engine: a label-correcting search with a priority
//! frontier, run in one of two modes over the same grid. `MINIMIZE` looks
//! for a cheapest path from the top-left cell to the bottom-right cell,
//! `MAXIMIZE` (greedily) for a most expensive one.
//!
//! The contract proved here: every returned total is the exact cost of a
//! real path through the grid; a one-cell grid yields the weight of that
//! cell; and a minimizing total is also a lower bound on the cost of every
//! path, so the minimizing pass returns the true optimum — the classic
//! Dijkstra argument over the non-negative cell weights. The greedy
//! first-settlement rule is only a heuristic for maximization (the
//! longest-path problem is intractable in general), so a maximizing total
//! is pinned to a real path's cost but not to the largest one.

use vstd::prelude::*;
use crate::grid::{gview, valid_grid, in_bounds, hex_adjacent, get_neighbors};

verus! {

/// `p` is a walk through the grid that starts at the top-left cell, moves
/// only between hex-adjacent in-bounds cells, and ends at `dest`.
pub open spec fn reaches(g: Seq<Seq<u32>>, p: Seq<(int, int)>, dest: (int, int)) -> bool {
    &&& p.len() >= 1
    &&& p[0] == (0int, 0int)
    &&& p[p.len() - 1] == dest
    &&& forall|i: int| 0 <= i < p.len() ==> in_bounds(#[trigger] p[i], g.len() as int, g[0].len() as int)
    &&& forall|i: int| 0 <= i < p.len() - 1 ==> hex_adjacent(#[trigger] p[i], p[i + 1])
}

/// `p` is a complete path: from the top-left cell to the bottom-right cell.
pub open spec fn is_path(g: Seq<Seq<u32>>, p: Seq<(int, int)>) -> bool {
    reaches(g, p, (g.len() - 1, g[0].len() - 1))
}

/// The total cost of a walk: the sum of the weights of every cell it
/// visits, both endpoints included. A cell visited twice is counted twice.
pub open spec fn path_cost(g: Seq<Seq<u32>>, p: Seq<(int, int)>) -> int
    decreases p.len(),
{
    if p.len() == 0 {
        0
    } else {
        path_cost(g, p.drop_last()) + g[p[p.len() - 1].0][p[p.len() - 1].1]
    }
}

/// A frontier entry carries the exact cost of some walk from the start to
/// its coordinate.
spec fn entry_ok(g: Seq<Seq<u32>>, e: (u32, usize, usize)) -> bool {
    &&& (e.1 as int) < g.len()
    &&& (e.2 as int) < g[0].len()
    &&& exists|p: Seq<(int, int)>|
        reaches(g, p, (e.1 as int, e.2 as int)) && path_cost(g, p) == e.0 as int
}

/// The label a cell holds in the flat, row-major label table.
spec fn label_of(dists: Seq<Option<u32>>, cols: int, v: (int, int)) -> Option<u32> {
    dists[v.0 * cols + v.1]
}

/// Distinct cells occupy distinct slots of the row-major label table.
proof fn lemma_index_injective(cols: int, v: (int, int), u: (int, int))
    requires
        cols >= 1,
        0 <= v.1 < cols,
        0 <= u.1 < cols,
        v.0 >= 0,
        u.0 >= 0,
        v.0 * cols + v.1 == u.0 * cols + u.1,
    ensures
        v == u,
{
    assert(v.0 == u.0 && v.1 == u.1) by (nonlinear_arith)
        requires
            cols >= 1,
            0 <= v.1 < cols,
            0 <= u.1 < cols,
            v.0 >= 0,
            u.0 >= 0,
            v.0 * cols + v.1 == u.0 * cols + u.1,
    ;
}

/// Every walk from the start to `v` costs at least `d`.
spec fn min_walks_at_least(g: Seq<Seq<u32>>, v: (int, int), d: int) -> bool {
    forall|p: Seq<(int, int)>| #[trigger] reaches(g, p, v) ==> path_cost(g, p) >= d
}

/// Settled cells hold labels that no walk can beat.
spec fn settled_ok(g: Seq<Seq<u32>>, dists: Seq<Option<u32>>, settled: Set<(int, int)>) -> bool {
    forall|v: (int, int)| #[trigger] settled.contains(v) ==> {
        &&& in_bounds(v, g.len() as int, g[0].len() as int)
        &&& label_of(dists, g[0].len() as int, v) is Some
        &&& min_walks_at_least(g, v, label_of(dists, g[0].len() as int, v)->0 as int)
    }
}

/// Every settled cell has offered each in-bounds neighbor its relaxation:
/// unless the candidate total overflows 32 bits, the neighbor's label is no
/// worse than the settled label plus the neighbor's weight.
spec fn closure_ok(g: Seq<Seq<u32>>, dists: Seq<Option<u32>>, settled: Set<(int, int)>) -> bool {
    forall|v: (int, int), u: (int, int)|
        #![trigger settled.contains(v), hex_adjacent(v, u)]
        settled.contains(v) && in_bounds(u, g.len() as int, g[0].len() as int) && hex_adjacent(
            v,
            u,
        ) && label_of(dists, g[0].len() as int, v) is Some ==> {
            ||| label_of(dists, g[0].len() as int, v)->0 + g[u.0][u.1] > u32::MAX
            ||| (label_of(dists, g[0].len() as int, u) is Some && label_of(
                dists,
                g[0].len() as int,
                u,
            )->0 <= label_of(dists, g[0].len() as int, v)->0 + g[u.0][u.1])
        }
}

/// Every frontier entry costs at least its cell's current label.
spec fn entries_ge_labels(
    dists: Seq<Option<u32>>,
    cols: int,
    frontier: Seq<(u32, usize, usize)>,
) -> bool {
    forall|k: int| 0 <= k < frontier.len() ==> {
        let v = ((#[trigger] frontier[k]).1 as int, frontier[k].2 as int);
        label_of(dists, cols, v) is Some && frontier[k].0 >= label_of(dists, cols, v)->0
    }
}

/// Every labeled cell not yet settled keeps a frontier entry at exactly its
/// current label.
spec fn unsettled_has_entry(
    g: Seq<Seq<u32>>,
    dists: Seq<Option<u32>>,
    frontier: Seq<(u32, usize, usize)>,
    settled: Set<(int, int)>,
) -> bool {
    forall|v: (int, int)|
        in_bounds(v, g.len() as int, g[0].len() as int) && !settled.contains(v) && (
        #[trigger] label_of(dists, g[0].len() as int, v)) is Some ==> exists|k: int|
            0 <= k < frontier.len() && (#[trigger] frontier[k]).1 == v.0 && frontier[k].2 == v.1
                && frontier[k].0 == label_of(dists, g[0].len() as int, v)->0
}

/// No unsettled cell is labeled below `pc`.
spec fn labels_ge(
    g: Seq<Seq<u32>>,
    dists: Seq<Option<u32>>,
    settled: Set<(int, int)>,
    pc: int,
) -> bool {
    forall|v: (int, int)|
        in_bounds(v, g.len() as int, g[0].len() as int) && !settled.contains(v) && (
        #[trigger] label_of(dists, g[0].len() as int, v)) is Some ==> pc <= label_of(
            dists,
            g[0].len() as int,
            v,
        )->0
}

/// The start cell is labeled, at no more than its own weight.
spec fn start_label_ok(g: Seq<Seq<u32>>, dists: Seq<Option<u32>>) -> bool {
    label_of(dists, g[0].len() as int, (0, 0)) is Some && label_of(
        dists,
        g[0].len() as int,
        (0, 0),
    )->0 <= g[0][0]
}

/// A walk costs at least the weight of its final cell, and never less than
/// nothing.
proof fn lemma_path_cost_at_least_last(g: Seq<Seq<u32>>, p: Seq<(int, int)>)
    requires
        p.len() >= 1,
    ensures
        path_cost(g, p) >= g[p[p.len() - 1].0][p[p.len() - 1].1],
        path_cost(g, p) >= 0,
    decreases p.len(),
{
    if p.len() == 1 {
        assert(p.drop_last() =~= Seq::<(int, int)>::empty());
        assert(path_cost(g, Seq::<(int, int)>::empty()) == 0);
    } else {
        lemma_path_cost_at_least_last(g, p.drop_last());
    }
}

/// The heart of the shortest-path argument: while the invariants hold and
/// the cheapest frontier entry costs `pc`, no walk reaches any unsettled
/// cell for less than `pc`. Any walk either stays settled until its last
/// step, whose relaxation already bounded the destination's label, or it
/// passes an unsettled cell earlier and was no cheaper there.
proof fn lemma_pop_is_lower_bound(
    g: Seq<Seq<u32>>,
    dists: Seq<Option<u32>>,
    settled: Set<(int, int)>,
    pc: int,
    p: Seq<(int, int)>,
    dest: (int, int),
)
    requires
        valid_grid(g),
        0 <= pc <= u32::MAX,
        settled_ok(g, dists, settled),
        closure_ok(g, dists, settled),
        labels_ge(g, dists, settled, pc),
        start_label_ok(g, dists),
        reaches(g, p, dest),
        !settled.contains(dest),
    ensures
        path_cost(g, p) >= pc,
    decreases p.len(),
{
    let cols = g[0].len() as int;
    if p.len() == 1 {
        assert(dest == (0int, 0int));
        assert(p.drop_last() =~= Seq::<(int, int)>::empty());
        assert(path_cost(g, Seq::<(int, int)>::empty()) == 0);
        assert(path_cost(g, p) == g[0][0]);
        assert(pc <= label_of(dists, cols, (0, 0))->0);
    } else {
        let pre = p.drop_last();
        let v = p[p.len() - 2];
        assert(reaches(g, pre, v)) by {
            assert(pre[0] == p[0]);
            assert(pre[pre.len() - 1] == p[p.len() - 2]);
            assert forall|i: int| 0 <= i < pre.len() implies in_bounds(
                #[trigger] pre[i],
                g.len() as int,
                g[0].len() as int,
            ) by {
                assert(pre[i] == p[i]);
            }
            assert forall|i: int| 0 <= i < pre.len() - 1 implies hex_adjacent(
                #[trigger] pre[i],
                pre[i + 1],
            ) by {
                assert(pre[i] == p[i] && pre[i + 1] == p[i + 1]);
            }
        }
        assert(path_cost(g, p) == path_cost(g, pre) + g[dest.0][dest.1]);
        assert(hex_adjacent(v, dest));
        if settled.contains(v) {
            let dv = label_of(dists, cols, v)->0;
            assert(min_walks_at_least(g, v, dv as int));
            assert(path_cost(g, pre) >= dv);
            if dv + g[dest.0][dest.1] > u32::MAX {
                assert(path_cost(g, p) > u32::MAX);
            } else {
                assert(label_of(dists, cols, dest) is Some && label_of(dists, cols, dest)->0 <= dv
                    + g[dest.0][dest.1]);
                assert(pc <= label_of(dists, cols, dest)->0);
            }
        } else {
            lemma_pop_is_lower_bound(g, dists, settled, pc, pre, v);
            lemma_path_cost_at_least_last(g, p);
            assert(g[dest.0][dest.1] >= 0);
        }
    }
}

/// The cell at position `i` of the staircase walk: rightward along the top
/// row, then downward along the last column.
pub open spec fn staircase_cell(cols: int, i: int) -> (int, int) {
    if i < cols {
        (0, i)
    } else {
        (i - cols + 1, cols - 1)
    }
}

/// The staircase walk across a grid: from the top-left cell rightward to
/// the top-right cell, then downward to the bottom-right cell. It exists in
/// every valid grid, so the end cell is always reachable; its cost bounds
/// the minimum path cost from above.
pub open spec fn staircase(g: Seq<Seq<u32>>) -> Seq<(int, int)> {
    Seq::new((g.len() + g[0].len() - 1) as nat, |i: int| staircase_cell(g[0].len() as int, i))
}

/// Every prefix of the staircase is itself a walk from the start to the
/// prefix's last cell; the whole staircase is a complete path.
pub proof fn lemma_staircase_reaches(g: Seq<Seq<u32>>, i: int)
    requires
        valid_grid(g),
        1 <= i <= staircase(g).len(),
    ensures
        reaches(g, staircase(g).take(i), staircase(g)[i - 1]),
        i == staircase(g).len() ==> is_path(g, staircase(g).take(i)) && staircase(g).take(i)
            =~= staircase(g),
{
    let st = staircase(g);
    let p = st.take(i);
    let rows = g.len() as int;
    let cols = g[0].len() as int;
    assert(p[0] == (0int, 0int));
    assert forall|k: int| 0 <= k < p.len() implies in_bounds(#[trigger] p[k], rows, cols) by {
        assert(p[k] == staircase_cell(cols, k));
    }
    assert forall|k: int| 0 <= k < p.len() - 1 implies hex_adjacent(#[trigger] p[k], p[k + 1]) by {
        assert(p[k] == staircase_cell(cols, k) && p[k + 1] == staircase_cell(cols, k + 1));
    }
}

/// A walk costs no less than any of its prefixes.
proof fn lemma_path_cost_take_le(g: Seq<Seq<u32>>, p: Seq<(int, int)>, j: int)
    requires
        0 <= j <= p.len(),
    ensures
        path_cost(g, p.take(j)) <= path_cost(g, p),
    decreases p.len() - j,
{
    if j == p.len() {
        assert(p.take(j) =~= p);
    } else {
        lemma_path_cost_take_le(g, p, j + 1);
        assert(p.take(j + 1).drop_last() =~= p.take(j));
        assert(p.take(j + 1).last() == p[j]);
    }
}

/// Once the frontier has drained — so every labeled cell is settled — each
/// cell of the staircase has been settled in turn, as long as the whole
/// staircase's cost fits in 32 bits and no relaxation along it was ever
/// skipped for overflow.
proof fn lemma_drained_settles_staircase(
    g: Seq<Seq<u32>>,
    dists: Seq<Option<u32>>,
    settled: Set<(int, int)>,
    i: int,
)
    requires
        valid_grid(g),
        settled_ok(g, dists, settled),
        closure_ok(g, dists, settled),
        start_label_ok(g, dists),
        forall|v: (int, int)|
            in_bounds(v, g.len() as int, g[0].len() as int) && (#[trigger] label_of(
                dists,
                g[0].len() as int,
                v,
            )) is Some ==> settled.contains(v),
        path_cost(g, staircase(g)) <= u32::MAX,
        0 <= i < staircase(g).len(),
    ensures
        settled.contains(staircase(g)[i]),
    decreases i,
{
    let st = staircase(g);
    let rows = g.len() as int;
    let cols = g[0].len() as int;
    if i == 0 {
        assert(st[0] == (0int, 0int));
        assert(settled.contains((0int, 0int)));
    } else {
        lemma_drained_settles_staircase(g, dists, settled, i - 1);
        let v = st[i - 1];
        let u = st[i];
        assert(v == staircase_cell(cols, i - 1) && u == staircase_cell(cols, i));
        assert(hex_adjacent(v, u));
        assert(in_bounds(u, rows, cols));
        let dv = label_of(dists, cols, v)->0;
        if dv + g[u.0][u.1] > u32::MAX {
            lemma_staircase_reaches(g, i);
            assert(reaches(g, st.take(i), v));
            assert(min_walks_at_least(g, v, dv as int));
            assert(path_cost(g, st.take(i)) >= dv);
            assert(st.take(i + 1).drop_last() =~= st.take(i));
            assert(st.take(i + 1).last() == u);
            assert(path_cost(g, st.take(i + 1)) == path_cost(g, st.take(i)) + g[u.0][u.1]);
            lemma_path_cost_take_le(g, st, i + 1);
            assert(false);
        } else {
            assert(label_of(dists, cols, u) is Some);
            assert(settled.contains(u));
        }
    }
}

/// The minimum-cost total never exceeds the maximum-cost total. Whenever
/// both search passes return a total, the minimizing pass's total bounds
/// every path from below — in particular the path whose cost the maximizing
/// pass returned. The hypotheses are exactly what `find_path`'s contract
/// gives for the two modes.
pub proof fn lemma_min_le_max(g: Seq<Seq<u32>>, lo: u32, hi: u32)
    requires
        valid_grid(g),
        forall|p: Seq<(int, int)>| #[trigger] is_path(g, p) ==> path_cost(g, p) >= lo as int,
        exists|p: Seq<(int, int)>| is_path(g, p) && path_cost(g, p) == hi as int,
    ensures
        lo <= hi,
{
    let p = choose|p: Seq<(int, int)>| is_path(g, p) && path_cost(g, p) == hi as int;
    assert(path_cost(g, p) >= lo as int);
}

/// The minimizing pass is deterministic in its value: any two totals that
/// each are the cost of some path and each bound every path from below are
/// equal. Two minimizing searches of the same grid therefore agree whenever
/// both return a total.
pub proof fn lemma_minimize_unique(g: Seq<Seq<u32>>, c1: u32, c2: u32)
    requires
        valid_grid(g),
        exists|p: Seq<(int, int)>| is_path(g, p) && path_cost(g, p) == c1 as int,
        forall|p: Seq<(int, int)>| #[trigger] is_path(g, p) ==> path_cost(g, p) >= c1 as int,
        exists|p: Seq<(int, int)>| is_path(g, p) && path_cost(g, p) == c2 as int,
        forall|p: Seq<(int, int)>| #[trigger] is_path(g, p) ==> path_cost(g, p) >= c2 as int,
    ensures
        c1 == c2,
{
    let p1 = choose|p: Seq<(int, int)>| is_path(g, p) && path_cost(g, p) == c1 as int;
    let p2 = choose|p: Seq<(int, int)>| is_path(g, p) && path_cost(g, p) == c2 as int;
    assert(path_cost(g, p1) >= c2 as int);
    assert(path_cost(g, p2) >= c1 as int);
}

/// Improving an unsettled cell's label to a fresh relaxation candidate, and
/// pushing the matching entry, preserves every invariant of the minimizing
/// search.
proof fn lemma_improve_preserves(
    g: Seq<Seq<u32>>,
    old_dists: Seq<Option<u32>>,
    dists: Seq<Option<u32>>,
    old_front: Seq<(u32, usize, usize)>,
    front: Seq<(u32, usize, usize)>,
    settled: Set<(int, int)>,
    cost: u32,
    er: usize,
    ec: usize,
    ur: usize,
    uc: usize,
    cand: u32,
    nidx: usize,
)
    requires
        valid_grid(g),
        old_dists.len() == g.len() * g[0].len(),
        (ur as int) < g.len(),
        (uc as int) < g[0].len(),
        (er as int) < g.len(),
        (ec as int) < g[0].len(),
        nidx as int == (ur as int) * (g[0].len() as int) + (uc as int),
        dists == old_dists.update(nidx as int, Some(cand)),
        front == old_front.push((cand, ur, uc)),
        hex_adjacent((er as int, ec as int), (ur as int, uc as int)),
        settled_ok(g, old_dists, settled),
        closure_ok(g, old_dists, settled),
        entries_ge_labels(old_dists, g[0].len() as int, old_front),
        unsettled_has_entry(g, old_dists, old_front, settled.insert((er as int, ec as int))),
        labels_ge(g, old_dists, settled, cost as int),
        start_label_ok(g, old_dists),
        label_of(old_dists, g[0].len() as int, (er as int, ec as int)) == Some(cost),
        forall|k: int| 0 <= k < old_front.len() ==> entry_ok(g, #[trigger] old_front[k]),
        !settled.contains((ur as int, uc as int)),
        label_of(old_dists, g[0].len() as int, (ur as int, uc as int)) is Some ==> cand
            < label_of(old_dists, g[0].len() as int, (ur as int, uc as int))->0,
        cand as int == cost + g[ur as int][uc as int],
    ensures
        settled_ok(g, dists, settled),
        closure_ok(g, dists, settled),
        entries_ge_labels(dists, g[0].len() as int, front),
        unsettled_has_entry(g, dists, front, settled.insert((er as int, ec as int))),
        labels_ge(g, dists, settled, cost as int),
        start_label_ok(g, dists),
        label_of(dists, g[0].len() as int, (er as int, ec as int)) == Some(cost),
        label_of(dists, g[0].len() as int, (ur as int, uc as int)) == Some(cand),
        forall|v: (int, int)|
            in_bounds(v, g.len() as int, g[0].len() as int) && v != (ur as int, uc as int)
                ==> #[trigger] label_of(dists, g[0].len() as int, v) == label_of(
                old_dists,
                g[0].len() as int,
                v,
            ),
{
    let rows = g.len() as int;
    let cols = g[0].len() as int;
    let n = old_dists.len() as int;
    let upos = (ur as int, uc as int);
    let epos = (er as int, ec as int);
    assert(0 <= nidx < n) by (nonlinear_arith)
        requires
            0 <= (ur as int) && (ur as int) < rows,
            0 <= (uc as int) && (uc as int) < cols,
            nidx as int == (ur as int) * cols + (uc as int),
            n == rows * cols,
    ;
    assert(label_of(dists, cols, upos) == Some(cand));
    assert forall|v: (int, int)| in_bounds(v, rows, cols) && v != upos implies label_of(
        dists,
        cols,
        v,
    ) == label_of(old_dists, cols, v) by {
        assert(0 <= v.0 * cols + v.1 < n) by (nonlinear_arith)
            requires
                0 <= v.0 < rows,
                0 <= v.1 < cols,
                n == rows * cols,
        ;
        if v.0 * cols + v.1 == nidx as int {
            lemma_index_injective(cols, v, upos);
        }
    }
    assert(upos != epos);
    assert(label_of(dists, cols, epos) == Some(cost));
    assert(settled_ok(g, dists, settled)) by {
        assert forall|v: (int, int)| #[trigger] settled.contains(v) implies {
            &&& in_bounds(v, rows, cols)
            &&& label_of(dists, cols, v) is Some
            &&& min_walks_at_least(g, v, label_of(dists, cols, v)->0 as int)
        } by {
            assert(v != upos);
        }
    }
    assert(closure_ok(g, dists, settled)) by {
        assert forall|v: (int, int), u: (int, int)|
            #![trigger settled.contains(v), hex_adjacent(v, u)]
            settled.contains(v) && in_bounds(u, rows, cols) && hex_adjacent(v, u) && label_of(
                dists,
                cols,
                v,
            ) is Some implies {
            ||| label_of(dists, cols, v)->0 + g[u.0][u.1] > u32::MAX
            ||| (label_of(dists, cols, u) is Some && label_of(dists, cols, u)->0 <= label_of(
                dists,
                cols,
                v,
            )->0 + g[u.0][u.1])
        } by {
            assert(v != upos);
            assert(label_of(dists, cols, v) == label_of(old_dists, cols, v));
        }
    }
    assert(entries_ge_labels(dists, cols, front)) by {
        assert forall|k: int| 0 <= k < front.len() implies {
            let v = ((#[trigger] front[k]).1 as int, front[k].2 as int);
            label_of(dists, cols, v) is Some && front[k].0 >= label_of(dists, cols, v)->0
        } by {
            if k < old_front.len() {
                assert(front[k] == old_front[k]);
                assert(entry_ok(g, old_front[k]));
            } else {
                assert(front[k] == (cand, ur, uc));
            }
        }
    }
    assert(unsettled_has_entry(g, dists, front, settled.insert(epos))) by {
        assert forall|v: (int, int)|
            in_bounds(v, rows, cols) && !settled.insert(epos).contains(v) && (#[trigger] label_of(
                dists,
                cols,
                v,
            )) is Some implies exists|k: int|
            0 <= k < front.len() && (#[trigger] front[k]).1 == v.0 && front[k].2 == v.1
                && front[k].0 == label_of(dists, cols, v)->0 by {
            if v == upos {
                assert(front[front.len() - 1] == (cand, ur, uc));
            } else {
                let k0 = choose|k: int|
                    0 <= k < old_front.len() && (#[trigger] old_front[k]).1 == v.0
                        && old_front[k].2 == v.1 && old_front[k].0 == label_of(
                        old_dists,
                        cols,
                        v,
                    )->0;
                assert(front[k0] == old_front[k0]);
            }
        }
    }
}

/// The termination potential of one cell label: how much room is left for
/// further strict improvements of that label in the given mode.
spec fn label_pot(o: Option<u32>, find_min: bool) -> int {
    match o {
        Option::None => 0x1_0000_0000,
        Option::Some(d) => if find_min {
            d as int
        } else {
            u32::MAX - d
        },
    }
}

/// The termination potential of the whole label table.
spec fn sum_pot(s: Seq<Option<u32>>, find_min: bool) -> int
    decreases s.len(),
{
    if s.len() == 0 {
        0
    } else {
        sum_pot(s.drop_last(), find_min) + label_pot(s.last(), find_min)
    }
}

proof fn lemma_sum_pot_nonneg(s: Seq<Option<u32>>, find_min: bool)
    ensures
        sum_pot(s, find_min) >= 0,
    decreases s.len(),
{
    if s.len() > 0 {
        lemma_sum_pot_nonneg(s.drop_last(), find_min);
    }
}

proof fn lemma_sum_pot_update(s: Seq<Option<u32>>, find_min: bool, i: int, v: Option<u32>)
    requires
        0 <= i < s.len(),
    ensures
        sum_pot(s.update(i, v), find_min) == sum_pot(s, find_min) - label_pot(s[i], find_min)
            + label_pot(v, find_min),
    decreases s.len(),
{
    let t = s.update(i, v);
    if i == s.len() - 1 {
        assert(t.drop_last() =~= s.drop_last());
        assert(t.last() == v);
    } else {
        assert(t.drop_last() =~= s.drop_last().update(i, v));
        lemma_sum_pot_update(s.drop_last(), find_min, i, v);
        assert(t.last() == s.last());
    }
}

/// Compute the total traversal cost of an optimal-by-search path from the
/// top-left cell to the bottom-right cell of a valid grid.
///
/// With `find_min` the frontier settles cheapest-first — a Dijkstra search:
/// the returned total is proved minimal over all paths, and a total is
/// returned whenever the staircase walk across the grid costs at most
/// `u32::MAX`. Without it the frontier settles most-expensive-first,
/// reusing the same loop for the opposite goal; the returned total is the
/// cost of a real path but not necessarily the largest, and on grids with
/// positive-weight cycles this greedy pass may revisit cells many times. A
/// candidate cost that would exceed `u32::MAX` is never taken, so no total
/// ever overflows; the search returns `None` only if the frontier drains
/// without the bottom-right cell ever being settled.
#[verifier::rlimit(100)]
pub fn find_path(grid: &Vec<Vec<u32>>, find_min: bool) -> (r: Option<u32>)
    requires
        valid_grid(gview(grid)),
        gview(grid).len() * gview(grid)[0].len() <= usize::MAX,
    ensures
        (r matches Some(c) ==> exists|p: Seq<(int, int)>|
            is_path(gview(grid), p) && path_cost(gview(grid), p) == c as int),
        find_min ==> (r matches Some(c) ==> forall|p: Seq<(int, int)>|
            #[trigger] is_path(gview(grid), p) ==> path_cost(gview(grid), p) >= c as int),
        find_min && path_cost(gview(grid), staircase(gview(grid))) <= u32::MAX ==> r is Some,
        gview(grid).len() == 1 && gview(grid)[0].len() == 1 ==> r == Some(gview(grid)[0][0]),
{
    let ghost g = gview(grid);
    let rows = grid.len();
    let cols = grid[0].len();

    if rows == 1 && cols == 1 {
        let w = grid[0][0];
        proof {
            let p = seq![(0int, 0int)];
            assert(p.drop_last() =~= Seq::<(int, int)>::empty());
            assert(path_cost(g, Seq::<(int, int)>::empty()) == 0);
            assert(path_cost(g, p) == g[0][0]);
            assert(is_path(g, p));
            assert forall|q: Seq<(int, int)>| #[trigger] is_path(g, q) implies path_cost(g, q)
                >= w as int by {
                lemma_path_cost_at_least_last(g, q);
            }
        }
        return Some(w);
    }

    let n = rows * cols;
    let mut dists: Vec<Option<u32>> = Vec::new();
    while dists.len() < n
        invariant
            dists@.len() <= n,
            forall|k: int| 0 <= k < dists@.len() ==> (#[trigger] dists@[k]) is None,
        decreases n - dists@.len(),
    {
        dists.push(None);
    }

    // Seed: the start cell's own weight counts toward every total.
    let w0 = grid[0][0];
    proof {
        assert(n >= 1) by (nonlinear_arith)
            requires
                rows >= 1,
                cols >= 1,
                n == rows * cols,
        ;
    }
    dists[0] = Some(w0);
    let mut frontier: Vec<(u32, usize, usize)> = Vec::new();
    frontier.push((w0, 0, 0));
    proof {
        let p = seq![(0int, 0int)];
        assert(p.drop_last() =~= Seq::<(int, int)>::empty());
        assert(path_cost(g, Seq::<(int, int)>::empty()) == 0);
        assert(path_cost(g, p) == g[0][0]);
        assert(reaches(g, p, (0int, 0int)));
        assert(entry_ok(g, (w0, 0, 0)));
    }
    // The settled cells: popped at a label that, for the minimizing mode,
    // is proved to undercut every walk that reaches them.
    let ghost mut settled: Set<(int, int)> = Set::empty();
    proof {
        if find_min {
            assert((0int) * (cols as int) + (0int) == 0) by (nonlinear_arith);
            assert(label_of(dists@, cols as int, (0, 0)) == Some(w0));
            assert forall|v: (int, int)|
                in_bounds(v, g.len() as int, g[0].len() as int) && !settled.contains(v) && (
                #[trigger] label_of(dists@, g[0].len() as int, v)) is Some implies exists|k: int|
                0 <= k < frontier@.len() && (#[trigger] frontier@[k]).1 == v.0 && frontier@[k].2
                    == v.1 && frontier@[k].0 == label_of(dists@, g[0].len() as int, v)->0 by {
                assert(0 <= v.0 * (cols as int) + v.1 < n as int) by (nonlinear_arith)
                    requires
                        0 <= v.0 < rows as int,
                        0 <= v.1 < cols as int,
                        n == rows * cols,
                ;
                assert((0int) * (cols as int) + (0int) == 0) by (nonlinear_arith);
                if v.0 * (cols as int) + v.1 == 0 {
                    lemma_index_injective(cols as int, v, (0, 0));
                    assert(frontier@[0] == (w0, 0usize, 0usize));
                } else {
                    assert(false);
                }
            }
            assert(unsettled_has_entry(g, dists@, frontier@, settled));
            assert(entries_ge_labels(dists@, cols as int, frontier@)) by {
                assert(frontier@[0] == (w0, 0usize, 0usize));
                assert(label_of(dists@, cols as int, (0, 0)) == Some(w0));
            }
        }
    }

    while frontier.len() > 0
        invariant
            g == gview(grid),
            valid_grid(g),
            rows == g.len(),
            cols == g[0].len(),
            rows >= 1,
            cols >= 1,
            n == rows * cols,
            n <= usize::MAX,
            !(rows == 1 && cols == 1),
            dists@.len() == n,
            forall|k: int| 0 <= k < frontier@.len() ==> entry_ok(g, #[trigger] frontier@[k]),
            find_min ==> settled_ok(g, dists@, settled),
            find_min ==> closure_ok(g, dists@, settled),
            find_min ==> entries_ge_labels(dists@, cols as int, frontier@),
            find_min ==> unsettled_has_entry(g, dists@, frontier@, settled),
            find_min ==> start_label_ok(g, dists@),
            find_min ==> !settled.contains(((rows - 1) as int, (cols - 1) as int)),
        decreases frontier@.len() + sum_pot(dists@, find_min),
    {

        // Pop the frontier entry that is best for the current mode: the
        // smallest cost when minimizing, the largest when maximizing.
        let mut best_i: usize = 0;
        let mut j: usize = 1;
        while j < frontier.len()
            invariant
                frontier@.len() >= 1,
                best_i < frontier@.len(),
                1 <= j <= frontier@.len(),
                find_min ==> forall|k: int|
                    0 <= k < j ==> frontier@[best_i as int].0 <= (#[trigger] frontier@[k]).0,
            decreases frontier@.len() - j,
        {
            let better = if find_min {
                frontier[j].0 < frontier[best_i].0
            } else {
                frontier[j].0 > frontier[best_i].0
            };
            if better {
                best_i = j;
            }
            j = j + 1;
        }

        let ghost old_frontier = frontier@;
        let e = frontier.swap_remove(best_i);
        let (cost, er, ec) = e;
        let ghost epos = (er as int, ec as int);
        proof {
            assert(entry_ok(g, e));
            assert forall|k: int| 0 <= k < frontier@.len() implies entry_ok(
                g,
                #[trigger] frontier@[k],
            ) by {
                assert(frontier@[k] == old_frontier[k] || frontier@[k] == old_frontier.last());
            }
            if find_min {
                // The popped entry was the cheapest of the whole frontier,
                // and every labeled, unsettled cell kept an entry at its
                // label, so no unsettled label is below `cost`.
                assert(old_frontier[best_i as int] == e);
                assert(label_of(dists@, cols as int, epos) is Some && cost >= label_of(
                    dists@,
                    cols as int,
                    epos,
                )->0);
                assert(labels_ge(g, dists@, settled, cost as int)) by {
                    assert forall|v: (int, int)|
                        in_bounds(v, g.len() as int, g[0].len() as int) && !settled.contains(v)
                            && (#[trigger] label_of(dists@, g[0].len() as int, v)) is Some implies
                        cost as int <= label_of(dists@, g[0].len() as int, v)->0 by {
                        let k0 = choose|k: int|
                            0 <= k < old_frontier.len() && (#[trigger] old_frontier[k]).1 == v.0
                                && old_frontier[k].2 == v.1 && old_frontier[k].0 == label_of(
                                dists@,
                                g[0].len() as int,
                                v,
                            )->0;
                        assert(cost <= old_frontier[k0].0);
                    }
                }
                assert(entries_ge_labels(dists@, cols as int, frontier@)) by {
                    assert forall|k: int| 0 <= k < frontier@.len() implies {
                        let v = ((#[trigger] frontier@[k]).1 as int, frontier@[k].2 as int);
                        label_of(dists@, cols as int, v) is Some && frontier@[k].0 >= label_of(
                            dists@,
                            cols as int,
                            v,
                        )->0
                    } by {
                        assert(frontier@[k] == old_frontier[k] || frontier@[k]
                            == old_frontier.last());
                    }
                }
                // After the removal, every labeled cell other than the
                // popped one still has its label entry.
                assert(unsettled_has_entry(g, dists@, frontier@, settled.insert(epos))) by {
                    assert forall|v: (int, int)|
                        in_bounds(v, g.len() as int, g[0].len() as int) && !settled.insert(
                            epos,
                        ).contains(v) && (#[trigger] label_of(dists@, g[0].len() as int, v))
                            is Some implies exists|k: int|
                        0 <= k < frontier@.len() && (#[trigger] frontier@[k]).1 == v.0
                            && frontier@[k].2 == v.1 && frontier@[k].0 == label_of(
                            dists@,
                            g[0].len() as int,
                            v,
                        )->0 by {
                        let k0 = choose|k: int|
                            0 <= k < old_frontier.len() && (#[trigger] old_frontier[k]).1 == v.0
                                && old_frontier[k].2 == v.1 && old_frontier[k].0 == label_of(
                                dists@,
                                g[0].len() as int,
                                v,
                            )->0;
                        assert(old_frontier[k0].1 != er || old_frontier[k0].2 != ec);
                        assert(k0 != best_i as int);
                        if k0 < old_frontier.len() - 1 {
                            assert(frontier@[k0] == old_frontier[k0]);
                        } else {
                            assert(frontier@[best_i as int] == old_frontier[k0]);
                        }
                    }
                }
                // An unsettled popped cell is popped exactly at its label.
                if !settled.contains(epos) {
                    assert(cost as int <= label_of(dists@, cols as int, epos)->0);
                    assert(label_of(dists@, cols as int, epos) == Some(cost));
                }
            }
        }

        // First settlement of the end cell is the answer.
        if er == rows - 1 && ec == cols - 1 {
            proof {
                let p = choose|p: Seq<(int, int)>|
                    reaches(g, p, (er as int, ec as int)) && path_cost(g, p) == cost as int;
                assert(is_path(g, p));
                if find_min {
                    assert forall|q: Seq<(int, int)>| #[trigger] is_path(g, q) implies path_cost(
                        g,
                        q,
                    ) >= cost as int by {
                        lemma_pop_is_lower_bound(g, dists@, settled, cost as int, q, epos);
                    }
                }
            }
            return Some(cost);
        }

        proof {
            assert((er as int) * (cols as int) + (ec as int) < (rows as int) * (cols as int))
                by (nonlinear_arith)
                requires
                    (er as int) < rows as int,
                    (ec as int) < cols as int,
                    cols as int >= 1,
            ;
        }
        let idx = er * cols + ec;
        // A superseded entry: a better label was found after this entry was
        // pushed, so it is discarded without being expanded.
        let stale = match dists[idx] {
            Option::Some(best_lbl) => if find_min {
                cost > best_lbl
            } else {
                cost < best_lbl
            },
            Option::None => false,
        };

        if !stale {
            proof {
                if find_min {
                    // Popped no worse than the label, and not stale: the pop
                    // happens exactly at the label.
                    assert(label_of(dists@, cols as int, epos) == Some(cost));
                }
            }
            let nbrs = get_neighbors((er, ec), rows, cols);
            let ghost phi1 = frontier@.len() + sum_pot(dists@, find_min);
            let mut t: usize = 0;
            while t < nbrs.len()
                invariant
                    g == gview(grid),
                    valid_grid(g),
                    rows == g.len(),
                    cols == g[0].len(),
                    rows >= 1,
                    cols >= 1,
                    n == rows * cols,
                    n <= usize::MAX,
                    dists@.len() == n,
                    er < rows,
                    ec < cols,
                    epos == (er as int, ec as int),
                    entry_ok(g, (cost, er, ec)),
                    t <= nbrs@.len(),
                    forall|q: (usize, usize)| #[trigger]
                        nbrs@.contains(q) ==> q.0 < rows && q.1 < cols && hex_adjacent(
                            (er as int, ec as int),
                            (q.0 as int, q.1 as int),
                        ),
                    forall|k: int| 0 <= k < frontier@.len() ==> entry_ok(
                        g,
                        #[trigger] frontier@[k],
                    ),
                    frontier@.len() + sum_pot(dists@, find_min) <= phi1,
                    find_min ==> settled_ok(g, dists@, settled),
                    find_min ==> closure_ok(g, dists@, settled),
                    find_min ==> entries_ge_labels(dists@, cols as int, frontier@),
                    find_min ==> unsettled_has_entry(
                        g,
                        dists@,
                        frontier@,
                        settled.insert((er as int, ec as int)),
                    ),
                    find_min ==> labels_ge(g, dists@, settled, cost as int),
                    find_min ==> start_label_ok(g, dists@),
                    find_min ==> label_of(dists@, cols as int, (er as int, ec as int)) == Some(
                        cost,
                    ),
                    find_min ==> forall|x: int| 0 <= x < t ==> {
                        let u = #[trigger] nbrs@[x];
                        ||| cost + g[u.0 as int][u.1 as int] > u32::MAX
                        ||| (label_of(dists@, cols as int, (u.0 as int, u.1 as int)) is Some
                            && label_of(dists@, cols as int, (u.0 as int, u.1 as int))->0 <= cost
                            + g[u.0 as int][u.1 as int])
                    },
                decreases nbrs@.len() - t,
            {
                let (nr, nc) = nbrs[t];
                proof {
                    assert(nbrs@.contains(nbrs@[t as int]));
                    assert(g[nr as int].len() == cols);
                }
                let nw = grid[nr][nc];
                let ghost upos = (nr as int, nc as int);
                match cost.checked_add(nw) {
                    Option::None => {
                        proof {
                            assert(cost + g[upos.0][upos.1] > u32::MAX);
                        }
                    },
                    Option::Some(cand) => {
                        proof {
                            assert((nr as int) * (cols as int) + (nc as int) < (rows as int)
                                * (cols as int)) by (nonlinear_arith)
                                requires
                                    (nr as int) < rows as int,
                                    (nc as int) < cols as int,
                                    cols as int >= 1,
                            ;
                        }
                        let nidx = nr * cols + nc;
                        let improve = match dists[nidx] {
                            Option::None => true,
                            Option::Some(b) => if find_min {
                                cand < b
                            } else {
                                cand > b
                            },
                        };
                        if improve {
                            let ghost old_dists = dists@;
                            let ghost old_front = frontier@;
                            proof {
                                let p0 = choose|p: Seq<(int, int)>|
                                    reaches(g, p, (er as int, ec as int)) && path_cost(g, p)
                                        == cost as int;
                                let p1 = p0.push((nr as int, nc as int));
                                assert(p1.drop_last() =~= p0);
                                assert(p1[p1.len() - 1] == (nr as int, nc as int));
                                assert(path_cost(g, p1) == cost + nw);
                                assert forall|i: int| 0 <= i < p1.len() implies in_bounds(
                                    #[trigger] p1[i],
                                    g.len() as int,
                                    g[0].len() as int,
                                ) by {
                                    if i < p0.len() {
                                        assert(p1[i] == p0[i]);
                                    }
                                }
                                assert forall|i: int| 0 <= i < p1.len() - 1 implies hex_adjacent(
                                    #[trigger] p1[i],
                                    p1[i + 1],
                                ) by {
                                    if i < p0.len() - 1 {
                                        assert(p1[i] == p0[i] && p1[i + 1] == p0[i + 1]);
                                    } else {
                                        assert(p1[i] == p0[p0.len() - 1]);
                                    }
                                }
                                assert(reaches(g, p1, (nr as int, nc as int)));
                                assert(entry_ok(g, (cand, nr, nc)));
                                if find_min {
                                    // A settled cell's label beats every walk,
                                    // including this improving one: the
                                    // improved cell cannot be settled.
                                    if settled.contains(upos) {
                                        assert(min_walks_at_least(
                                            g,
                                            upos,
                                            label_of(old_dists, cols as int, upos)->0 as int,
                                        ));
                                        assert(path_cost(g, p1) >= label_of(
                                            old_dists,
                                            cols as int,
                                            upos,
                                        )->0);
                                        assert(false);
                                    }
                                }
                                lemma_sum_pot_update(
                                    old_dists,
                                    find_min,
                                    nidx as int,
                                    Some(cand),
                                );
                            }
                            dists[nidx] = Some(cand);
                            frontier.push((cand, nr, nc));
                            proof {
                                if find_min {
                                    lemma_improve_preserves(
                                        g,
                                        old_dists,
                                        dists@,
                                        old_front,
                                        frontier@,
                                        settled,
                                        cost,
                                        er,
                                        ec,
                                        nr,
                                        nc,
                                        cand,
                                        nidx,
                                    );
                                    assert forall|x: int| 0 <= x < t implies {
                                        let u = #[trigger] nbrs@[x];
                                        ||| cost + g[u.0 as int][u.1 as int] > u32::MAX
                                        ||| (label_of(
                                            dists@,
                                            cols as int,
                                            (u.0 as int, u.1 as int),
                                        ) is Some && label_of(
                                            dists@,
                                            cols as int,
                                            (u.0 as int, u.1 as int),
                                        )->0 <= cost + g[u.0 as int][u.1 as int])
                                    } by {
                                        let u = nbrs@[x];
                                        assert(nbrs@.contains(u));
                                        if (u.0 as int, u.1 as int) != upos {
                                            assert(label_of(
                                                dists@,
                                                cols as int,
                                                (u.0 as int, u.1 as int),
                                            ) == label_of(
                                                old_dists,
                                                cols as int,
                                                (u.0 as int, u.1 as int),
                                            ));
                                        }
                                    }
                                }
                            }
                        } else {
                            proof {
                                if find_min {
                                    assert(label_of(dists@, cols as int, upos) is Some
                                        && label_of(dists@, cols as int, upos)->0 <= cost
                                        + g[upos.0][upos.1]);
                                }
                            }
                        }
                    },
                }
                t = t + 1;
            }
            proof {
                if find_min {
                    // The popped cell is settled: its label undercuts every
                    // walk, and each neighbor has been offered its
                    // relaxation.
                    if !settled.contains(epos) {
                        assert forall|q: Seq<(int, int)>| #[trigger] reaches(g, q, epos) implies
                            path_cost(g, q) >= cost as int by {
                            lemma_pop_is_lower_bound(g, dists@, settled, cost as int, q, epos);
                        }
                        assert(min_walks_at_least(g, epos, cost as int));
                    } else {
                        assert(min_walks_at_least(g, epos, cost as int));
                    }
                    let ghost old_settled = settled;
                    settled = settled.insert(epos);
                    assert(settled_ok(g, dists@, settled)) by {
                        assert forall|v: (int, int)| #[trigger] settled.contains(v) implies {
                            &&& in_bounds(v, g.len() as int, g[0].len() as int)
                            &&& label_of(dists@, g[0].len() as int, v) is Some
                            &&& min_walks_at_least(
                                g,
                                v,
                                label_of(dists@, g[0].len() as int, v)->0 as int,
                            )
                        } by {
                            if v != epos {
                                assert(old_settled.contains(v));
                            }
                        }
                    }
                    assert(closure_ok(g, dists@, settled)) by {
                        assert forall|v: (int, int), u: (int, int)|
                            #![trigger settled.contains(v), hex_adjacent(v, u)]
                            settled.contains(v) && in_bounds(
                                u,
                                g.len() as int,
                                g[0].len() as int,
                            ) && hex_adjacent(v, u) && label_of(dists@, g[0].len() as int, v)
                                is Some implies {
                            ||| label_of(dists@, g[0].len() as int, v)->0 + g[u.0][u.1]
                                > u32::MAX
                            ||| (label_of(dists@, g[0].len() as int, u) is Some && label_of(
                                dists@,
                                g[0].len() as int,
                                u,
                            )->0 <= label_of(dists@, g[0].len() as int, v)->0 + g[u.0][u.1])
                        } by {
                            if v == epos {
                                let uu = ((u.0 as usize), (u.1 as usize));
                                assert(uu.0 < rows && uu.1 < cols && hex_adjacent(
                                    epos,
                                    (uu.0 as int, uu.1 as int),
                                ));
                                assert(nbrs@.contains(uu));
                                let x = choose|x: int| 0 <= x < nbrs@.len() && nbrs@[x] == uu;
                                assert(nbrs@[x] == uu);
                            } else {
                                assert(old_settled.contains(v));
                            }
                        }
                    }
                }
            }
        } else {
            proof {
                if find_min {
                    // A stale pop names a cell that was already settled: an
                    // unsettled cell is always popped at its exact label.
                    assert(settled.contains(epos));
                    assert(settled.insert(epos) =~= settled);
                }
            }
        }
        proof {
            lemma_sum_pot_nonneg(dists@, find_min);
        }
    }
    proof {
        // The frontier drained without settling the end cell. For the
        // minimizing mode this can only happen when the staircase itself
        // overflows 32 bits: otherwise settling spreads along it all the
        // way to the end cell, whose entries are never consumed silently.
        if find_min && path_cost(g, staircase(g)) <= u32::MAX {
            assert forall|v: (int, int)|
                in_bounds(v, g.len() as int, g[0].len() as int) && (#[trigger] label_of(
                    dists@,
                    g[0].len() as int,
                    v,
                )) is Some implies settled.contains(v) by {
                if !settled.contains(v) {
                    assert(false);
                }
            }
            let st = staircase(g);
            lemma_drained_settles_staircase(g, dists@, settled, st.len() - 1);
            assert(st[st.len() - 1] == ((rows - 1) as int, (cols - 1) as int));
            assert(false);
        }
    }
    None
}

} // verus!
