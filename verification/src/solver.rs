//! The A* search loop: a priority-ordered frontier of search nodes, a parent
//! table that doubles as the visited set, and path reconstruction.

use vstd::prelude::*;

use crate::grid::{Grid, Symbol, SymbolIndexable, in_bounds, rectangular, rows_of};
use crate::node::Node;

verus! {

/// The cell `(x, y)` exists and is not blocked.
pub open spec fn passable(g: Seq<Seq<Symbol>>, x: int, y: int) -> bool {
    in_bounds(g, x, y) && g[y][x] != Symbol::Closed
}

/// `a` and `b` are distinct cells one axis-aligned step apart.
pub open spec fn adjacent(a: (int, int), b: (int, int)) -> bool {
    ||| (a.0 == b.0 && (a.1 == b.1 + 1 || a.1 + 1 == b.1))
    ||| (a.1 == b.1 && (a.0 == b.0 + 1 || a.0 + 1 == b.0))
}

/// `p` is a walk over passable cells of `g`, each step axis-aligned.
pub open spec fn is_path(g: Seq<Seq<Symbol>>, p: Seq<(int, int)>) -> bool {
    &&& p.len() >= 1
    &&& forall|i: int| 0 <= i < p.len() ==> passable(g, (#[trigger] p[i]).0, p[i].1)
    &&& forall|i: int| 0 <= i < p.len() - 1 ==> adjacent(#[trigger] p[i], p[i + 1])
}

/// Some walk over passable cells leads from `s` to `f`.
pub open spec fn reachable(g: Seq<Seq<Symbol>>, s: (int, int), f: (int, int)) -> bool {
    exists|p: Seq<(int, int)>| is_path(g, p) && p.first() == s && p.last() == f
}

/// Reversing a path gives a path, so reachability is symmetric.
pub proof fn lemma_path_reverse(g: Seq<Seq<Symbol>>, p: Seq<(int, int)>)
    requires
        is_path(g, p),
    ensures
        is_path(g, p.reverse()),
        p.reverse().first() == p.last(),
        p.reverse().last() == p.first(),
{
    let q = p.reverse();
    assert forall|i: int| 0 <= i < q.len() implies passable(g, (#[trigger] q[i]).0, q[i].1) by {
        assert(q[i] == p[p.len() - 1 - i]);
    }
    assert forall|i: int| 0 <= i < q.len() - 1 implies adjacent(#[trigger] q[i], q[i + 1]) by {
        let j = p.len() - 2 - i;
        assert(q[i] == p[j + 1]);
        assert(q[i + 1] == p[j]);
        assert(adjacent(p[j], p[j + 1]));
    }
}

/// How many cells of the parent table are filled, i.e. discovered.
pub open spec fn count_some(s: Seq<Option<(u64, u64)>>) -> nat
    decreases s.len(),
{
    if s.len() == 0 {
        0
    } else {
        count_some(s.drop_last()) + (if s.last() is Some {
            1nat
        } else {
            0nat
        })
    }
}

proof fn lemma_count_some_le(s: Seq<Option<(u64, u64)>>)
    ensures
        count_some(s) <= s.len(),
    decreases s.len(),
{
    if s.len() > 0 {
        lemma_count_some_le(s.drop_last());
    }
}

proof fn lemma_count_some_update(s: Seq<Option<(u64, u64)>>, i: int, v: (u64, u64))
    requires
        0 <= i < s.len(),
        s[i] is None,
    ensures
        count_some(s.update(i, Some(v))) == count_some(s) + 1,
    decreases s.len(),
{
    let t = s.update(i, Some(v));
    if i == s.len() - 1 {
        assert(t.drop_last() =~= s.drop_last());
    } else {
        assert(t.drop_last() =~= s.drop_last().update(i, Some(v)));
        lemma_count_some_update(s.drop_last(), i, v);
    }
}

/// The index of the first node of least cost: the frontier's extraction
/// order, with ties broken in favour of the earliest-inserted node.
pub open spec fn min_index(s: Seq<Node>) -> int
    decreases s.len(),
{
    if s.len() <= 1 {
        0
    } else {
        let m = min_index(s.drop_last());
        if s.last().cost < s[m].cost {
            s.len() - 1
        } else {
            m
        }
    }
}

proof fn lemma_min_index(s: Seq<Node>)
    requires
        s.len() > 0,
    ensures
        0 <= min_index(s) < s.len(),
        forall|k: int| 0 <= k < s.len() ==> s[min_index(s)].cost <= (#[trigger] s[k]).cost,
        forall|k: int| 0 <= k < min_index(s) ==> (#[trigger] s[k]).cost > s[min_index(s)].cost,
    decreases s.len(),
{
    if s.len() > 1 {
        lemma_min_index(s.drop_last());
        assert forall|k: int| 0 <= k < s.len() - 1 implies s.drop_last()[k] == s[k] by {}
    }
}

/// Removes and returns the first least-cost node of a non-empty frontier.
pub fn extract_min(nodes: &mut Vec<Node>) -> (n: Node)
    requires
        old(nodes)@.len() > 0,
    ensures
        n == old(nodes)@[min_index(old(nodes)@)],
        final(nodes)@ == old(nodes)@.remove(min_index(old(nodes)@)),
{
    let ghost s = nodes@;
    let mut best: usize = 0;
    let mut j: usize = 1;
    while j < nodes.len()
        invariant
            nodes@ == s,
            0 < j <= s.len(),
            0 <= best < j,
            forall|k: int| 0 <= k < j ==> s[best as int].cost <= (#[trigger] s[k]).cost,
            forall|k: int| 0 <= k < best ==> (#[trigger] s[k]).cost > s[best as int].cost,
        decreases s.len() - j,
    {
        if nodes[j].cost < nodes[best].cost {
            best = j;
        }
        j = j + 1;
    }
    proof {
        lemma_min_index(s);
        let m = min_index(s);
        if best < m {
            assert(s[best as int].cost > s[m].cost);
            assert(s[m].cost >= s[best as int].cost);
        }
        if m < best {
            assert(s[m].cost > s[best as int].cost);
            assert(s[best as int].cost >= s[m].cost);
        }
        assert(best == m);
    }
    nodes.remove(best)
}

/// Whether `(x, y)` can be stepped onto: inside the grid and not `Closed`.
/// The width of row zero stands for every row's width; the grid is assumed
/// rectangular and non-empty.
pub fn point_in_bounds(x: u64, y: u64, grid: &Grid) -> (r: bool)
    requires
        rows_of(grid).len() > 0,
        rectangular(rows_of(grid)),
    ensures
        r == passable(rows_of(grid), x as int, y as int),
{
    proof {
        assert(rows_of(grid)[0] == grid@[0]@);
        assert(grid@.len() == grid.len());
        assert(grid@[0]@.len() == grid@[0].len());
    }
    if y >= grid.len() as u64 || x >= grid[0].len() as u64 {
        return false;
    }
    grid.at(x, y) != Symbol::Closed
}

/// A cell-for-cell copy of a grid.
fn clone_grid(g: &Grid) -> (r: Grid)
    ensures
        rows_of(&r) == rows_of(g),
{
    let mut r: Grid = Vec::new();
    let mut y: usize = 0;
    while y < g.len()
        invariant
            0 <= y <= g@.len(),
            r@.len() == y,
            forall|i: int| 0 <= i < y ==> r@[i]@ == #[trigger] g@[i]@,
        decreases g@.len() - y,
    {
        let mut row: Vec<Symbol> = Vec::new();
        let mut x: usize = 0;
        let row_len: usize = g[y].len();
        while x < row_len
            invariant
                y < g@.len(),
                row_len == g@[y as int]@.len(),
                0 <= x <= row_len,
                row@ == g@[y as int]@.take(x as int),
            decreases row_len - x,
        {
            row.push(g[y][x]);
            proof {
                assert(row@ =~= g@[y as int]@.take(x + 1));
            }
            x = x + 1;
        }
        proof {
            assert(row@ =~= g@[y as int]@);
        }
        r.push(row);
        y = y + 1;
    }
    proof {
        assert(rows_of(&r) =~= rows_of(g));
    }
    r
}

/// The parent-table slot of cell `(x, y)` in a grid `width` cells wide: the
/// table is one flat row-major vector.
fn cell_index(width: usize, height: usize, x: u64, y: u64) -> (i: usize)
    requires
        (x as int) < width as int,
        (y as int) < height as int,
        (width as int) * (height as int) <= usize::MAX,
    ensures
        i == (y as int) * (width as int) + (x as int),
        (i as int) < (width as int) * (height as int),
{
    proof {
        assert((y as int) * (width as int) + (x as int) < (width as int) * (height as int))
            by (nonlinear_arith)
            requires
                (x as int) < width as int,
                (y as int) < height as int,
                0 <= x as int,
                0 <= y as int,
                0 <= width as int,
        ;
        assert((y as int) * (width as int) >= 0) by (nonlinear_arith)
            requires
                0 <= y as int,
                0 <= width as int,
        ;
    }
    (y as usize) * width + (x as usize)
}

/// The flat row-major slot of cell `c` in a parent table `w` cells wide.
pub open spec fn cidx(w: int, c: (u64, u64)) -> int {
    (c.1 as int) * w + (c.0 as int)
}

/// `c` addresses a cell of `g`.
pub open spec fn cell_at(g: Seq<Seq<Symbol>>, c: (u64, u64)) -> bool {
    in_bounds(g, c.0 as int, c.1 as int)
}

/// `c` as a pair of mathematical integers.
pub open spec fn ipos(c: (u64, u64)) -> (int, int) {
    (c.0 as int, c.1 as int)
}

/// Cell `c` has been discovered: its parent-table slot is filled.
pub open spec fn discovered(tm: Seq<Option<(u64, u64)>>, w: int, c: (u64, u64)) -> bool {
    tm[cidx(w, c)] is Some
}

/// The recorded discoverer of cell `c`.
pub open spec fn parent_of(tm: Seq<Option<(u64, u64)>>, w: int, c: (u64, u64)) -> (u64, u64) {
    tm[cidx(w, c)]->Some_0
}

/// What holds of one discovered cell `c`: it is not blocked, its discoverer
/// is a discovered cell one step away that was discovered strictly earlier
/// (by `rank`, the discovery order), and the start cell discovered itself.
pub open spec fn entry_ok(
    g: Seq<Seq<Symbol>>,
    w: int,
    tm: Seq<Option<(u64, u64)>>,
    rank: Map<(u64, u64), nat>,
    s: (u64, u64),
    c: (u64, u64),
) -> bool {
    let p = parent_of(tm, w, c);
    &&& g[c.1 as int][c.0 as int] != Symbol::Closed
    &&& cell_at(g, p)
    &&& discovered(tm, w, p)
    &&& rank.dom().contains(c)
    &&& rank[c] < count_some(tm)
    &&& if c == s {
        p == s
    } else {
        &&& adjacent(ipos(p), ipos(c))
        &&& p != c
        &&& rank.dom().contains(p)
        &&& rank[p] < rank[c]
    }
}

/// The parent table is sound: the start maps to itself and every discovered
/// cell has a well-founded chain of discoverers leading back to the start.
pub open spec fn table_ok(
    g: Seq<Seq<Symbol>>,
    w: int,
    tm: Seq<Option<(u64, u64)>>,
    rank: Map<(u64, u64), nat>,
    s: (u64, u64),
) -> bool {
    &&& tm.len() == w * g.len()
    &&& cell_at(g, s)
    &&& tm[cidx(w, s)] == Some(s)
    &&& forall|c: (u64, u64)|
        cell_at(g, c) && #[trigger] discovered(tm, w, c) ==> entry_ok(g, w, tm, rank, s, c)
}

/// A frontier node sits on a discovered cell, carries that cell's recorded
/// discoverer, and its depth never exceeds the number of discovered cells.
pub open spec fn node_ok(g: Seq<Seq<Symbol>>, w: int, tm: Seq<Option<(u64, u64)>>, n: Node) -> bool {
    &&& cell_at(g, n.pos())
    &&& discovered(tm, w, n.pos())
    &&& parent_of(tm, w, n.pos()) == (n.parent_x, n.parent_y)
    &&& n.depth <= count_some(tm)
}

#[verifier::opaque]
pub open spec fn frontier_ok(
    g: Seq<Seq<Symbol>>,
    w: int,
    tm: Seq<Option<(u64, u64)>>,
    nodes: Seq<Node>,
) -> bool {
    forall|i: int| 0 <= i < nodes.len() ==> node_ok(g, w, tm, #[trigger] nodes[i])
}

/// A well-formed input grid: non-empty, rectangular, exactly one `Start` and
/// one `Finish`, and no `Route` markers (those are output-only).
pub open spec fn well_formed(g: Seq<Seq<Symbol>>) -> bool {
    &&& g.len() > 0
    &&& rectangular(g)
    &&& crate::grid::exactly_one(g, Symbol::Start)
    &&& crate::grid::exactly_one(g, Symbol::Finish)
    &&& forall|x: int, y: int| #[trigger] in_bounds(g, x, y) ==> g[y][x] != Symbol::Route
}

/// Machine limits under which the search is verified: each dimension fits in
/// 31 bits (so heuristic arithmetic fits a word) and the cell count fits the
/// address space.
pub open spec fn sized_for_search(g: Seq<Seq<Symbol>>) -> bool {
    &&& g.len() <= 0x8000_0000
    &&& g[0].len() <= 0x8000_0000
    &&& g[0].len() * g.len() <= usize::MAX
}

/// The unique cell of `g` holding `t`, for grids where it is unique.
pub open spec fn marker_cell(g: Seq<Seq<Symbol>>, t: Symbol) -> (int, int) {
    choose|c: (int, int)| in_bounds(g, c.0, c.1) && g[c.1][c.0] == t
}

proof fn lemma_cidx_in_range(g: Seq<Seq<Symbol>>, w: int, c: (u64, u64))
    requires
        g.len() > 0,
        rectangular(g),
        w == g[0].len(),
        cell_at(g, c),
    ensures
        0 <= cidx(w, c) < w * g.len(),
{
    assert(g[c.1 as int].len() == w);
    assert((c.1 as int) * w + (c.0 as int) < w * g.len() && 0 <= (c.1 as int) * w)
        by (nonlinear_arith)
        requires
            0 <= (c.0 as int) && (c.0 as int) < w,
            0 <= (c.1 as int) && (c.1 as int) < g.len(),
    ;
}

proof fn lemma_cidx_injective(g: Seq<Seq<Symbol>>, w: int, a: (u64, u64), b: (u64, u64))
    requires
        g.len() > 0,
        rectangular(g),
        w == g[0].len(),
        cell_at(g, a),
        cell_at(g, b),
        cidx(w, a) == cidx(w, b),
    ensures
        a == b,
{
    assert(g[a.1 as int].len() == w);
    assert(g[b.1 as int].len() == w);
    assert(a.0 as int == b.0 as int && a.1 as int == b.1 as int) by (nonlinear_arith)
        requires
            0 <= (a.0 as int) && (a.0 as int) < w,
            0 <= (b.0 as int) && (b.0 as int) < w,
            0 <= a.1 as int,
            0 <= b.1 as int,
            (a.1 as int) * w + (a.0 as int) == (b.1 as int) * w + (b.0 as int),
    ;
}

proof fn lemma_gap_bound(a: (u64, u64), b: (u64, u64))
    requires
        a.0 < 0x8000_0000,
        a.1 < 0x8000_0000,
        b.0 < 0x8000_0000,
        b.1 < 0x8000_0000,
    ensures
        crate::heuristic::axis_gap(a.0, b.0) * crate::heuristic::axis_gap(a.0, b.0)
            + crate::heuristic::axis_gap(a.1, b.1) * crate::heuristic::axis_gap(a.1, b.1)
            <= u64::MAX,
{
    let dx = crate::heuristic::axis_gap(a.0, b.0);
    let dy = crate::heuristic::axis_gap(a.1, b.1);
    assert(dx * dx + dy * dy <= u64::MAX) by (nonlinear_arith)
        requires
            0 <= dx < 0x8000_0000,
            0 <= dy < 0x8000_0000,
    ;
}

/// Some frontier node sits on cell `c`.
#[verifier::opaque]
pub open spec fn in_frontier(nodes: Seq<Node>, c: (u64, u64)) -> bool {
    exists|i: int| 0 <= i < nodes.len() && (#[trigger] nodes[i]).pos() == c
}

/// Every passable neighbour of `c` has been discovered: `c` contributes
/// nothing more to the search.
#[verifier::opaque]
pub open spec fn expanded(g: Seq<Seq<Symbol>>, tm: Seq<Option<(u64, u64)>>, w: int, c: (u64, u64)) -> bool {
    &&& c.0 > 0 ==> (passable(g, c.0 - 1, c.1 as int) ==> discovered(tm, w, (((c.0 - 1) as u64), c.1)))
    &&& passable(g, c.0 + 1, c.1 as int) ==> discovered(tm, w, (((c.0 + 1) as u64), c.1))
    &&& c.1 > 0 ==> (passable(g, c.0 as int, c.1 - 1) ==> discovered(tm, w, (c.0, ((c.1 - 1) as u64))))
    &&& passable(g, c.0 as int, c.1 + 1) ==> discovered(tm, w, (c.0, ((c.1 + 1) as u64)))
}

/// How one expansion step may change the search state: the frontier is only
/// appended to, discovered cells stay discovered, and a cell discovered by
/// the step sits on the new frontier.
#[verifier::opaque]
pub open spec fn stage_ok(
    g: Seq<Seq<Symbol>>,
    w: int,
    t0: Seq<Option<(u64, u64)>>,
    o0: Seq<Node>,
    t1: Seq<Option<(u64, u64)>>,
    o1: Seq<Node>,
) -> bool {
    &&& o1.len() >= o0.len()
    &&& forall|i: int| 0 <= i < o0.len() ==> o1[i] == o0[i]
    &&& forall|c: (u64, u64)| cell_at(g, c) && #[trigger] discovered(t0, w, c) ==> discovered(t1, w, c)
    &&& forall|c: (u64, u64)|
        cell_at(g, c) && #[trigger] discovered(t1, w, c) && !discovered(t0, w, c) ==> in_frontier(o1, c)
}

proof fn lemma_stage_trans(
    g: Seq<Seq<Symbol>>,
    w: int,
    t0: Seq<Option<(u64, u64)>>,
    o0: Seq<Node>,
    t1: Seq<Option<(u64, u64)>>,
    o1: Seq<Node>,
    t2: Seq<Option<(u64, u64)>>,
    o2: Seq<Node>,
)
    requires
        stage_ok(g, w, t0, o0, t1, o1),
        stage_ok(g, w, t1, o1, t2, o2),
    ensures
        stage_ok(g, w, t0, o0, t2, o2),
{
    reveal(stage_ok);
    reveal(in_frontier);
    assert forall|c: (u64, u64)|
        cell_at(g, c) && #[trigger] discovered(t2, w, c) && !discovered(t0, w, c) implies in_frontier(
        o2,
        c,
    ) by {
        if discovered(t1, w, c) {
            assert(in_frontier(o1, c));
            let i = choose|i: int| 0 <= i < o1.len() && (#[trigger] o1[i]).pos() == c;
            assert(o2[i] == o1[i]);
        }
    }
}

proof fn lemma_expanded_monotone(
    g: Seq<Seq<Symbol>>,
    w: int,
    t0: Seq<Option<(u64, u64)>>,
    t1: Seq<Option<(u64, u64)>>,
    c: (u64, u64),
)
    requires
        g.len() > 0,
        rectangular(g),
        w == g[0].len(),
        cell_at(g, c),
        expanded(g, t0, w, c),
        forall|d: (u64, u64)| cell_at(g, d) && #[trigger] discovered(t0, w, d) ==> discovered(t1, w, d),
    ensures
        expanded(g, t1, w, c),
{
    reveal(expanded);
}

proof fn lemma_stage_refl(g: Seq<Seq<Symbol>>, w: int, t: Seq<Option<(u64, u64)>>, o: Seq<Node>)
    ensures
        stage_ok(g, w, t, o, t, o),
{
    reveal(stage_ok);
}

/// Recording `cur` as the discoverer of the fresh cell `nc` keeps the parent
/// table sound, with `nc` ranked after every cell discovered so far.
#[verifier::rlimit(100)]
proof fn lemma_table_discover(
    g: Seq<Seq<Symbol>>,
    w: int,
    tprev: Seq<Option<(u64, u64)>>,
    rank_in: Map<(u64, u64), nat>,
    s: (u64, u64),
    cur: (u64, u64),
    nc: (u64, u64),
)
    requires
        g.len() > 0,
        rectangular(g),
        w == g[0].len(),
        table_ok(g, w, tprev, rank_in, s),
        cell_at(g, nc),
        g[nc.1 as int][nc.0 as int] != Symbol::Closed,
        !discovered(tprev, w, nc),
        cell_at(g, cur),
        discovered(tprev, w, cur),
        adjacent(ipos(nc), ipos(cur)),
        nc != cur,
    ensures
        table_ok(
            g,
            w,
            tprev.update(cidx(w, nc), Some(cur)),
            rank_in.insert(nc, count_some(tprev)),
            s,
        ),
        count_some(tprev.update(cidx(w, nc), Some(cur))) == count_some(tprev) + 1,
{
    reveal(table_ok);
    lemma_cidx_in_range(g, w, nc);
    lemma_count_some_update(tprev, cidx(w, nc), cur);
    let tnew = tprev.update(cidx(w, nc), Some(cur));
    let rank_new = rank_in.insert(nc, count_some(tprev));
    lemma_cidx_in_range(g, w, s);
    assert(cidx(w, s) != cidx(w, nc)) by {
        assert(discovered(tprev, w, s));
    }
    assert(tnew[cidx(w, s)] == Some(s));
    assert forall|c: (u64, u64)|
        cell_at(g, c) && #[trigger] discovered(tnew, w, c) implies entry_ok(
        g,
        w,
        tnew,
        rank_new,
        s,
        c,
    ) by {
        lemma_cidx_in_range(g, w, c);
        if cidx(w, c) == cidx(w, nc) {
            lemma_cidx_injective(g, w, c, nc);
            assert(c == nc);
            assert(parent_of(tnew, w, c) == cur);
            lemma_cidx_in_range(g, w, cur);
            assert(entry_ok(g, w, tprev, rank_in, s, cur));
            assert(cidx(w, cur) != cidx(w, nc)) by {
                assert(discovered(tprev, w, cur));
            }
            assert(discovered(tnew, w, cur));
            assert(rank_in[cur] < count_some(tprev));
            assert(s != nc) by {
                assert(discovered(tprev, w, s));
            }
        } else {
            assert(discovered(tprev, w, c));
            assert(entry_ok(g, w, tprev, rank_in, s, c));
            let p = parent_of(tprev, w, c);
            lemma_cidx_in_range(g, w, p);
            assert(parent_of(tnew, w, c) == p);
            assert(discovered(tnew, w, p));
            assert(c != nc) by {
                if c == nc {
                    assert(discovered(tprev, w, nc));
                }
            }
            if c != s {
                assert(p != nc) by {
                    assert(discovered(tprev, w, p));
                }
            }
        }
    }
}

/// Filling the slot of a fresh cell disturbs no frontier node: each still
/// sits on a discovered cell with its recorded discoverer.
proof fn lemma_frontier_keep(
    g: Seq<Seq<Symbol>>,
    w: int,
    tprev: Seq<Option<(u64, u64)>>,
    tnew: Seq<Option<(u64, u64)>>,
    o: Seq<Node>,
    cur: (u64, u64),
    nc: (u64, u64),
)
    requires
        g.len() > 0,
        rectangular(g),
        w == g[0].len(),
        tprev.len() == w * g.len(),
        cell_at(g, nc),
        !discovered(tprev, w, nc),
        tnew == tprev.update(cidx(w, nc), Some(cur)),
        frontier_ok(g, w, tprev, o),
        count_some(tnew) == count_some(tprev) + 1,
    ensures
        frontier_ok(g, w, tnew, o),
{
    reveal(frontier_ok);
    lemma_cidx_in_range(g, w, nc);
    assert forall|i: int| 0 <= i < o.len() implies node_ok(g, w, tnew, #[trigger] o[i]) by {
        assert(node_ok(g, w, tprev, o[i]));
        lemma_cidx_in_range(g, w, o[i].pos());
        assert(cidx(w, o[i].pos()) != cidx(w, nc)) by {
            if cidx(w, o[i].pos()) == cidx(w, nc) {
                assert(discovered(tprev, w, o[i].pos()));
            }
        }
    }
}

/// Pushing the frontier node of a freshly discovered cell: the grown
/// frontier is sound, and the step as a whole is one legitimate stage.
#[verifier::rlimit(100)]
proof fn lemma_push_stage(
    g: Seq<Seq<Symbol>>,
    w: int,
    tprev: Seq<Option<(u64, u64)>>,
    tnew: Seq<Option<(u64, u64)>>,
    o: Seq<Node>,
    n: Node,
    cur: (u64, u64),
    nc: (u64, u64),
)
    requires
        g.len() > 0,
        rectangular(g),
        w == g[0].len(),
        tprev.len() == w * g.len(),
        cell_at(g, nc),
        !discovered(tprev, w, nc),
        tnew == tprev.update(cidx(w, nc), Some(cur)),
        frontier_ok(g, w, tnew, o),
        node_ok(g, w, tnew, n),
        n.pos() == nc,
    ensures
        frontier_ok(g, w, tnew, o.push(n)),
        stage_ok(g, w, tprev, o, tnew, o.push(n)),
{
    reveal(frontier_ok);
    reveal(stage_ok);
    reveal(in_frontier);
    lemma_cidx_in_range(g, w, nc);
    let o2 = o.push(n);
    assert forall|i: int| 0 <= i < o2.len() implies node_ok(g, w, tnew, #[trigger] o2[i]) by {
        if i < o.len() {
            assert(o2[i] == o[i]);
        } else {
            assert(o2[i] == n);
        }
    }
    assert forall|c: (u64, u64)|
        cell_at(g, c) && #[trigger] discovered(tprev, w, c) implies discovered(tnew, w, c) by {
        lemma_cidx_in_range(g, w, c);
    }
    assert forall|c: (u64, u64)|
        cell_at(g, c) && #[trigger] discovered(tnew, w, c) && !discovered(tprev, w, c)
        implies in_frontier(o2, c) by {
        lemma_cidx_in_range(g, w, c);
        if cidx(w, c) == cidx(w, nc) {
            lemma_cidx_injective(g, w, c, nc);
            assert(o2[o2.len() - 1].pos() == c);
        }
    }
}

/// One expansion step of the search: if the neighbour cell `(nx, ny)` of the
/// just-expanded node `current` is inside the grid, not blocked, and not yet
/// discovered, record `current`'s position as its discoverer and push a
/// frontier node for it, scored by heuristic plus depth; otherwise change
/// nothing.
#[verifier::rlimit(100)]
fn expand_neighbor(
    grid: &Grid,
    width: usize,
    height: usize,
    nx: u64,
    ny: u64,
    finish_x: u64,
    finish_y: u64,
    current: Node,
    table: &mut Vec<Option<(u64, u64)>>,
    open_nodes: &mut Vec<Node>,
    Ghost(rank_in): Ghost<Map<(u64, u64), nat>>,
    Ghost(s): Ghost<(u64, u64)>,
) -> (rank_out: Ghost<Map<(u64, u64), nat>>)
    requires
        rows_of(grid).len() == height > 0,
        rectangular(rows_of(grid)),
        rows_of(grid)[0].len() == width,
        width <= 0x8000_0000,
        height <= 0x8000_0000,
        (width as int) * (height as int) <= usize::MAX,
        cell_at(rows_of(grid), (finish_x, finish_y)),
        old(table)@.len() == (width as int) * (rows_of(grid).len() as int),
        table_ok(rows_of(grid), width as int, old(table)@, rank_in, s),
        frontier_ok(rows_of(grid), width as int, old(table)@, old(open_nodes)@),
        node_ok(rows_of(grid), width as int, old(table)@, current),
        adjacent(ipos((nx, ny)), ipos(current.pos())),
        (nx, ny) != current.pos(),
        count_some(old(table)@) <= (width as int) * (height as int),
    ensures
        final(table)@.len() == old(table)@.len(),
        table_ok(rows_of(grid), width as int, final(table)@, rank_out@, s),
        frontier_ok(rows_of(grid), width as int, final(table)@, final(open_nodes)@),
        node_ok(rows_of(grid), width as int, final(table)@, current),
        count_some(final(table)@) <= (width as int) * (height as int),
        2 * ((width as int) * (height as int) - count_some(final(table)@))
            + final(open_nodes)@.len() <= 2 * ((width as int) * (height as int) - count_some(
            old(table)@,
        )) + old(open_nodes)@.len(),
        stage_ok(
            rows_of(grid),
            width as int,
            old(table)@,
            old(open_nodes)@,
            final(table)@,
            final(open_nodes)@,
        ),
        passable(rows_of(grid), nx as int, ny as int) ==> discovered(
            final(table)@,
            width as int,
            (nx, ny),
        ),
{
    let ghost g = rows_of(grid);
    let ghost w = width as int;
    if !point_in_bounds(nx, ny, grid) {
        proof {
            lemma_stage_refl(g, w, table@, open_nodes@);
        }
        return Ghost(rank_in);
    }
    let ni = cell_index(width, height, nx, ny);
    proof {
        lemma_cidx_in_range(g, w, (nx, ny));
    }
    if table[ni].is_some() {
        proof {
            lemma_stage_refl(g, w, table@, open_nodes@);
        }
        return Ghost(rank_in);
    }
    let ghost tprev = table@;
    table[ni] = Some((current.x, current.y));
    let ghost rank_new = rank_in.insert((nx, ny), count_some(tprev));
    proof {
        assert(tprev.len() == w * g.len()) by {
            reveal(table_ok);
        }
        assert(table@ == tprev.update(cidx(w, (nx, ny)), Some(current.pos())));
        lemma_table_discover(g, w, tprev, rank_in, s, current.pos(), (nx, ny));
        lemma_frontier_keep(g, w, tprev, table@, open_nodes@, current.pos(), (nx, ny));
        lemma_count_some_le(table@);
        assert(node_ok(g, w, table@, current)) by {
            lemma_cidx_in_range(g, w, current.pos());
            if cidx(w, current.pos()) == ni as int {
                assert(discovered(tprev, w, current.pos()));
            }
        }
    }
    proof {
        assert(g[ny as int].len() == width);
        assert(g[finish_y as int].len() == width);
        lemma_gap_bound((nx, ny), (finish_x, finish_y));
        assert((width as int) * (height as int) <= 0x8000_0000 * 0x8000_0000)
            by (nonlinear_arith)
            requires
                0 < (width as int) && (width as int) <= 0x8000_0000,
                0 < (height as int) && (height as int) <= 0x8000_0000,
        ;
    }
    let hh = crate::heuristic::score((nx, ny), (finish_x, finish_y));
    let nd = current.depth + 1;
    let node = Node {
        x: nx,
        y: ny,
        parent_x: current.x,
        parent_y: current.y,
        depth: nd,
        cost: hh + nd,
    };
    proof {
        assert(node_ok(g, w, table@, node));
        lemma_push_stage(
            g,
            w,
            tprev,
            table@,
            open_nodes@,
            node,
            current.pos(),
            (nx, ny),
        );
    }
    open_nodes.push(node);
    Ghost(rank_new)
}

/// The facts about the grid and the two special cells that the search loop
/// carries: a well-formed grid of known dimensions, within machine limits,
/// with the start at `s` and the finish at `f`.
pub open spec fn search_ctx(
    g: Seq<Seq<Symbol>>,
    width: int,
    height: int,
    s: (u64, u64),
    f: (u64, u64),
) -> bool {
    &&& g.len() > 0
    &&& rectangular(g)
    &&& g.len() == height
    &&& g[0].len() == width
    &&& 0 < width <= 0x8000_0000
    &&& 0 < height <= 0x8000_0000
    &&& width * height <= usize::MAX
    &&& cell_at(g, s)
    &&& cell_at(g, f)
    &&& g[s.1 as int][s.0 as int] == Symbol::Start
    &&& g[f.1 as int][f.0 as int] == Symbol::Finish
    &&& s != f
}

proof fn lemma_in_frontier_after_remove(nodes: Seq<Node>, m: int, c: (u64, u64))
    requires
        0 <= m < nodes.len(),
        in_frontier(nodes, c),
        nodes[m].pos() != c,
    ensures
        in_frontier(nodes.remove(m), c),
{
    reveal(in_frontier);
    let i = choose|i: int| 0 <= i < nodes.len() && (#[trigger] nodes[i]).pos() == c;
    if i < m {
        assert(nodes.remove(m)[i] == nodes[i]);
    } else {
        assert(nodes.remove(m)[i - 1] == nodes[i]);
    }
}

proof fn lemma_in_frontier_prefix(o0: Seq<Node>, o1: Seq<Node>, c: (u64, u64))
    requires
        in_frontier(o0, c),
        o1.len() >= o0.len(),
        forall|i: int| 0 <= i < o0.len() ==> o1[i] == o0[i],
    ensures
        in_frontier(o1, c),
{
    reveal(in_frontier);
    let i = choose|i: int| 0 <= i < o0.len() && (#[trigger] o0[i]).pos() == c;
    assert(o1[i] == o0[i]);
}

/// Once every discovered cell has been expanded, the discovered set is closed
/// under passable steps, so every cell of a passable walk out of a discovered
/// cell is discovered too.
#[verifier::rlimit(100)]
proof fn lemma_path_discovered(
    g: Seq<Seq<Symbol>>,
    tm: Seq<Option<(u64, u64)>>,
    w: int,
    p: Seq<(int, int)>,
    i: int,
)
    requires
        g.len() > 0,
        rectangular(g),
        w == g[0].len(),
        w <= 0x8000_0000,
        g.len() <= 0x8000_0000,
        is_path(g, p),
        0 <= i < p.len(),
        discovered(tm, w, ((p[0].0 as u64), (p[0].1 as u64))),
        forall|c: (u64, u64)|
            cell_at(g, c) && #[trigger] discovered(tm, w, c) ==> expanded(g, tm, w, c),
    ensures
        discovered(tm, w, ((p[i].0 as u64), (p[i].1 as u64))),
    decreases i,
{
    if i > 0 {
        lemma_path_discovered(g, tm, w, p, i - 1);
        reveal(expanded);
        let a = p[i - 1];
        let b = p[i];
        let au = ((a.0 as u64), (a.1 as u64));
        let bu = ((b.0 as u64), (b.1 as u64));
        assert(passable(g, a.0, a.1));
        assert(passable(g, b.0, b.1));
        assert(adjacent(a, b));
        assert(g[a.1].len() == w);
        assert(g[b.1].len() == w);
        assert(0 <= a.0 < w && 0 <= a.1 < g.len());
        assert(0 <= b.0 < w && 0 <= b.1 < g.len());
        assert(au.0 == a.0 && au.1 == a.1);
        assert(bu.0 == b.0 && bu.1 == b.1);
        assert(cell_at(g, au));
        assert(expanded(g, tm, w, au));
        if b.1 == a.1 && b.0 == a.0 - 1 {
            assert(au.0 > 0);
            assert(bu == (((au.0 - 1) as u64), au.1));
        } else if b.1 == a.1 && b.0 == a.0 + 1 {
            assert(bu == (((au.0 + 1) as u64), au.1));
        } else if b.0 == a.0 && b.1 == a.1 - 1 {
            assert(au.1 > 0);
            assert(bu == (au.0, ((au.1 - 1) as u64)));
        } else {
            assert(b.0 == a.0 && b.1 == a.1 + 1);
            assert(bu == (au.0, ((au.1 + 1) as u64)));
        }
        assert(discovered(tm, w, bu));
    }
}

/// When the frontier has run dry, every discovered cell is expanded; if the
/// finish was never discovered, no passable walk can lead to it from the
/// discovered start.
proof fn lemma_frontier_empty_unreachable(
    g: Seq<Seq<Symbol>>,
    tm: Seq<Option<(u64, u64)>>,
    w: int,
    s: (u64, u64),
    f: (u64, u64),
)
    requires
        g.len() > 0,
        rectangular(g),
        w == g[0].len(),
        w <= 0x8000_0000,
        g.len() <= 0x8000_0000,
        cell_at(g, s),
        cell_at(g, f),
        discovered(tm, w, s),
        !discovered(tm, w, f),
        forall|c: (u64, u64)|
            cell_at(g, c) && #[trigger] discovered(tm, w, c) ==> expanded(g, tm, w, c),
    ensures
        !reachable(g, ipos(s), ipos(f)),
{
    if reachable(g, ipos(s), ipos(f)) {
        let p = choose|p: Seq<(int, int)>|
            is_path(g, p) && p.first() == ipos(s) && p.last() == ipos(f);
        assert(p[0] == ipos(s) && p[p.len() - 1] == ipos(f));
        assert(((p[0].0 as u64), (p[0].1 as u64)) == s);
        lemma_path_discovered(g, tm, w, p, p.len() - 1);
        assert(((p[p.len() - 1].0 as u64), (p[p.len() - 1].1 as u64)) == f);
        assert(false);
    }
}

proof fn lemma_disc_mono(
    g: Seq<Seq<Symbol>>,
    w: int,
    ta: Seq<Option<(u64, u64)>>,
    oa: Seq<Node>,
    tb: Seq<Option<(u64, u64)>>,
    ob: Seq<Node>,
    c: (u64, u64),
)
    requires
        stage_ok(g, w, ta, oa, tb, ob),
        cell_at(g, c),
        discovered(ta, w, c),
    ensures
        discovered(tb, w, c),
{
    reveal(stage_ok);
}

proof fn lemma_frontier_kept(
    g: Seq<Seq<Symbol>>,
    w: int,
    ta: Seq<Option<(u64, u64)>>,
    oa: Seq<Node>,
    tb: Seq<Option<(u64, u64)>>,
    ob: Seq<Node>,
    c: (u64, u64),
)
    requires
        stage_ok(g, w, ta, oa, tb, ob),
        in_frontier(oa, c),
    ensures
        in_frontier(ob, c),
{
    reveal(stage_ok);
    lemma_in_frontier_prefix(oa, ob, c);
}

proof fn lemma_new_in_frontier(
    g: Seq<Seq<Symbol>>,
    w: int,
    ta: Seq<Option<(u64, u64)>>,
    oa: Seq<Node>,
    tb: Seq<Option<(u64, u64)>>,
    ob: Seq<Node>,
    c: (u64, u64),
)
    requires
        stage_ok(g, w, ta, oa, tb, ob),
        cell_at(g, c),
        discovered(tb, w, c),
        !discovered(ta, w, c),
    ensures
        in_frontier(ob, c),
{
    reveal(stage_ok);
}

proof fn lemma_expanded_kept(
    g: Seq<Seq<Symbol>>,
    w: int,
    ta: Seq<Option<(u64, u64)>>,
    oa: Seq<Node>,
    tb: Seq<Option<(u64, u64)>>,
    ob: Seq<Node>,
    c: (u64, u64),
)
    requires
        g.len() > 0,
        rectangular(g),
        w == g[0].len(),
        stage_ok(g, w, ta, oa, tb, ob),
        cell_at(g, c),
        expanded(g, ta, w, c),
    ensures
        expanded(g, tb, w, c),
{
    reveal(stage_ok);
    lemma_expanded_monotone(g, w, ta, tb, c);
}

/// After one node has been extracted and all four of its neighbours
/// processed, every discovered cell is again either on the frontier or fully
/// expanded, and a discovered finish is still on the frontier.
#[verifier::rlimit(100)]
proof fn lemma_restore_visibility(
    g: Seq<Seq<Symbol>>,
    w: int,
    pre: Seq<Node>,
    current: Node,
    t0: Seq<Option<(u64, u64)>>,
    o0: Seq<Node>,
    t1: Seq<Option<(u64, u64)>>,
    o1: Seq<Node>,
    t2: Seq<Option<(u64, u64)>>,
    o2: Seq<Node>,
    t3: Seq<Option<(u64, u64)>>,
    o3: Seq<Node>,
    t4: Seq<Option<(u64, u64)>>,
    o4: Seq<Node>,
    fx: u64,
    fy: u64,
)
    requires
        g.len() > 0,
        rectangular(g),
        w == g[0].len(),
        pre.len() > 0,
        current == pre[min_index(pre)],
        o0 == pre.remove(min_index(pre)),
        stage_ok(g, w, t0, o0, t1, o1),
        stage_ok(g, w, t1, o1, t2, o2),
        stage_ok(g, w, t2, o2, t3, o3),
        stage_ok(g, w, t3, o3, t4, o4),
        cell_at(g, current.pos()),
        current.pos().0 > 0 ==> (passable(g, current.pos().0 - 1, current.pos().1 as int)
            ==> discovered(t1, w, (((current.pos().0 - 1) as u64), current.pos().1))),
        passable(g, current.pos().0 + 1, current.pos().1 as int) ==> discovered(
            t2,
            w,
            (((current.pos().0 + 1) as u64), current.pos().1),
        ),
        current.pos().1 > 0 ==> (passable(g, current.pos().0 as int, current.pos().1 - 1)
            ==> discovered(t3, w, (current.pos().0, ((current.pos().1 - 1) as u64)))),
        passable(g, current.pos().0 as int, current.pos().1 + 1) ==> discovered(
            t4,
            w,
            (current.pos().0, ((current.pos().1 + 1) as u64)),
        ),
        current.pos() != (fx, fy),
        cell_at(g, (fx, fy)),
        forall|c: (u64, u64)|
            cell_at(g, c) && #[trigger] discovered(t0, w, c) ==> in_frontier(pre, c) || expanded(
                g,
                t0,
                w,
                c,
            ),
        discovered(t0, w, (fx, fy)) ==> in_frontier(pre, (fx, fy)),
    ensures
        forall|c: (u64, u64)|
            cell_at(g, c) && #[trigger] discovered(t4, w, c) ==> in_frontier(o4, c) || expanded(
                g,
                t4,
                w,
                c,
            ),
        discovered(t4, w, (fx, fy)) ==> in_frontier(o4, (fx, fy)),
{
    lemma_min_index(pre);
    lemma_stage_trans(g, w, t0, o0, t1, o1, t2, o2);
    lemma_stage_trans(g, w, t0, o0, t2, o2, t3, o3);
    lemma_stage_trans(g, w, t0, o0, t3, o3, t4, o4);
    let cp = current.pos();
    assert(expanded(g, t4, w, cp)) by {
        reveal(expanded);
        if cp.0 > 0 && passable(g, cp.0 - 1, cp.1 as int) {
            let nc = (((cp.0 - 1) as u64), cp.1);
            assert(cell_at(g, nc));
            lemma_disc_mono(g, w, t1, o1, t2, o2, nc);
            lemma_disc_mono(g, w, t2, o2, t3, o3, nc);
            lemma_disc_mono(g, w, t3, o3, t4, o4, nc);
        }
        if passable(g, cp.0 + 1, cp.1 as int) {
            let nc = (((cp.0 + 1) as u64), cp.1);
            assert(cell_at(g, nc));
            lemma_disc_mono(g, w, t2, o2, t3, o3, nc);
            lemma_disc_mono(g, w, t3, o3, t4, o4, nc);
        }
        if cp.1 > 0 && passable(g, cp.0 as int, cp.1 - 1) {
            let nc = (cp.0, ((cp.1 - 1) as u64));
            assert(cell_at(g, nc));
            lemma_disc_mono(g, w, t3, o3, t4, o4, nc);
        }
    }
    assert forall|c: (u64, u64)|
        cell_at(g, c) && #[trigger] discovered(t4, w, c) implies in_frontier(o4, c) || expanded(
        g,
        t4,
        w,
        c,
    ) by {
        if discovered(t0, w, c) {
            if c != cp {
                if in_frontier(pre, c) {
                    lemma_in_frontier_after_remove(pre, min_index(pre), c);
                    lemma_frontier_kept(g, w, t0, o0, t4, o4, c);
                } else {
                    lemma_expanded_kept(g, w, t0, o0, t4, o4, c);
                }
            }
        } else {
            lemma_new_in_frontier(g, w, t0, o0, t4, o4, c);
        }
    }
    assert(discovered(t4, w, (fx, fy)) ==> in_frontier(o4, (fx, fy))) by {
        let fp = (fx, fy);
        if discovered(t4, w, fp) {
            if discovered(t0, w, fp) {
                assert(in_frontier(pre, fp));
                lemma_in_frontier_after_remove(pre, min_index(pre), fp);
                lemma_frontier_kept(g, w, t0, o0, t4, o4, fp);
            } else {
                lemma_new_in_frontier(g, w, t0, o0, t4, o4, fp);
            }
        }
    }
}

proof fn lemma_frontier_after_pop(
    g: Seq<Seq<Symbol>>,
    w: int,
    tm: Seq<Option<(u64, u64)>>,
    pre: Seq<Node>,
)
    requires
        pre.len() > 0,
        frontier_ok(g, w, tm, pre),
    ensures
        node_ok(g, w, tm, pre[min_index(pre)]),
        frontier_ok(g, w, tm, pre.remove(min_index(pre))),
{
    reveal(frontier_ok);
    lemma_min_index(pre);
    let m = min_index(pre);
    let rest = pre.remove(m);
    assert forall|i: int| 0 <= i < rest.len() implies node_ok(g, w, tm, #[trigger] rest[i]) by {
        if i < m {
            assert(rest[i] == pre[i]);
        } else {
            assert(rest[i] == pre[i + 1]);
        }
    }
}

/// Expands all four neighbours of the node just extracted (west, east,
/// north, south) and re-establishes the search's bookkeeping: every
/// discovered cell is on the frontier or expanded, and a discovered finish
/// is on the frontier.
#[verifier::rlimit(100)]
fn expand_all(
    grid: &Grid,
    width: usize,
    height: usize,
    finish_x: u64,
    finish_y: u64,
    current: Node,
    table: &mut Vec<Option<(u64, u64)>>,
    open_nodes: &mut Vec<Node>,
    Ghost(rank_in): Ghost<Map<(u64, u64), nat>>,
    Ghost(s): Ghost<(u64, u64)>,
    Ghost(pre): Ghost<Seq<Node>>,
) -> (rank_out: Ghost<Map<(u64, u64), nat>>)
    requires
        search_ctx(rows_of(grid), width as int, height as int, s, (finish_x, finish_y)),
        table_ok(rows_of(grid), width as int, old(table)@, rank_in, s),
        frontier_ok(rows_of(grid), width as int, old(table)@, old(open_nodes)@),
        node_ok(rows_of(grid), width as int, old(table)@, current),
        count_some(old(table)@) <= (width as int) * (height as int),
        pre.len() > 0,
        current == pre[min_index(pre)],
        old(open_nodes)@ == pre.remove(min_index(pre)),
        current.pos() != (finish_x, finish_y),
        forall|c: (u64, u64)|
            cell_at(rows_of(grid), c) && #[trigger] discovered(old(table)@, width as int, c)
                ==> in_frontier(pre, c) || expanded(
                rows_of(grid),
                old(table)@,
                width as int,
                c,
            ),
        discovered(old(table)@, width as int, (finish_x, finish_y)) ==> in_frontier(
            pre,
            (finish_x, finish_y),
        ),
    ensures
        table_ok(rows_of(grid), width as int, final(table)@, rank_out@, s),
        frontier_ok(rows_of(grid), width as int, final(table)@, final(open_nodes)@),
        count_some(final(table)@) <= (width as int) * (height as int),
        2 * ((width as int) * (height as int) - count_some(final(table)@))
            + final(open_nodes)@.len() <= 2 * ((width as int) * (height as int) - count_some(
            old(table)@,
        )) + old(open_nodes)@.len(),
        forall|c: (u64, u64)|
            cell_at(rows_of(grid), c) && #[trigger] discovered(final(table)@, width as int, c)
                ==> in_frontier(final(open_nodes)@, c) || expanded(
                rows_of(grid),
                final(table)@,
                width as int,
                c,
            ),
        discovered(final(table)@, width as int, (finish_x, finish_y)) ==> in_frontier(
            final(open_nodes)@,
            (finish_x, finish_y),
        ),
{
    let ghost g = rows_of(grid);
    let ghost w = width as int;
    let ghost mut rank = rank_in;
    let ghost t0 = table@;
    let ghost o0 = open_nodes@;
    proof {
        assert(g[current.y as int].len() == width);
    }
    // Expand the four axis-aligned neighbours: west, east, north, south.
    if current.x > 0 {
        let r = expand_neighbor(
            grid,
            width,
            height,
            current.x - 1,
            current.y,
            finish_x,
            finish_y,
            current,
            table,
            open_nodes,
            Ghost(rank),
            Ghost(s),
        );
        proof {
            rank = r@;
        }
    } else {
        proof {
            lemma_stage_refl(g, w, table@, open_nodes@);
        }
    }
    let ghost t1 = table@;
    let ghost o1 = open_nodes@;
    let r_east = expand_neighbor(
        grid,
        width,
        height,
        current.x + 1,
        current.y,
        finish_x,
        finish_y,
        current,
        table,
        open_nodes,
        Ghost(rank),
        Ghost(s),
    );
    let ghost t2 = table@;
    let ghost o2 = open_nodes@;
    proof {
        rank = r_east@;
        assert(stage_ok(g, w, t1, o1, t2, o2));
    }
    if current.y > 0 {
        let r = expand_neighbor(
            grid,
            width,
            height,
            current.x,
            current.y - 1,
            finish_x,
            finish_y,
            current,
            table,
            open_nodes,
            Ghost(rank),
            Ghost(s),
        );
        proof {
            rank = r@;
        }
    } else {
        proof {
            lemma_stage_refl(g, w, table@, open_nodes@);
        }
    }
    let ghost t3 = table@;
    let ghost o3 = open_nodes@;
    let r_south = expand_neighbor(
        grid,
        width,
        height,
        current.x,
        current.y + 1,
        finish_x,
        finish_y,
        current,
        table,
        open_nodes,
        Ghost(rank),
        Ghost(s),
    );
    proof {
        rank = r_south@;
    }
    let ghost t4 = table@;
    let ghost o4 = open_nodes@;
    proof {
        assert(stage_ok(g, w, t3, o3, t4, o4));
        lemma_restore_visibility(
            g,
            w,
            pre,
            current,
            t0,
            o0,
            t1,
            o1,
            t2,
            o2,
            t3,
            o3,
            t4,
            o4,
            finish_x,
            finish_y,
        );
    }
    (Ghost(rank))
}

/// One iteration of the search loop: extract the cheapest node; if it sits
/// on the finish, hand it back, otherwise expand its four neighbours.
fn search_step(
    grid: &Grid,
    width: usize,
    height: usize,
    finish_x: u64,
    finish_y: u64,
    table: &mut Vec<Option<(u64, u64)>>,
    open_nodes: &mut Vec<Node>,
    Ghost(rank_in): Ghost<Map<(u64, u64), nat>>,
    Ghost(s): Ghost<(u64, u64)>,
) -> (res: (Option<Node>, Ghost<Map<(u64, u64), nat>>))
    requires
        search_ctx(rows_of(grid), width as int, height as int, s, (finish_x, finish_y)),
        old(open_nodes)@.len() > 0,
        table_ok(rows_of(grid), width as int, old(table)@, rank_in, s),
        frontier_ok(rows_of(grid), width as int, old(table)@, old(open_nodes)@),
        count_some(old(table)@) <= (width as int) * (height as int),
        forall|c: (u64, u64)|
            cell_at(rows_of(grid), c) && #[trigger] discovered(old(table)@, width as int, c)
                ==> in_frontier(old(open_nodes)@, c) || expanded(
                rows_of(grid),
                old(table)@,
                width as int,
                c,
            ),
        discovered(old(table)@, width as int, (finish_x, finish_y)) ==> in_frontier(
            old(open_nodes)@,
            (finish_x, finish_y),
        ),
    ensures
        table_ok(rows_of(grid), width as int, final(table)@, res.1@, s),
        frontier_ok(rows_of(grid), width as int, final(table)@, final(open_nodes)@),
        count_some(final(table)@) <= (width as int) * (height as int),
        2 * ((width as int) * (height as int) - count_some(final(table)@))
            + final(open_nodes)@.len() < 2 * ((width as int) * (height as int) - count_some(
            old(table)@,
        )) + old(open_nodes)@.len(),
        match res.0 {
            Some(gn) => gn.pos() == (finish_x, finish_y) && node_ok(
                rows_of(grid),
                width as int,
                final(table)@,
                gn,
            ),
            None => (forall|c: (u64, u64)|
                cell_at(rows_of(grid), c) && #[trigger] discovered(
                    final(table)@,
                    width as int,
                    c,
                ) ==> in_frontier(final(open_nodes)@, c) || expanded(
                    rows_of(grid),
                    final(table)@,
                    width as int,
                    c,
                )) && (discovered(final(table)@, width as int, (finish_x, finish_y))
                ==> in_frontier(final(open_nodes)@, (finish_x, finish_y))),
        },
{
    let ghost g = rows_of(grid);
    let ghost w = width as int;
    let ghost pre = open_nodes@;
    let current = extract_min(open_nodes);
    proof {
        lemma_frontier_after_pop(g, w, table@, pre);
        lemma_min_index(pre);
        assert(open_nodes@.len() == pre.len() - 1);
    }
    if current.x == finish_x && current.y == finish_y {
        return (Some(current), Ghost(rank_in));
    }
    let rank_out = expand_all(
        grid,
        width,
        height,
        finish_x,
        finish_y,
        current,
        table,
        open_nodes,
        Ghost(rank_in),
        Ghost(s),
        Ghost(pre),
    );
    (None, rank_out)
}

/// once the frontier runs dry.
fn search(
    grid: &Grid,
    width: usize,
    height: usize,
    finish_x: u64,
    finish_y: u64,
    table: &mut Vec<Option<(u64, u64)>>,
    open_nodes: &mut Vec<Node>,
    Ghost(rank_in): Ghost<Map<(u64, u64), nat>>,
    Ghost(s): Ghost<(u64, u64)>,
) -> (res: (Option<Node>, Ghost<Map<(u64, u64), nat>>))
    requires
        search_ctx(rows_of(grid), width as int, height as int, s, (finish_x, finish_y)),
        table_ok(rows_of(grid), width as int, old(table)@, rank_in, s),
        frontier_ok(rows_of(grid), width as int, old(table)@, old(open_nodes)@),
        count_some(old(table)@) <= (width as int) * (height as int),
        forall|c: (u64, u64)|
            cell_at(rows_of(grid), c) && #[trigger] discovered(old(table)@, width as int, c)
                ==> in_frontier(old(open_nodes)@, c),
    ensures
        table_ok(rows_of(grid), width as int, final(table)@, res.1@, s),
        match res.0 {
            Some(gn) => gn.pos() == (finish_x, finish_y) && node_ok(
                rows_of(grid),
                width as int,
                final(table)@,
                gn,
            ),
            None => final(open_nodes)@.len() == 0 && !discovered(
                final(table)@,
                width as int,
                (finish_x, finish_y),
            ) && (forall|c: (u64, u64)|
                cell_at(rows_of(grid), c) && #[trigger] discovered(final(table)@, width as int, c)
                    ==> expanded(rows_of(grid), final(table)@, width as int, c)),
        },
{
    let ghost g = rows_of(grid);
    let ghost w = width as int;
    let ghost mut rank = rank_in;
    let mut goal: Option<Node> = None;
    while open_nodes.len() > 0 && goal.is_none()
        invariant
            g == rows_of(grid),
            w == width as int,
            search_ctx(g, w, height as int, s, (finish_x, finish_y)),
            table_ok(g, w, table@, rank, s),
            frontier_ok(g, w, table@, open_nodes@),
            count_some(table@) <= w * (height as int),
            goal is Some ==> (goal->Some_0.pos() == (finish_x, finish_y) && node_ok(
                g,
                w,
                table@,
                goal->Some_0,
            )),
            goal is None ==> (forall|c: (u64, u64)|
                cell_at(g, c) && #[trigger] discovered(table@, w, c) ==> in_frontier(
                    open_nodes@,
                    c,
                ) || expanded(g, table@, w, c)),
            goal is None ==> (discovered(table@, w, (finish_x, finish_y)) ==> in_frontier(
                open_nodes@,
                (finish_x, finish_y),
            )),
        decreases 2 * (w * (height as int) - count_some(table@)) + open_nodes@.len(),
    {
        let r = search_step(
            grid,
            width,
            height,
            finish_x,
            finish_y,
            table,
            open_nodes,
            Ghost(rank),
            Ghost(s),
        );
        proof {
            rank = r.1@;
        }
        goal = r.0;
    }
    proof {
        if goal is None {
            assert(open_nodes@.len() == 0);
            assert forall|c: (u64, u64)|
                cell_at(g, c) && #[trigger] discovered(table@, w, c) implies expanded(
                g,
                table@,
                w,
                c,
            ) by {
                assert(!in_frontier(open_nodes@, c)) by {
                    reveal(in_frontier);
                }
            }
            assert(!discovered(table@, w, (finish_x, finish_y))) by {
                if discovered(table@, w, (finish_x, finish_y)) {
                    assert(in_frontier(open_nodes@, (finish_x, finish_y)));
                    reveal(in_frontier);
                }
            }
        }
    }
    (goal, Ghost(rank))
}

proof fn lemma_path_extend(g: Seq<Seq<Symbol>>, p: Seq<(int, int)>, c: (int, int))
    requires
        is_path(g, p),
        passable(g, c.0, c.1),
        adjacent(p.last(), c),
    ensures
        is_path(g, p.push(c)),
        p.push(c).first() == p.first(),
        p.push(c).last() == c,
{
    let q = p.push(c);
    assert forall|i: int| 0 <= i < q.len() implies passable(g, (#[trigger] q[i]).0, q[i].1) by {
        if i < p.len() {
            assert(q[i] == p[i]);
        } else {
            assert(q[i] == c);
        }
    }
    assert forall|i: int| 0 <= i < q.len() - 1 implies adjacent(#[trigger] q[i], q[i + 1]) by {
        if i < p.len() - 1 {
            assert(q[i] == p[i]);
            assert(q[i + 1] == p[i + 1]);
        } else {
            assert(q[i] == p.last());
            assert(q[i + 1] == c);
        }
    }
}

/// Marks one open cell of the solved copy as part of the route.
fn mark_route(solved_grid: &mut Grid, Ghost(g): Ghost<Seq<Seq<Symbol>>>, cx: u64, cy: u64)
    requires
        in_bounds(g, cx as int, cy as int),
        g[cy as int][cx as int] == Symbol::Open,
        rows_of(old(solved_grid)).len() == g.len(),
        forall|yy: int|
            0 <= yy < g.len() ==> (#[trigger] rows_of(old(solved_grid))[yy]).len() == g[yy].len(),
        forall|xx: int, yy: int|
            #[trigger] in_bounds(g, xx, yy) ==> rows_of(old(solved_grid))[yy][xx] == g[yy][xx] || (
            rows_of(old(solved_grid))[yy][xx] == Symbol::Route && g[yy][xx] == Symbol::Open),
    ensures
        rows_of(final(solved_grid)).len() == g.len(),
        forall|yy: int|
            0 <= yy < g.len() ==> (#[trigger] rows_of(final(solved_grid))[yy]).len()
                == g[yy].len(),
        forall|xx: int, yy: int|
            #[trigger] in_bounds(g, xx, yy) ==> rows_of(final(solved_grid))[yy][xx] == g[yy][xx]
                || (rows_of(final(solved_grid))[yy][xx] == Symbol::Route && g[yy][xx]
                == Symbol::Open),
        rows_of(final(solved_grid)) == rows_of(old(solved_grid)).update(
            cy as int,
            rows_of(old(solved_grid))[cy as int].update(cx as int, Symbol::Route),
        ),
{
    let ghost solved_prev = rows_of(solved_grid);
    SymbolIndexable::set(solved_grid, cx, cy, Symbol::Route);
    proof {
        assert(rows_of(solved_grid) == solved_prev.update(
            cy as int,
            solved_prev[cy as int].update(cx as int, Symbol::Route),
        ));
        assert forall|yy: int|
            0 <= yy < g.len() implies (#[trigger] rows_of(solved_grid)[yy]).len() == g[yy].len()
        by {
            assert(solved_prev[yy].len() == g[yy].len());
        }
        assert forall|xx: int, yy: int|
            #[trigger] in_bounds(g, xx, yy) implies rows_of(solved_grid)[yy][xx] == g[yy][xx] || (
            rows_of(solved_grid)[yy][xx] == Symbol::Route && g[yy][xx] == Symbol::Open) by {
            if yy == cy as int && xx == cx as int {
                assert(rows_of(solved_grid)[yy][xx] == Symbol::Route);
            } else {
                assert(rows_of(solved_grid)[yy][xx] == solved_prev[yy][xx]);
            }
        }
    }
}

proof fn lemma_unique_marker(g: Seq<Seq<Symbol>>, t: Symbol, a: (int, int), b: (int, int))
    requires
        crate::grid::exactly_one(g, t),
        in_bounds(g, a.0, a.1),
        in_bounds(g, b.0, b.1),
        g[a.1][a.0] == t,
        g[b.1][b.0] == t,
    ensures
        a == b,
{
}

/// Walks the parent table backward from the node that reached the finish,
/// marking each intermediate cell `Route` in the solved copy, until the walk
/// reaches the start cell, which is its own predecessor. The marked cells
/// witness a path, so the finish is reachable from the start.
#[verifier::rlimit(100)]
fn reconstruct(
    grid: &Grid,
    solved_grid: &mut Grid,
    width: usize,
    height: usize,
    goal_node: Node,
    table: &Vec<Option<(u64, u64)>>,
    Ghost(rank): Ghost<Map<(u64, u64), nat>>,
    Ghost(s): Ghost<(u64, u64)>,
)
    requires
        well_formed(rows_of(grid)),
        search_ctx(rows_of(grid), width as int, height as int, s, goal_node.pos()),
        table_ok(rows_of(grid), width as int, table@, rank, s),
        node_ok(rows_of(grid), width as int, table@, goal_node),
        rows_of(old(solved_grid)) == rows_of(grid),
    ensures
        rows_of(final(solved_grid)).len() == rows_of(grid).len(),
        forall|yy: int|
            0 <= yy < rows_of(grid).len() ==> (#[trigger] rows_of(final(solved_grid))[yy]).len()
                == rows_of(grid)[yy].len(),
        forall|xx: int, yy: int|
            #[trigger] in_bounds(rows_of(grid), xx, yy) ==> rows_of(final(solved_grid))[yy][xx]
                == rows_of(grid)[yy][xx] || (rows_of(final(solved_grid))[yy][xx] == Symbol::Route
                && rows_of(grid)[yy][xx] == Symbol::Open),
        reachable(rows_of(grid), ipos(s), ipos(goal_node.pos())),
        exists|p: Seq<(int, int)>|
            is_path(rows_of(grid), p) && p.first() == ipos(s) && p.last() == ipos(
                goal_node.pos(),
            ) && (forall|i: int|
                0 < i < p.len() - 1 ==> rows_of(final(solved_grid))[(#[trigger] p[i]).1][p[i].0]
                    == Symbol::Route) && (forall|xx: int, yy: int|
                in_bounds(rows_of(grid), xx, yy) && !(#[trigger] p.contains((xx, yy)))
                    ==> rows_of(final(solved_grid))[yy][xx] == rows_of(grid)[yy][xx]),
{
    let ghost g = rows_of(grid);
    let ghost w = width as int;
    let ghost f = goal_node.pos();
    proof {
        assert(discovered(table@, w, f));
        assert(entry_ok(g, w, table@, rank, s, f)) by {
            reveal(table_ok);
        }
    }
    let mut cx = goal_node.parent_x;
    let mut cy = goal_node.parent_y;
    let ghost mut trail: Seq<(int, int)> = seq![ipos(f), ipos((cx, cy))];
    proof {
        lemma_cidx_in_range(g, w, (cx, cy));
        assert(g[cy as int].len() == width);
        assert(entry_ok(g, w, table@, rank, s, (cx, cy))) by {
            reveal(table_ok);
        }
        assert(is_path(g, trail)) by {
            assert(trail[0] == ipos(f));
            assert(trail[1] == ipos((cx, cy)));
            assert(passable(g, ipos(f).0, ipos(f).1));
            assert(passable(g, ipos((cx, cy)).0, ipos((cx, cy)).1));
            assert(adjacent(ipos((cx, cy)), ipos(f)));
        }
    }
    let ci0 = cell_index(width, height, cx, cy);
    let pe: Option<(u64, u64)> = table[ci0];
    let p0 = pe.unwrap();
    let mut px = p0.0;
    let mut py = p0.1;
    while !(cx == px && cy == py)
        invariant
            g == rows_of(grid),
            w == width as int,
            well_formed(g),
            search_ctx(g, w, height as int, s, f),
            table_ok(g, w, table@, rank, s),
            rows_of(solved_grid).len() == g.len(),
            forall|yy: int|
                0 <= yy < g.len() ==> (#[trigger] rows_of(solved_grid)[yy]).len() == g[yy].len(),
            forall|xx: int, yy: int|
                #[trigger] in_bounds(g, xx, yy) ==> rows_of(solved_grid)[yy][xx] == g[yy][xx] || (
                rows_of(solved_grid)[yy][xx] == Symbol::Route && g[yy][xx] == Symbol::Open),
            cell_at(g, (cx, cy)),
            discovered(table@, w, (cx, cy)),
            parent_of(table@, w, (cx, cy)) == (px, py),
            rank.dom().contains((cx, cy)),
            rank.dom().contains(f),
            rank[(cx, cy)] < rank[f],
            is_path(g, trail),
            trail.len() >= 2,
            trail.first() == ipos(f),
            trail.last() == ipos((cx, cy)),
            forall|j: int|
                1 <= j < trail.len() - 1 ==> rows_of(solved_grid)[(
                #[trigger] trail[j]).1][trail[j].0] == Symbol::Route,
            forall|xx: int, yy: int|
                #[trigger] in_bounds(g, xx, yy) ==> rows_of(solved_grid)[yy][xx] == g[yy][xx] || (
                exists|j: int| 1 <= j < trail.len() - 1 && #[trigger] trail[j] == (xx, yy)),
        decreases rank[(cx, cy)],
    {
        proof {
            assert(entry_ok(g, w, table@, rank, s, (cx, cy))) by {
                reveal(table_ok);
            }
            assert((cx, cy) != s);
            assert((cx, cy) != f) by {
                assert(rank[(cx, cy)] < rank[f]);
            }
            assert(g[cy as int][cx as int] == Symbol::Open) by {
                assert(g[cy as int][cx as int] != Symbol::Closed);
                assert(in_bounds(g, cx as int, cy as int));
                if g[cy as int][cx as int] == Symbol::Start {
                    lemma_unique_marker(g, Symbol::Start, (cx as int, cy as int), ipos(s));
                    assert((cx, cy) == s);
                }
                if g[cy as int][cx as int] == Symbol::Finish {
                    lemma_unique_marker(g, Symbol::Finish, (cx as int, cy as int), ipos(f));
                    assert((cx, cy) == f);
                }
                assert(in_bounds(g, cx as int, cy as int) ==> g[cy as int][cx as int] != Symbol::Route);
            }
        }
        let ghost mark_c = ipos((cx, cy));
        let ghost solved_before = rows_of(solved_grid);
        mark_route(solved_grid, Ghost(g), cx, cy);
        cx = px;
        cy = py;
        proof {
            assert(discovered(table@, w, (cx, cy)));
            assert(entry_ok(g, w, table@, rank, s, (cx, cy))) by {
                reveal(table_ok);
            }
            lemma_cidx_in_range(g, w, (cx, cy));
            assert(g[cy as int].len() == width);
        }
        let ci = cell_index(width, height, cx, cy);
        let pe2: Option<(u64, u64)> = table[ci];
        let pn = pe2.unwrap();
        px = pn.0;
        py = pn.1;
        proof {
            lemma_path_extend(g, trail, ipos((cx, cy)));
            let old_trail = trail;
            trail = trail.push(ipos((cx, cy)));
            assert forall|j: int|
                1 <= j < trail.len() - 1 implies rows_of(solved_grid)[(
                #[trigger] trail[j]).1][trail[j].0] == Symbol::Route by {
                assert(trail[j] == old_trail[j]);
                if j < old_trail.len() - 1 {
                    assert(solved_before[old_trail[j].1][old_trail[j].0] == Symbol::Route);
                    assert(in_bounds(g, old_trail[j].0, old_trail[j].1));
                } else {
                    assert(old_trail[j] == mark_c);
                }
            }
            assert forall|xx: int, yy: int|
                #[trigger] in_bounds(g, xx, yy) implies rows_of(solved_grid)[yy][xx] == g[yy][xx]
                || (exists|j: int| 1 <= j < trail.len() - 1 && #[trigger] trail[j] == (xx, yy))
            by {
                if xx == mark_c.0 && yy == mark_c.1 {
                    assert(trail[trail.len() - 2] == (xx, yy));
                } else {
                    assert(rows_of(solved_grid)[yy][xx] == solved_before[yy][xx]);
                    if solved_before[yy][xx] != g[yy][xx] {
                        let jj = choose|j: int|
                            1 <= j < old_trail.len() - 1 && #[trigger] old_trail[j] == (xx, yy);
                        assert(trail[jj] == (xx, yy));
                    }
                }
            }
        }
    }
    proof {
        assert(entry_ok(g, w, table@, rank, s, (cx, cy))) by {
            reveal(table_ok);
        }
        assert((cx, cy) == s);
        assert(trail.last() == ipos(s));
        lemma_path_reverse(g, trail);
        let q = trail.reverse();
        assert(is_path(g, q) && q.first() == ipos(s) && q.last() == ipos(f));
        assert(reachable(g, ipos(s), ipos(f)));
        assert forall|i: int|
            0 < i < q.len() - 1 implies rows_of(solved_grid)[(#[trigger] q[i]).1][q[i].0]
            == Symbol::Route by {
            assert(q[i] == trail[trail.len() - 1 - i]);
        }
        assert forall|xx: int, yy: int|
            in_bounds(g, xx, yy) && !(#[trigger] q.contains((xx, yy))) implies rows_of(
            solved_grid,
        )[yy][xx] == g[yy][xx] by {
            if rows_of(solved_grid)[yy][xx] != g[yy][xx] {
                let jj = choose|j: int|
                    1 <= j < trail.len() - 1 && #[trigger] trail[j] == (xx, yy);
                assert(q[trail.len() - 1 - jj] == trail[jj]);
                assert(q.contains((xx, yy)));
            }
        }
    }
}

/// Runs the search on `grid` and returns a copy of it with the discovered
/// path from the `Start` cell to the `Finish` cell marked with `Route`
/// markers; the `Start` and `Finish` cells themselves keep their markers. If
/// the `Finish` cell cannot be reached, the copy is returned unchanged.
///
/// Neighbours are expanded west, east, north, south, and the frontier breaks
/// score ties in favour of the earliest-inserted node, so the search is
/// deterministic.
#[verifier::rlimit(80)]
pub fn solve(grid: Grid) -> (solved: Grid)
    requires
        well_formed(rows_of(&grid)),
        sized_for_search(rows_of(&grid)),
    ensures
        rows_of(&solved).len() == rows_of(&grid).len(),
        forall|y: int|
            0 <= y < rows_of(&grid).len() ==> (#[trigger] rows_of(&solved)[y]).len() == rows_of(
                &grid,
            )[y].len(),
        forall|x: int, y: int|
            #[trigger] in_bounds(rows_of(&grid), x, y) ==> rows_of(&solved)[y][x] == rows_of(
                &grid,
            )[y][x] || (rows_of(&solved)[y][x] == Symbol::Route && rows_of(&grid)[y][x]
                == Symbol::Open),
        (exists|x: int, y: int|
            in_bounds(rows_of(&grid), x, y) && #[trigger] rows_of(&solved)[y][x]
                == Symbol::Route) ==> reachable(
            rows_of(&grid),
            marker_cell(rows_of(&grid), Symbol::Start),
            marker_cell(rows_of(&grid), Symbol::Finish),
        ),
        !reachable(
            rows_of(&grid),
            marker_cell(rows_of(&grid), Symbol::Start),
            marker_cell(rows_of(&grid), Symbol::Finish),
        ) ==> rows_of(&solved) == rows_of(&grid),
        reachable(
            rows_of(&grid),
            marker_cell(rows_of(&grid), Symbol::Start),
            marker_cell(rows_of(&grid), Symbol::Finish),
        ) ==> (exists|p: Seq<(int, int)>|
            is_path(rows_of(&grid), p) && p.first() == marker_cell(rows_of(&grid), Symbol::Start)
                && p.last() == marker_cell(rows_of(&grid), Symbol::Finish) && (forall|i: int|
                0 < i < p.len() - 1 ==> rows_of(&solved)[(#[trigger] p[i]).1][p[i].0]
                    == Symbol::Route) && (forall|x: int, y: int|
                in_bounds(rows_of(&grid), x, y) && !(#[trigger] p.contains((x, y))) ==> rows_of(
                    &solved,
                )[y][x] == rows_of(&grid)[y][x])),
{
    let ghost g = rows_of(&grid);
    let height: usize = grid.len();
    proof {
        assert(g[0] == grid@[0]@);
        assert(grid@[0]@.len() == grid@[0].len());
    }
    let width: usize = grid[0].len();
    let ghost w = width as int;
    let mut solved_grid = clone_grid(&grid);
    let (start_x, start_y) = grid.find(Symbol::Start);
    let (finish_x, finish_y) = grid.find(Symbol::Finish);
    let ghost s = (start_x, start_y);
    let ghost f = (finish_x, finish_y);
    proof {
        assert(cell_at(g, s) && g[s.1 as int][s.0 as int] == Symbol::Start);
        assert(cell_at(g, f) && g[f.1 as int][f.0 as int] == Symbol::Finish);
        assert(s != f);
        assert(marker_cell(g, Symbol::Start) == ipos(s)) by {
            assert(in_bounds(g, ipos(s).0, ipos(s).1) && g[ipos(s).1][ipos(s).0]
                == Symbol::Start);
            let mc = marker_cell(g, Symbol::Start);
            assert(in_bounds(g, mc.0, mc.1) && g[mc.1][mc.0] == Symbol::Start);
        }
        assert(marker_cell(g, Symbol::Finish) == ipos(f)) by {
            assert(in_bounds(g, ipos(f).0, ipos(f).1) && g[ipos(f).1][ipos(f).0]
                == Symbol::Finish);
            let mc = marker_cell(g, Symbol::Finish);
            assert(in_bounds(g, mc.0, mc.1) && g[mc.1][mc.0] == Symbol::Finish);
        }
        assert(g[s.1 as int].len() == width);
        assert(g[f.1 as int].len() == width);
        assert(search_ctx(g, w, height as int, s, f));
    }
    // The parent table, one slot per cell, all empty.
    let total: usize = width * height;
    let mut table: Vec<Option<(u64, u64)>> = Vec::new();
    let mut k: usize = 0;
    while k < total
        invariant
            0 <= k <= total,
            table@.len() == k,
            count_some(table@) == 0,
            forall|i: int| 0 <= i < k ==> table@[i] is None,
        decreases total - k,
    {
        let ghost prev = table@;
        table.push(None);
        proof {
            assert(table@.drop_last() =~= prev);
        }
        k = k + 1;
    }
    // Discover the start cell: it is its own predecessor.
    let si = cell_index(width, height, start_x, start_y);
    let ghost table0 = table@;
    table[si] = Some((start_x, start_y));
    let ghost rank0: Map<(u64, u64), nat> = Map::empty().insert(s, 0nat);
    proof {
        lemma_count_some_update(table0, si as int, s);
        assert(count_some(table@) == 1);
        assert forall|c: (u64, u64)|
            cell_at(g, c) && #[trigger] discovered(table@, w, c) implies entry_ok(
            g,
            w,
            table@,
            rank0,
            s,
            c,
        ) by {
            lemma_cidx_in_range(g, w, c);
            if cidx(w, c) == si as int {
                lemma_cidx_injective(g, w, c, s);
            } else {
                assert(table0[cidx(w, c)] is None);
            }
        }
        lemma_cidx_in_range(g, w, s);
        assert(table_ok(g, w, table@, rank0, s)) by {
            reveal(table_ok);
        }
        lemma_gap_bound(s, f);
    }
    let h0 = crate::heuristic::score((start_x, start_y), (finish_x, finish_y));
    let mut open_nodes: Vec<Node> = Vec::new();
    open_nodes.push(
        Node {
            x: start_x,
            y: start_y,
            parent_x: start_x,
            parent_y: start_y,
            depth: 0,
            cost: h0,
        },
    );
    proof {
        assert(frontier_ok(g, w, table@, open_nodes@)) by {
            reveal(frontier_ok);
            assert(open_nodes@[0].pos() == s);
        }
        assert forall|c: (u64, u64)|
            cell_at(g, c) && #[trigger] discovered(table@, w, c) implies in_frontier(
            open_nodes@,
            c,
        ) by {
            reveal(in_frontier);
            lemma_cidx_in_range(g, w, c);
            if cidx(w, c) == si as int {
                lemma_cidx_injective(g, w, c, s);
                assert(open_nodes@[0].pos() == s);
            } else {
                assert(table0[cidx(w, c)] is None);
            }
        }
    }
    let (goal, rank_after) = search(
        &grid,
        width,
        height,
        finish_x,
        finish_y,
        &mut table,
        &mut open_nodes,
        Ghost(rank0),
        Ghost(s),
    );
    match goal {
        None => {
            // The frontier ran dry before the finish was expanded: no walk
            // over passable cells reaches the finish, and the copy is
            // returned unchanged.
            proof {
                assert(discovered(table@, w, s)) by {
                    reveal(table_ok);
                }
                lemma_frontier_empty_unreachable(g, table@, w, s, f);
            }
            solved_grid
        },
        Some(goal_node) => {
            reconstruct(
                &grid,
                &mut solved_grid,
                width,
                height,
                goal_node,
                &table,
                Ghost(rank_after@),
                Ghost(s),
            );
            proof {
                assert(goal_node.pos() == f);
                let p = choose|p: Seq<(int, int)>|
                    is_path(g, p) && p.first() == ipos(s) && p.last() == ipos(goal_node.pos())
                        && (forall|i: int|
                        0 < i < p.len() - 1 ==> rows_of(&solved_grid)[(
                        #[trigger] p[i]).1][p[i].0] == Symbol::Route) && (forall|xx: int, yy: int|
                        in_bounds(g, xx, yy) && !(#[trigger] p.contains((xx, yy))) ==> rows_of(
                            &solved_grid,
                        )[yy][xx] == g[yy][xx]);
                assert(p.first() == marker_cell(g, Symbol::Start));
                assert(p.last() == marker_cell(g, Symbol::Finish));
            }
            solved_grid
        },
    }
}

} // verus!
