//! Heavy-hex and square lattices.
//!
//! A hexagonal lattice of `rows` by `cols` hexagons stands in a grid of
//! `cols + 1` columns of `2 * rows + 2` places. Column `i`, place `j` has the
//! number `i * (2 * rows + 2) + j`. Places of a column are joined downwards;
//! neighboring columns are joined at places of the parity of the left column.
//! Two corners, left with one edge by that rule, are taken out. The heavy-hex
//! lattice has one more qubit in the middle of each edge.
use crate::coupling::traversal::{
    lemma_reach_self, lemma_reach_step, lemma_renumbered_degree, lemma_renumbered_first, lemma_walk,
    lemma_walk_connected, lemma_walk_len, renumbered, walk,
};
use crate::coupling::{edge_ok, edge_set, normalized, CouplingMap, Graph};
use vstd::arithmetic::div_mod::lemma_fundamental_div_mod_converse;
use vstd::prelude::*;
use vstd::set_lib::lemma_len_subset;

verus! {

/// The number of places in a column.
pub open spec fn hex_height(rows: int) -> int {
    2 * rows + 2
}

/// The number of places in all columns.
pub open spec fn hex_places(rows: int, cols: int) -> int {
    (cols + 1) * hex_height(rows)
}

/// The two places that belong to no hexagon.
pub open spec fn hex_corner(rows: int, cols: int, i: int, j: int) -> bool {
    ||| i == 0 && j == 2 * rows + 1
    ||| i == cols && j == (if cols % 2 == 1 { 2 * rows + 1 } else { 0 })
}

/// The place below `u` in its column exists, and both are in a hexagon.
pub open spec fn hex_down(rows: int, cols: int, u: int) -> bool {
    let i = u / hex_height(rows);
    let j = u % hex_height(rows);
    j + 1 < hex_height(rows) && !hex_corner(rows, cols, i, j) && !hex_corner(rows, cols, i, j + 1)
}

/// `u` is joined to its place in the next column.
pub open spec fn hex_across(rows: int, cols: int, u: int) -> bool {
    let i = u / hex_height(rows);
    let j = u % hex_height(rows);
    i < cols && i % 2 == j % 2 && !hex_corner(rows, cols, i, j) && !hex_corner(rows, cols, i + 1, j)
}

/// The edges of the hexagonal lattice whose smaller place is below `n`, in
/// ascending order.
pub open spec fn hex_edges(rows: int, cols: int, n: int) -> Seq<(int, int)>
    decreases n,
{
    if n <= 0 {
        Seq::empty()
    } else {
        let u = n - 1;
        let before = hex_edges(rows, cols, u);
        let with_down = if hex_down(rows, cols, u) {
            before.push((u, u + 1))
        } else {
            before
        };
        if hex_across(rows, cols, u) {
            with_down.push((u, u + hex_height(rows)))
        } else {
            with_down
        }
    }
}

/// The heavy-hex lattice: the middle of the `k`-th edge is the qubit
/// `hex_places(rows, cols) + k`.
pub open spec fn heavy_hex_graph(rows: int, cols: int) -> Graph {
    let places = hex_places(rows, cols);
    let hex = hex_edges(rows, cols, places);
    Graph {
        size: (places + hex.len()) as nat,
        edges: Set::new(
            |e: (usize, usize)|
                places <= e.1 < places + hex.len() && (hex[e.1 - places].0 == e.0
                    || hex[e.1 - places].1 == e.0),
        ),
    }
}

/// The square lattice: row `r`, column `c` has the number `r * cols + c`.
pub open spec fn square_graph(rows: int, cols: int) -> Graph {
    Graph {
        size: (rows * cols) as nat,
        edges: Set::new(
            |e: (usize, usize)|
                e.1 < rows * cols && (e.1 == e.0 + cols || (e.1 == e.0 + 1 && e.0 as int % cols + 1 < cols)),
        ),
    }
}

spec fn hex_step(rows: int, cols: int, u: int, v: int) -> bool {
    ||| v == u + 1 && hex_down(rows, cols, u)
    ||| v == u + hex_height(rows) && hex_across(rows, cols, u)
}

/// The edge list holds the edges of the lattice, each once.
proof fn lemma_hex_edges(rows: int, cols: int, n: int)
    requires
        rows >= 1,
        0 <= n,
    ensures
        forall|k: int|
            0 <= k < hex_edges(rows, cols, n).len() ==> {
                let e = #[trigger] hex_edges(rows, cols, n)[k];
                0 <= e.0 < n && hex_step(rows, cols, e.0, e.1)
            },
        forall|k: int, m: int|
            0 <= k < m < hex_edges(rows, cols, n).len() ==> (#[trigger] hex_edges(rows, cols, n)[k])
                != (#[trigger] hex_edges(rows, cols, n)[m]),
        forall|u: int, v: int|
            0 <= u < n && #[trigger] hex_step(rows, cols, u, v) ==> hex_edges(
                rows,
                cols,
                n,
            ).contains((u, v)),
        hex_edges(rows, cols, n).len() <= 2 * n,
    decreases n,
{
    if n > 0 {
        lemma_hex_edges(rows, cols, n - 1);
        let u = n - 1;
        let before = hex_edges(rows, cols, u);
        let all = hex_edges(rows, cols, n);
        assert forall|x: int, v: int|
            0 <= x < n && #[trigger] hex_step(rows, cols, x, v) implies all.contains((x, v)) by {
            if x < u {
                let k = choose|k: int| 0 <= k < before.len() && before[k] == (x, v);
                assert(all[k] == (x, v));
            } else if v == u + 1 {
                assert(all[before.len() as int] == (u, u + 1));
            } else {
                assert(all[all.len() - 1] == (u, u + hex_height(rows)));
            }
        }
        assert forall|k: int| 0 <= k < before.len() implies #[trigger] all[k] == before[k] by {}
    }
}

/// The `k`-th edge as two edges of the heavy-hex lattice.
proof fn lemma_heavy_step(rows: int, cols: int, u: usize, v: usize)
    requires
        rows >= 1,
        cols >= 1,
        3 * hex_places(rows, cols) <= usize::MAX,
        u < hex_places(rows, cols),
        hex_step(rows, cols, u as int, v as int),
        heavy_hex_graph(rows, cols).reachable(0, u) || heavy_hex_graph(rows, cols).reachable(0, v),
    ensures
        heavy_hex_graph(rows, cols).reachable(0, u),
        heavy_hex_graph(rows, cols).reachable(0, v),
{
    let g = heavy_hex_graph(rows, cols);
    let places = hex_places(rows, cols);
    let hex = hex_edges(rows, cols, places);
    lemma_hex_edges(rows, cols, places);
    lemma_heavy_wf(rows, cols);
    let k = choose|k: int| 0 <= k < hex.len() && hex[k] == (u as int, v as int);
    let mid = (places + k) as usize;
    assert(g.edges.contains((u, mid)));
    assert(g.edges.contains((v, mid)));
    assert(g.adjacent(u, mid) && g.adjacent(mid, u) && g.adjacent(v, mid) && g.adjacent(mid, v));
    if g.reachable(0, u) {
        lemma_reach_step(g, 0, u, mid);
        lemma_reach_step(g, 0, mid, v);
    } else {
        lemma_reach_step(g, 0, v, mid);
        lemma_reach_step(g, 0, mid, u);
    }
}

proof fn lemma_across_in_range(rows: int, cols: int, u: int)
    requires
        rows >= 1,
        0 <= u < hex_places(rows, cols),
        u / hex_height(rows) < cols,
    ensures
        u + hex_height(rows) < hex_places(rows, cols),
{
    let h = hex_height(rows);
    let i = u / h;
    assert(u == i * h + u % h && 0 <= u % h < h) by (nonlinear_arith)
        requires
            h > 0,
            i == u / h,
    ;
    assert((i + 1) * h <= cols * h) by (nonlinear_arith)
        requires
            i + 1 <= cols,
            h > 0,
    ;
    assert((cols + 1) * h == cols * h + h) by (nonlinear_arith);
    assert((i + 1) * h == i * h + h) by (nonlinear_arith);
}

proof fn lemma_down_in_range(rows: int, cols: int, u: int)
    requires
        rows >= 1,
        0 <= u < hex_places(rows, cols),
        u % hex_height(rows) + 1 < hex_height(rows),
    ensures
        u + 1 < hex_places(rows, cols),
{
    let h = hex_height(rows);
    let n = cols + 1;
    if u + 1 >= n * h {
        assert(u == n * h - 1);
        assert(u == (n - 1) * h + (h - 1)) by (nonlinear_arith)
            requires
                u == n * h - 1,
        ;
        lemma_fundamental_div_mod_converse(u, h, n - 1, h - 1);
    }
}

/// Both ends of an edge of the list are places.
proof fn lemma_hex_ends(rows: int, cols: int, k: int)
    requires
        rows >= 1,
        cols >= 1,
        0 <= k < hex_edges(rows, cols, hex_places(rows, cols)).len(),
    ensures
        ({
            let e = hex_edges(rows, cols, hex_places(rows, cols))[k];
            &&& 0 <= e.0 < e.1 < hex_places(rows, cols)
            &&& hex_step(rows, cols, e.0, e.1)
        }),
{
    let places = hex_places(rows, cols);
    assert(places >= 0) by (nonlinear_arith)
        requires
            places == (cols + 1) * hex_height(rows),
            cols >= 1,
            hex_height(rows) >= 0,
    ;
    lemma_hex_edges(rows, cols, places);
    let e = hex_edges(rows, cols, places)[k];
    if hex_across(rows, cols, e.0) && e.1 == e.0 + hex_height(rows) {
        lemma_across_in_range(rows, cols, e.0);
    } else {
        lemma_down_in_range(rows, cols, e.0);
    }
}

proof fn lemma_heavy_wf(rows: int, cols: int)
    requires
        rows >= 1,
        cols >= 1,
    ensures
        heavy_hex_graph(rows, cols).wf(),
{
    let g = heavy_hex_graph(rows, cols);
    let places = hex_places(rows, cols);
    assert forall|a: usize, b: usize| #[trigger] g.edges.contains((a, b)) implies a < b < g.size by {
        lemma_hex_ends(rows, cols, b - places);
    }
}

/// The number of a place, split again into column and place.
proof fn lemma_place(rows: int, cols: int, i: int, j: int)
    requires
        rows >= 1,
        0 <= i <= cols,
        0 <= j < hex_height(rows),
    ensures
        0 <= i * hex_height(rows) + j < hex_places(rows, cols),
        (i * hex_height(rows) + j) / hex_height(rows) == i,
        (i * hex_height(rows) + j) % hex_height(rows) == j,
{
    let h = hex_height(rows);
    lemma_fundamental_div_mod_converse(i * h + j, h, i, j);
    assert(0 <= i * h && (i + 1) * h <= (cols + 1) * h && (i + 1) * h == i * h + h) by (nonlinear_arith)
        requires
            0 <= i <= cols,
            h > 0,
    ;
}

spec fn place_reached(rows: int, cols: int, i: int, j: int) -> bool {
    heavy_hex_graph(rows, cols).reachable(0, (i * hex_height(rows) + j) as usize)
}

/// From one place of a column all others of a hexagon are reached.
proof fn lemma_column(rows: int, cols: int, i: int, j: int, k: int)
    requires
        rows >= 1,
        cols >= 1,
        3 * hex_places(rows, cols) <= usize::MAX,
        0 <= i <= cols,
        0 <= j < hex_height(rows),
        0 <= k < hex_height(rows),
        !hex_corner(rows, cols, i, j),
        !hex_corner(rows, cols, i, k),
        place_reached(rows, cols, i, j),
    ensures
        place_reached(rows, cols, i, k),
    decreases if j < k { k - j } else { j - k },
{
    let h = hex_height(rows);
    lemma_place(rows, cols, i, j);
    if j < k {
        lemma_place(rows, cols, i, j + 1);
        assert(!hex_corner(rows, cols, i, j + 1));
        lemma_heavy_step(rows, cols, (i * h + j) as usize, (i * h + j + 1) as usize);
        lemma_column(rows, cols, i, j + 1, k);
    } else if j > k {
        lemma_place(rows, cols, i, j - 1);
        assert(!hex_corner(rows, cols, i, j - 1));
        lemma_heavy_step(rows, cols, (i * h + j - 1) as usize, (i * h + j) as usize);
        lemma_column(rows, cols, i, j - 1, k);
    }
}

proof fn lemma_all_columns(rows: int, cols: int, i: int, j: int)
    requires
        rows >= 1,
        cols >= 1,
        3 * hex_places(rows, cols) <= usize::MAX,
        0 <= i <= cols,
        0 <= j < hex_height(rows),
        !hex_corner(rows, cols, i, j),
    ensures
        place_reached(rows, cols, i, j),
    decreases i,
{
    let h = hex_height(rows);
    if i == 0 {
        lemma_reach_self(heavy_hex_graph(rows, cols), 0);
        assert(0 * h + 0 == 0);
        lemma_column(rows, cols, 0, 0, j);
    } else {
        let m = (i - 1) % 2;
        lemma_all_columns(rows, cols, i - 1, m);
        lemma_place(rows, cols, i - 1, m);
        lemma_place(rows, cols, i, m);
        assert(i * h + m == (i - 1) * h + m + h) by (nonlinear_arith);
        assert(!hex_corner(rows, cols, i, m));
        assert(hex_across(rows, cols, (i - 1) * h + m));
        lemma_heavy_step(rows, cols, ((i - 1) * h + m) as usize, (i * h + m) as usize);
        lemma_column(rows, cols, i, m, j);
    }
}

/// A heavy-hex lattice is connected: each of its qubits is reached from the
/// first.
proof fn lemma_heavy_reached(rows: int, cols: int, v: usize)
    requires
        rows >= 1,
        cols >= 1,
        3 * hex_places(rows, cols) <= usize::MAX,
        heavy_hex_graph(rows, cols).touched().contains(v),
    ensures
        heavy_hex_graph(rows, cols).reachable(0, v),
{
    let g = heavy_hex_graph(rows, cols);
    let h = hex_height(rows);
    let places = hex_places(rows, cols);
    let hex = hex_edges(rows, cols, places);
    lemma_heavy_wf(rows, cols);
    let b = choose|b: usize| g.adjacent(v, b);
    assert(g.edges.contains(normalized(v, b)));
    let mid = normalized(v, b).1;
    let k = mid - places;
    lemma_hex_ends(rows, cols, k);
    let e = hex[k];
    let u = e.0;
    assert(u == (u / h) * h + u % h && 0 <= u % h < h && u / h >= 0) by (nonlinear_arith)
        requires
            h > 0,
            u >= 0,
    ;
    assert(u / h <= cols) by (nonlinear_arith)
        requires
            u < (cols + 1) * h,
            h > 0,
            u >= 0,
    ;
    lemma_all_columns(rows, cols, u / h, u % h);
    assert(g.reachable(0, u as usize));
    lemma_heavy_step(rows, cols, u as usize, e.1 as usize);
    if v == mid {
        assert(g.edges.contains((u as usize, mid)));
        assert(g.adjacent(u as usize, mid));
        lemma_reach_step(g, 0, u as usize, mid);
    }
}

proof fn lemma_heavy_first(rows: int, cols: int)
    requires
        rows >= 1,
        cols >= 1,
    ensures
        heavy_hex_graph(rows, cols).size > 0,
{
    assert((cols + 1) * hex_height(rows) > 0) by (nonlinear_arith)
        requires
            cols >= 1,
            hex_height(rows) > 0,
    ;
}

/// At least two edges for every row and column.
proof fn lemma_hex_count(rows: int, cols: int, i: int, j: int)
    requires
        rows >= 1,
        0 <= i < cols,
        0 <= j <= hex_height(rows),
    ensures
        hex_edges(rows, cols, i * hex_height(rows) + j).len() >= i * (2 * rows) + (if j <= 2 * rows {
            j
        } else {
            2 * rows
        }),
    decreases i, j,
{
    let h = hex_height(rows);
    if j == 0 {
        if i > 0 {
            lemma_hex_count(rows, cols, i - 1, h);
            assert((i - 1) * h + h == i * h + 0) by (nonlinear_arith);
            assert((i - 1) * (2 * rows) + 2 * rows == i * (2 * rows)) by (nonlinear_arith);
        } else {
            assert(0 * (2 * rows) == 0);
        }
    } else {
        lemma_hex_count(rows, cols, i, j - 1);
        lemma_place(rows, cols, i, j - 1);
        let u = i * h + (j - 1);
        if j <= 2 * rows {
            assert(hex_down(rows, cols, u));
        }
    }
}

/// What the size search needs to know of the `d` by `d` lattice.
proof fn lemma_heavy_count(d: int)
    requires
        d >= 1,
        3 * hex_places(d, d) <= usize::MAX,
        heavy_hex_graph(d, d).touched().finite(),
    ensures
        heavy_hex_graph(d, d).touched().len() >= 2 * d * d,
{
    let g = heavy_hex_graph(d, d);
    let h = hex_height(d);
    let places = hex_places(d, d);
    let hex = hex_edges(d, d, places);
    lemma_hex_count(d, d, d - 1, h);
    assert((d - 1) * h + h == d * h) by (nonlinear_arith);
    assert((d - 1) * (2 * d) + 2 * d == 2 * d * d) by (nonlinear_arith);
    assert((d + 1) * h == d * h + h) by (nonlinear_arith);
    assert(0 <= d * h) by (nonlinear_arith)
        requires
            d >= 1,
            h >= 0,
    ;
    lemma_hex_edges_grow(d, d, d * h, places);
    lemma_hex_edges(d, d, places);
    let mids = Seq::new(hex.len(), |k: int| (places + k) as usize);
    assert(mids.no_duplicates());
    mids.unique_seq_to_set();
    assert(mids.to_set().subset_of(g.touched())) by {
        assert forall|v: usize| #[trigger] mids.to_set().contains(v) implies g.touched().contains(v) by {
            let k = choose|k: int| 0 <= k < mids.len() && mids[k] == v;
            lemma_hex_ends(d, d, k);
            let a = hex[k].0 as usize;
            assert(g.edges.contains((a, v)));
            assert(g.adjacent(v, a));
        }
    }
    lemma_len_subset(mids.to_set(), g.touched());
}

proof fn lemma_hex_edges_grow(rows: int, cols: int, n: int, m: int)
    requires
        0 <= n <= m,
    ensures
        hex_edges(rows, cols, n).len() <= hex_edges(rows, cols, m).len(),
    decreases m - n,
{
    if n < m {
        lemma_hex_edges_grow(rows, cols, n, m - 1);
    }
}

/// The heavy-hex lattice of `rows` by `cols` hexagons, its qubits numbered in
/// depth-first order from the first corner.
pub open spec fn heavy_hex_map(rows: int, cols: int) -> Graph {
    let g = heavy_hex_graph(rows, cols);
    renumbered(g, walk(g, 0, g.size).order)
}

/// The square lattice, numbered in the same way.
pub open spec fn square_map(rows: int, cols: int) -> Graph {
    let g = square_graph(rows, cols);
    renumbered(g, walk(g, 0, (rows * cols) as nat).order)
}

/// The smallest number of rows and columns whose heavy-hex lattice has at
/// least `num_qubits` qubits.
pub open spec fn heavy_hex_distance(num_qubits: nat, d: int) -> bool {
    &&& d >= 1
    &&& heavy_hex_graph(d, d).touched().len() >= num_qubits
    &&& forall|c: int|
        1 <= c < d ==> (#[trigger] heavy_hex_graph(c, c)).touched().len() < num_qubits
}

/// The smallest side whose square holds `num_qubits` qubits.
pub open spec fn square_side(num_qubits: nat, side: int) -> bool {
    side >= 1 && side * side >= num_qubits && (side - 1) * (side - 1) < num_qubits
}

fn hexagonal_lattice_edges(rows: usize, cols: usize) -> (r: Vec<(usize, usize)>)
    requires
        rows >= 1,
        cols >= 1,
        3 * hex_places(rows as int, cols as int) <= usize::MAX,
    ensures
        r.len() == hex_edges(rows as int, cols as int, hex_places(rows as int, cols as int)).len(),
        forall|k: int|
            0 <= k < r.len() ==> ((#[trigger] r@[k]).0 as int, r@[k].1 as int) == hex_edges(
                rows as int,
                cols as int,
                hex_places(rows as int, cols as int),
            )[k],
{
    proof {
        lemma_sizes(rows as int, cols as int);
    }
    let height: usize = 2 * rows + 2;
    let places: usize = (cols + 1) * height;
    let last: usize = 2 * rows + 1;
    let corner: usize = if cols % 2 == 1 { last } else { 0 };
    let mut out: Vec<(usize, usize)> = Vec::new();
    let mut u: usize = 0;
    while u < places
        invariant
            rows >= 1,
            cols >= 1,
            height == hex_height(rows as int),
            places == hex_places(rows as int, cols as int),
            last == 2 * rows + 1,
            corner == (if cols % 2 == 1 { last as int } else { 0 }),
            3 * places <= usize::MAX,
            0 <= u <= places,
            out.len() == hex_edges(rows as int, cols as int, u as int).len(),
            forall|k: int|
                0 <= k < out.len() ==> ((#[trigger] out@[k]).0 as int, out@[k].1 as int) == hex_edges(
                    rows as int,
                    cols as int,
                    u as int,
                )[k],
        decreases places - u,
    {
        let i: usize = u / height;
        let j: usize = u % height;
        proof {
            lemma_split(u as int, height as int, cols + 1);
        }
        let here = (i == 0 && j == last) || (i == cols && j == corner);
        if j + 1 < height && !here && !((i == 0 && j + 1 == last) || (i == cols && j + 1 == corner)) {
            out.push((u, u + 1));
        }
        if i < cols && i % 2 == j % 2 && !here && !((i + 1 == 0 && j == last) || (i + 1 == cols && j
            == corner)) {
            proof {
                lemma_across_in_range(rows as int, cols as int, u as int);
            }
            out.push((u, u + height));
        }
        u = u + 1;
    }
    out
}

proof fn lemma_split(u: int, h: int, n: int)
    requires
        h > 0,
        0 <= u < n * h,
    ensures
        0 <= u / h < n,
        0 <= u % h < h,
        u == (u / h) * h + u % h,
{
    assert(0 <= u / h < n && 0 <= u % h < h && u == (u / h) * h + u % h) by (nonlinear_arith)
        requires
            h > 0,
            0 <= u < n * h,
    ;
}

proof fn lemma_sizes(rows: int, cols: int)
    requires
        rows >= 1,
        cols >= 1,
        3 * hex_places(rows, cols) <= usize::MAX,
    ensures
        2 * rows + 2 <= hex_places(rows, cols),
        cols + 1 <= hex_places(rows, cols),
        hex_places(rows, cols) > 0,
{
    let h = hex_height(rows);
    assert((cols + 1) * h >= h && (cols + 1) * h >= cols + 1) by (nonlinear_arith)
        requires
            cols >= 1,
            h >= 4,
    ;
}

/// The heavy-hex lattice before its qubits are numbered by a walk.
fn heavy_hex_lattice(rows: usize, cols: usize) -> (r: CouplingMap)
    requires
        rows >= 1,
        cols >= 1,
        3 * hex_places(rows as int, cols as int) <= usize::MAX,
    ensures
        r@ == heavy_hex_graph(rows as int, cols as int),
{
    let ghost ro = rows as int;
    let ghost co = cols as int;
    let ghost hex = hex_edges(ro, co, hex_places(ro, co));
    let edges = hexagonal_lattice_edges(rows, cols);
    proof {
        lemma_sizes(ro, co);
        lemma_hex_edges(ro, co, hex_places(ro, co));
    }
    let places: usize = (cols + 1) * (2 * rows + 2);
    let size: usize = places + edges.len();
    let mut list: Vec<(usize, usize)> = Vec::new();
    let mut k: usize = 0;
    while k < edges.len()
        invariant
            rows >= 1,
            cols >= 1,
            ro == rows,
            co == cols,
            hex == hex_edges(ro, co, hex_places(ro, co)),
            places == hex_places(ro, co),
            size == places + edges.len(),
            edges.len() == hex.len(),
            forall|m: int|
                0 <= m < edges.len() ==> ((#[trigger] edges@[m]).0 as int, edges@[m].1 as int) == hex[m],
            0 <= k <= edges.len(),
            list.len() == 2 * k,
            forall|m: int| 0 <= m < k ==> #[trigger] list@[2 * m] == (edges@[m].0, (places + m) as usize),
            forall|m: int|
                0 <= m < k ==> #[trigger] list@[2 * m + 1] == (edges@[m].1, (places + m) as usize),
            forall|n: int| 0 <= n < list.len() ==> edge_ok(size, #[trigger] list@[n]),
            forall|n: int|
                0 <= n < list.len() ==> heavy_hex_graph(ro, co).edges.contains(#[trigger] list@[n]),
        decreases edges.len() - k,
    {
        proof {
            lemma_hex_ends(ro, co, k as int);
        }
        let e = edges[k];
        let ghost before = list@;
        list.push((e.0, places + k));
        list.push((e.1, places + k));
        assert forall|m: int| 0 <= m < k + 1 implies #[trigger] list@[2 * m] == (
            edges@[m].0,
            (places + m) as usize,
        ) by {
            if m < k {
                assert(before[2 * m] == (edges@[m].0, (places + m) as usize));
            }
        }
        assert forall|m: int| 0 <= m < k + 1 implies #[trigger] list@[2 * m + 1] == (
            edges@[m].1,
            (places + m) as usize,
        ) by {
            if m < k {
                assert(before[2 * m + 1] == (edges@[m].1, (places + m) as usize));
            }
        }
        assert forall|n: int| 0 <= n < list.len() implies edge_ok(size, #[trigger] list@[n]) by {
            if n < before.len() {
                assert(list@[n] == before[n]);
            }
        }
        assert forall|n: int| 0 <= n < list.len() implies heavy_hex_graph(ro, co).edges.contains(
            #[trigger] list@[n],
        ) by {
            if n < before.len() {
                assert(list@[n] == before[n]);
            } else {
                assert(edges@[k as int] == e);
            }
        }
        k = k + 1;
    }
    proof {
        let g = heavy_hex_graph(ro, co);
        lemma_heavy_wf(ro, co);
        assert forall|e: (usize, usize)| #[trigger] g.edges.contains(e) implies edge_set(
            list@,
        ).contains(e) by {
            let m = e.1 - places;
            assert(g.edges.contains((e.0, e.1)));
            if hex[m].0 == e.0 {
                assert(list@[2 * m] == (edges@[m].0, (places + m) as usize));
                assert(normalized(list@[2 * m].0, list@[2 * m].1) == e);
            } else {
                assert(list@[2 * m + 1] == (edges@[m].1, (places + m) as usize));
                assert(normalized(list@[2 * m + 1].0, list@[2 * m + 1].1) == e);
            }
        }
        assert forall|e: (usize, usize)| edge_set(list@).contains(e) implies #[trigger] g.edges.contains(
            e,
        ) by {
            let n = choose|n: int|
                0 <= n < list.len() && e == normalized((#[trigger] list@[n]).0, list@[n].1);
            assert(g.edges.contains((list@[n].0, list@[n].1)));
        }
        assert(edge_set(list@) =~= g.edges);
    }
    CouplingMap::collect(size, &list)
}

/// The square lattice before its qubits are numbered by a walk.
fn square_lattice(rows: usize, cols: usize) -> (r: CouplingMap)
    requires
        rows >= 1,
        cols >= 1,
        rows * cols <= usize::MAX,
    ensures
        r@ == square_graph(rows as int, cols as int),
{
    let size: usize = rows * cols;
    let ghost g = square_graph(rows as int, cols as int);
    let mut list: Vec<(usize, usize)> = Vec::new();
    let mut u: usize = 0;
    while u < size
        invariant
            rows >= 1,
            cols >= 1,
            size == rows * cols,
            g == square_graph(rows as int, cols as int),
            0 <= u <= size,
            forall|n: int| 0 <= n < list.len() ==> g.edges.contains(#[trigger] list@[n]),
            forall|e: (usize, usize)|
                e.0 < u && #[trigger] g.edges.contains(e) ==> list@.contains(e),
        decreases size - u,
    {
        let ghost before = list@;
        let down = size - u > cols;
        let right = u % cols + 1 < cols;
        if right {
            proof {
                lemma_right_in_range(u as int, rows as int, cols as int);
            }
            list.push((u, u + 1));
        }
        let ghost middle = list@;
        if down {
            list.push((u, u + cols));
        }
        proof {
            assert forall|e: (usize, usize)|
                e.0 < u + 1 && #[trigger] g.edges.contains(e) implies list@.contains(e) by {
                if e.0 < u {
                    assert(before.contains(e));
                    let n = choose|n: int| 0 <= n < before.len() && before[n] == e;
                    assert(list@[n] == e);
                } else if e.1 == u + cols {
                    assert(list@[list.len() - 1] == e);
                } else {
                    assert(list@[before.len() as int] == e);
                }
            }
        }
        u = u + 1;
    }
    proof {
        lemma_square_wf(rows as int, cols as int);
        assert forall|n: int| 0 <= n < list.len() implies edge_ok(size, #[trigger] list@[n]) by {
            assert(g.edges.contains((list@[n].0, list@[n].1)));
        }
        assert forall|e: (usize, usize)| #[trigger] g.edges.contains(e) implies edge_set(
            list@,
        ).contains(e) by {
            assert(g.edges.contains((e.0, e.1)));
            assert(list@.contains(e));
            let n = choose|n: int| 0 <= n < list.len() && list@[n] == e;
            assert(normalized(list@[n].0, list@[n].1) == e);
        }
        assert forall|e: (usize, usize)| edge_set(list@).contains(e) implies #[trigger] g.edges.contains(
            e,
        ) by {
            let n = choose|n: int|
                0 <= n < list.len() && e == normalized((#[trigger] list@[n]).0, list@[n].1);
            assert(g.edges.contains((list@[n].0, list@[n].1)));
        }
        assert(edge_set(list@) =~= g.edges);
    }
    CouplingMap::collect(size, &list)
}


proof fn lemma_right_in_range(u: int, rows: int, cols: int)
    requires
        0 <= u < rows * cols,
        rows >= 1,
        cols >= 1,
        u % cols + 1 < cols,
    ensures
        u + 1 < rows * cols,
{
    if u + 1 >= rows * cols {
        assert(u == (rows - 1) * cols + (cols - 1)) by (nonlinear_arith)
            requires
                u == rows * cols - 1,
        ;
        lemma_fundamental_div_mod_converse(u, cols, rows - 1, cols - 1);
    }
}

proof fn lemma_square_wf(rows: int, cols: int)
    requires
        rows >= 1,
        cols >= 1,
    ensures
        square_graph(rows, cols).wf(),
        square_graph(rows, cols).size >= 1,
{
    assert(rows * cols >= 1) by (nonlinear_arith)
        requires
            rows >= 1,
            cols >= 1,
    ;
}

/// Every qubit of a square lattice is reached from the first.
proof fn lemma_square_reached(rows: int, cols: int, v: usize)
    requires
        rows >= 1,
        cols >= 1,
        v < rows * cols,
        rows * cols <= usize::MAX,
    ensures
        square_graph(rows, cols).reachable(0, v),
    decreases v,
{
    let g = square_graph(rows, cols);
    if v == 0 {
        lemma_reach_self(g, 0);
    } else if v as int % cols > 0 {
        let u = (v - 1) as usize;
        let c = v as int % cols;
        let r = v as int / cols;
        assert(v == r * cols + c && 0 <= c < cols) by (nonlinear_arith)
            requires
                cols >= 1,
                c == v as int % cols,
                r == v as int / cols,
        ;
        lemma_fundamental_div_mod_converse(u as int, cols, r, c - 1);
        lemma_square_reached(rows, cols, u);
        assert(g.edges.contains((u, v)));
        assert(g.adjacent(u, v));
        lemma_reach_step(g, 0, u, v);
    } else {
        assert(v >= cols) by (nonlinear_arith)
            requires
                v as int % cols == 0,
                v > 0,
                cols >= 1,
        ;
        let u = (v - cols) as usize;
        lemma_square_reached(rows, cols, u);
        assert(g.edges.contains((u, v)));
        assert(g.adjacent(u, v));
        lemma_reach_step(g, 0, u, v);
    }
}

spec fn all_below(n: int) -> Set<usize> {
    Set::new(|v: usize| v < n)
}

proof fn lemma_all_below(n: int)
    requires
        0 <= n <= usize::MAX,
    ensures
        all_below(n).finite(),
        all_below(n).len() == n,
    decreases n,
{
    if n == 0 {
        assert(all_below(0) =~= Set::empty());
    } else {
        lemma_all_below(n - 1);
        assert(all_below(n) =~= all_below(n - 1).insert((n - 1) as usize));
    }
}

proof fn lemma_square_len(rows: int, cols: int, steps: nat)
    requires
        rows >= 1,
        cols >= 1,
        rows * cols <= usize::MAX,
        steps <= rows * cols,
    ensures
        walk(square_graph(rows, cols), 0, steps).order.len() == steps,
{
    let g = square_graph(rows, cols);
    lemma_square_wf(rows, cols);
    lemma_all_below(rows * cols);
    assert forall|v: usize| #[trigger] all_below(rows * cols).contains(v) implies g.reachable(0, v) by {
        lemma_square_reached(rows, cols, v);
    }
    lemma_walk_len(g, 0, steps, all_below(rows * cols));
}

/// A qubit of a square lattice has at most four neighbors.
proof fn lemma_square_degree(rows: int, cols: int, order: Seq<usize>, q: usize)
    requires
        rows >= 1,
        cols >= 1,
        rows * cols <= usize::MAX,
        order.no_duplicates(),
        order.len() <= usize::MAX,
        q < order.len(),
    ensures
        renumbered(square_graph(rows, cols), order).neighbor_set(q).finite(),
        renumbered(square_graph(rows, cols), order).neighbor_set(q).len() <= 4,
{
    let g = square_graph(rows, cols);
    let u = order[q as int];
    lemma_square_wf(rows, cols);
    let bound = seq![(u - 1) as usize, (u - cols) as usize, (u + 1) as usize, (u + cols) as usize];
    assert forall|b: usize| #[trigger] g.adjacent(u, b) implies bound.contains(b) by {
        assert(g.edges.contains(normalized(u, b)));
        if b == u - 1 {
            assert(bound[0] == b);
        } else if b == u - cols {
            assert(bound[1] == b);
        } else if b == u + 1 {
            assert(bound[2] == b);
        } else {
            assert(bound[3] == b);
        }
    }
    lemma_renumbered_degree(g, order, q, bound);
}

spec fn edge_position(hex: Seq<(int, int)>, e: (int, int)) -> int {
    choose|k: int| 0 <= k < hex.len() && hex[k] == e
}

/// A qubit of a heavy-hex lattice has at most three neighbors.
proof fn lemma_heavy_degree(rows: int, cols: int, order: Seq<usize>, q: usize)
    requires
        rows >= 1,
        cols >= 1,
        3 * hex_places(rows, cols) <= usize::MAX,
        order.no_duplicates(),
        order.len() <= usize::MAX,
        q < order.len(),
    ensures
        renumbered(heavy_hex_graph(rows, cols), order).neighbor_set(q).finite(),
        renumbered(heavy_hex_graph(rows, cols), order).neighbor_set(q).len() <= 3,
{
    let g = heavy_hex_graph(rows, cols);
    let h = hex_height(rows);
    let places = hex_places(rows, cols);
    let hex = hex_edges(rows, cols, places);
    let u = order[q as int];
    lemma_heavy_wf(rows, cols);
    lemma_heavy_first(rows, cols);
    lemma_hex_edges(rows, cols, places);
    if u >= places {
        let e = hex[u - places];
        let bound = seq![e.0 as usize, e.1 as usize];
        assert forall|b: usize| #[trigger] g.adjacent(u, b) implies bound.contains(b) by {
            let n = normalized(u, b);
            assert(g.edges.contains((n.0, n.1)));
            lemma_hex_ends(rows, cols, n.1 - places);
            if e.0 == b {
                assert(bound[0] == b);
            } else {
                assert(bound[1] == b);
            }
        }
        lemma_renumbered_degree(g, order, q, bound);
    } else {
        let side = if hex_across(rows, cols, u as int) {
            (u as int, u + h)
        } else {
            (u - h, u as int)
        };
        let bound = seq![
            (places + edge_position(hex, (u as int, u + 1))) as usize,
            (places + edge_position(hex, (u - 1, u as int))) as usize,
            (places + edge_position(hex, side)) as usize,
        ];
        assert forall|b: usize| #[trigger] g.adjacent(u, b) implies bound.contains(b) by {
            let n = normalized(u, b);
            assert(g.edges.contains((n.0, n.1)));
            let k = b - places;
            lemma_hex_ends(rows, cols, n.1 - places);
            let e = hex[k];
            assert(e.0 == u || e.1 == u);
            assert(edge_position(hex, e) == k) by {
                let m = edge_position(hex, e);
                assert(hex[m] == hex[k]);
            }
            if e == (u as int, u + 1) {
                assert(bound[0] == b);
            } else if e == (u - 1, u as int) {
                assert(bound[1] == b);
            } else {
                if e.1 == u {
                    lemma_one_side(rows, cols, u as int);
                }
                assert(e == side);
                assert(bound[2] == b);
            }
        }
        lemma_renumbered_degree(g, order, q, bound);
    }
}

/// A place is joined to the next column or to the one before, not to both.
proof fn lemma_one_side(rows: int, cols: int, u: int)
    requires
        rows >= 1,
        u >= hex_height(rows),
    ensures
        !(hex_across(rows, cols, u) && hex_across(rows, cols, u - hex_height(rows))),
{
    let h = hex_height(rows);
    let i = u / h;
    let j = u % h;
    assert(u == i * h + j && 0 <= j < h) by (nonlinear_arith)
        requires
            h > 0,
            i == u / h,
            j == u % h,
    ;
    assert(u - h == (i - 1) * h + j) by (nonlinear_arith)
        requires
            u == i * h + j,
    ;
    lemma_fundamental_div_mod_converse(u - h, h, i - 1, j);
}

proof fn lemma_heavy_len(rows: int, cols: int, steps: nat)
    requires
        rows >= 1,
        cols >= 1,
        3 * hex_places(rows, cols) <= usize::MAX,
        steps <= heavy_hex_graph(rows, cols).touched().len(),
    ensures
        walk(heavy_hex_graph(rows, cols), 0, steps).order.len() == steps,
{
    let g = heavy_hex_graph(rows, cols);
    lemma_heavy_wf(rows, cols);
    lemma_heavy_first(rows, cols);
    lemma_hex_edges(rows, cols, hex_places(rows, cols));
    assert forall|v: usize| #[trigger] g.touched().contains(v) implies g.reachable(0, v) by {
        lemma_heavy_reached(rows, cols, v);
    }
    lemma_walk_len(g, 0, steps, g.touched());
}

/// The walk over the whole lattice visits the qubits of the hexagons.
proof fn lemma_heavy_whole(rows: int, cols: int)
    requires
        rows >= 1,
        cols >= 1,
        3 * hex_places(rows, cols) <= usize::MAX,
    ensures
        walk(heavy_hex_graph(rows, cols), 0, heavy_hex_graph(rows, cols).size).order.len()
            == heavy_hex_graph(rows, cols).touched().len(),
{
    let g = heavy_hex_graph(rows, cols);
    let order = walk(g, 0, g.size).order;
    lemma_heavy_wf(rows, cols);
    lemma_heavy_first(rows, cols);
    lemma_hex_edges(rows, cols, hex_places(rows, cols));
    lemma_walk(g, 0, g.size);
    crate::coupling::traversal::lemma_walk_all(g, 0);
    assert(order.to_set() =~= g.touched()) by {
        assert forall|v: usize| g.touched().contains(v) implies order.to_set().contains(v) by {
            lemma_heavy_reached(rows, cols, v);
            assert(order.contains(v));
        }
        assert forall|v: usize| order.to_set().contains(v) implies g.touched().contains(v) by {
            assert(order.contains(v));
            let p = choose|p: Seq<usize>| g.is_path(p, 0, v);
            if p.len() == 1 {
                lemma_first_touched(rows, cols);
            } else {
                assert(g.linked(p, p.len() - 1));
                assert(g.adjacent(v, p[p.len() - 2]));
            }
        }
    }
    order.unique_seq_to_set();
}

proof fn lemma_first_touched(rows: int, cols: int)
    requires
        rows >= 1,
        cols >= 1,
        3 * hex_places(rows, cols) <= usize::MAX,
    ensures
        heavy_hex_graph(rows, cols).touched().contains(0),
{
    let g = heavy_hex_graph(rows, cols);
    let places = hex_places(rows, cols);
    let hex = hex_edges(rows, cols, places);
    lemma_sizes(rows, cols);
    lemma_hex_edges(rows, cols, places);
    lemma_place(rows, cols, 0, 0);
    assert(0 * hex_height(rows) + 0 == 0);
    assert(hex_step(rows, cols, 0, 1));
    let k = choose|k: int| 0 <= k < hex.len() && hex[k] == (0int, 1int);
    let mid = (places + k) as usize;
    assert(g.edges.contains((0usize, mid)));
    assert(g.adjacent(0, mid));
}

/// The bound that lets the size search go on.
proof fn lemma_next_size(d: int, num_qubits: int)
    requires
        d >= 1,
        2 * d * d < num_qubits <= usize::MAX / 16,
    ensures
        3 * hex_places(d + 1, d + 1) <= usize::MAX,
        d < num_qubits,
{
    assert(hex_places(d + 1, d + 1) == 2 * (d + 2) * (d + 2)) by (nonlinear_arith)
        requires
            hex_places(d + 1, d + 1) == (d + 1 + 1) * (2 * (d + 1) + 2),
    ;
    assert((d + 2) * (d + 2) <= 9 * d * d && d <= 2 * d * d) by (nonlinear_arith)
        requires
            d >= 1,
    ;
    assert(6 * (d + 2) * (d + 2) == 6 * ((d + 2) * (d + 2))) by (nonlinear_arith);
    assert(3 * (2 * (d + 2) * (d + 2)) == 6 * ((d + 2) * (d + 2))) by (nonlinear_arith);
    assert((d + 2) * (d + 2) * 3 <= 27 * (d * d)) by (nonlinear_arith)
        requires
            (d + 2) * (d + 2) <= 9 * d * d,
    ;
    assert(2 * d * d == 2 * (d * d)) by (nonlinear_arith);
    if d >= 2 {
        assert((d + 2) * (d + 2) <= 4 * (d * d)) by (nonlinear_arith)
            requires
                d >= 2,
        ;
    }
}

/// A lattice that fits the machine is finite.
proof fn lemma_heavy_finite(d: int)
    requires
        d >= 1,
        3 * hex_places(d, d) <= usize::MAX,
    ensures
        heavy_hex_graph(d, d).touched().finite(),
{
    let g = heavy_hex_graph(d, d);
    lemma_heavy_wf(d, d);
    lemma_hex_edges(d, d, hex_places(d, d));
    lemma_all_below(g.size as int);
    assert(g.touched().subset_of(all_below(g.size as int))) by {
        assert forall|v: usize| #[trigger] g.touched().contains(v) implies v < g.size by {
            let b = choose|b: usize| g.adjacent(v, b);
            assert(g.edges.contains(normalized(v, b)));
        }
    }
    lemma_len_subset(g.touched(), all_below(g.size as int));
}

/// The lattices up to the one that is large enough fit the machine.
proof fn lemma_sizes_fit(num_qubits: nat, d: int, c: int)
    requires
        num_qubits <= usize::MAX / 16,
        heavy_hex_distance(num_qubits, d),
        1 <= c <= d,
    ensures
        3 * hex_places(c, c) <= usize::MAX,
    decreases c,
{
    if c > 1 {
        lemma_sizes_fit(num_qubits, d, c - 1);
        lemma_heavy_finite(c - 1);
        lemma_heavy_count(c - 1);
        assert(heavy_hex_graph(c - 1, c - 1).touched().len() < num_qubits);
        lemma_next_size(c - 1, num_qubits as int);
    } else {
        assert(hex_places(1, 1) == 8);
    }
}

/// The map for some number of qubits is cut from the smallest whole lattice
/// that has so many: it has the first qubits of that lattice, under the same
/// numbers, and the edges between them.
pub proof fn lemma_heavy_hex_cut(num_qubits: nat, d: int)
    requires
        num_qubits <= usize::MAX / 16,
        heavy_hex_distance(num_qubits, d),
    ensures
        renumbered(heavy_hex_graph(d, d), walk(heavy_hex_graph(d, d), 0, num_qubits).order)
            == heavy_hex_map(d, d).first(num_qubits),
        num_qubits <= heavy_hex_map(d, d).size,
        forall|a: usize, b: usize|
            a < num_qubits && b < num_qubits ==> #[trigger] heavy_hex_map(d, d).first(
                num_qubits,
            ).adjacent(a, b) == heavy_hex_map(d, d).adjacent(a, b),
{
    let g = heavy_hex_graph(d, d);
    lemma_sizes_fit(num_qubits, d, d);
    lemma_heavy_len(d, d, num_qubits);
    lemma_heavy_whole(d, d);
    lemma_heavy_wf(d, d);
    lemma_heavy_first(d, d);
    lemma_hex_edges(d, d, hex_places(d, d));
    lemma_walk(g, 0, g.size);
    lemma_renumbered_first(g, 0, num_qubits, g.size);
}

/// The same for the smallest square.
pub proof fn lemma_square_cut(num_qubits: nat, side: int)
    requires
        num_qubits <= usize::MAX / 16,
        square_side(num_qubits, side),
    ensures
        renumbered(square_graph(side, side), walk(square_graph(side, side), 0, num_qubits).order)
            == square_map(side, side).first(num_qubits),
        num_qubits <= square_map(side, side).size,
        forall|a: usize, b: usize|
            a < num_qubits && b < num_qubits ==> #[trigger] square_map(side, side).first(
                num_qubits,
            ).adjacent(a, b) == square_map(side, side).adjacent(a, b),
{
    let g = square_graph(side, side);
    assert(side * side <= usize::MAX) by {
        if side > 1 {
            assert(side * side <= 4 * ((side - 1) * (side - 1))) by (nonlinear_arith)
                requires
                    side >= 2,
            ;
        } else {
            assert(side == 1);
            assert(1int * 1 == 1);
        }
    }
    lemma_square_len(side, side, num_qubits);
    lemma_renumbered_first(g, 0, num_qubits, (side * side) as nat);
}

impl CouplingMap {
    /// The heavy-hex lattice of `rows` by `cols` hexagons, numbered in
    /// depth-first order from its first corner. Every qubit has at most
    /// three neighbors, and the map is connected.
    pub fn heavy_hex_grid(rows: usize, cols: usize) -> (r: Self)
        requires
            rows >= 1,
            cols >= 1,
            3 * hex_places(rows as int, cols as int) <= usize::MAX,
        ensures
            r@ == heavy_hex_map(rows as int, cols as int),
            r@.size == heavy_hex_graph(rows as int, cols as int).touched().len(),
            r@.connected(),
            forall|q: usize|
                q < r@.size ==> (#[trigger] r@.neighbor_set(q)).finite() && r@.neighbor_set(q).len() <= 3,
    {
        let ghost g = heavy_hex_graph(rows as int, cols as int);
        let lattice = heavy_hex_lattice(rows, cols);
        let size = lattice.num_qubits();
        proof {
            lemma_heavy_first(rows as int, cols as int);
            let order = walk(g, 0, g.size).order;
            lemma_walk(g, 0, g.size);
            lemma_walk_connected(g, 0, g.size);
            assert forall|q: usize| q < renumbered(g, order).size implies (#[trigger] renumbered(
                g,
                order,
            ).neighbor_set(q)).finite() && renumbered(g, order).neighbor_set(q).len() <= 3 by {
                lemma_heavy_degree(rows as int, cols as int, order, q);
            }
            lemma_heavy_whole(rows as int, cols as int);
        }
        lattice.dfs_map(0, size)
    }

    /// The first `num_qubits` qubits of the smallest heavy-hex lattice that
    /// has so many. Every qubit has at most three neighbors, and the map is
    /// connected.
    pub fn heavy_hex_for(num_qubits: usize) -> (r: Self)
        requires
            num_qubits <= usize::MAX / 16,
        ensures
            num_qubits <= 1 ==> r@ == (Graph { size: num_qubits as nat, edges: Set::empty() }),
            num_qubits > 1 ==> exists|d: int| #[trigger]
                heavy_hex_distance(num_qubits as nat, d) && r@ == heavy_hex_map(d, d).first(
                    num_qubits as nat,
                ),
            r@.size == num_qubits,
            r@.connected(),
            forall|q: usize|
                q < r@.size ==> (#[trigger] r@.neighbor_set(q)).finite() && r@.neighbor_set(q).len() <= 3,
    {
        if num_qubits <= 1 {
            return Self::bare(num_qubits);
        }
        let mut d: usize = 1;
        loop
            invariant
                1 < num_qubits <= usize::MAX / 16,
                1 <= d <= num_qubits,
                3 * hex_places(d as int, d as int) <= usize::MAX,
                forall|c: int|
                    1 <= c < d ==> (#[trigger] heavy_hex_graph(c, c)).touched().len() < num_qubits,
            decreases num_qubits - d,
        {
            let ghost g = heavy_hex_graph(d as int, d as int);
            let lattice = heavy_hex_lattice(d, d);
            let total = lattice.touched_count();
            proof {
                lemma_heavy_first(d as int, d as int);
                lemma_heavy_count(d as int);
            }
            if total >= num_qubits {
                proof {
                    lemma_heavy_len(d as int, d as int, num_qubits as nat);
                    let order = walk(g, 0, num_qubits as nat).order;
                    lemma_heavy_wf(d as int, d as int);
                    lemma_hex_edges(d as int, d as int, hex_places(d as int, d as int));
                    lemma_walk(g, 0, num_qubits as nat);
                    lemma_walk_connected(g, 0, num_qubits as nat);
                    assert forall|q: usize| q < renumbered(g, order).size implies (
                    #[trigger] renumbered(g, order).neighbor_set(q)).finite() && renumbered(
                        g,
                        order,
                    ).neighbor_set(q).len() <= 3 by {
                        lemma_heavy_degree(d as int, d as int, order, q);
                    }
                    assert(heavy_hex_distance(num_qubits as nat, d as int));
                    lemma_heavy_hex_cut(num_qubits as nat, d as int);
                }
                return lattice.dfs_map(0, num_qubits);
            }
            proof {
                lemma_next_size(d as int, num_qubits as int);
            }
            d = d + 1;
        }
    }

    /// A map without edges.
    fn bare(num_qubits: usize) -> (r: Self)
        requires
            num_qubits <= 1,
        ensures
            r@ == (Graph { size: num_qubits as nat, edges: Set::empty() }),
            r@.connected(),
            forall|q: usize| (#[trigger] r@.neighbor_set(q)).finite() && r@.neighbor_set(q).len() == 0,
    {
        let none: Vec<(usize, usize)> = Vec::new();
        proof {
            assert(edge_set(none@) =~= Set::empty());
            let g = Graph { size: num_qubits as nat, edges: Set::empty() };
            assert forall|a: usize, b: usize| a < g.size && b < g.size implies #[trigger] g.reachable(
                a,
                b,
            ) by {
                lemma_reach_self(g, a);
            }
            assert forall|q: usize| (#[trigger] g.neighbor_set(q)).finite() && g.neighbor_set(q).len()
                == 0 by {
                assert(g.neighbor_set(q) =~= Set::empty());
            }
        }
        Self::collect(num_qubits, &none)
    }

    /// The square lattice of `rows` by `cols` qubits, numbered in depth-first
    /// order from its first corner. Every qubit has at most four neighbors,
    /// and the map is connected.
    pub fn square_grid(rows: usize, cols: usize) -> (r: Self)
        requires
            rows >= 1,
            cols >= 1,
            rows * cols <= usize::MAX,
        ensures
            r@ == square_map(rows as int, cols as int),
            r@.size == rows * cols,
            r@.connected(),
            forall|q: usize|
                q < r@.size ==> (#[trigger] r@.neighbor_set(q)).finite() && r@.neighbor_set(q).len() <= 4,
    {
        let size: usize = rows * cols;
        let lattice = square_lattice(rows, cols);
        proof {
            lemma_square_map(rows as int, cols as int, size as nat);
        }
        lattice.dfs_map(0, size)
    }

    /// The first `num_qubits` qubits of the smallest square that holds them.
    /// Every qubit has at most four neighbors, and the map is connected.
    pub fn square_grid_for(num_qubits: usize) -> (r: Self)
        requires
            num_qubits <= usize::MAX / 16,
        ensures
            num_qubits <= 1 ==> r@ == (Graph { size: num_qubits as nat, edges: Set::empty() }),
            num_qubits >= 1 ==> exists|side: int| #[trigger]
                square_side(num_qubits as nat, side) && r@ == square_map(side, side).first(
                    num_qubits as nat,
                ),
            r@.size == num_qubits,
            r@.connected(),
            forall|q: usize|
                q < r@.size ==> (#[trigger] r@.neighbor_set(q)).finite() && r@.neighbor_set(q).len() <= 4,
    {
        if num_qubits <= 1 {
            proof {
                if num_qubits == 1 {
                    assert(square_side(1, 1)) by (nonlinear_arith);
                    assert(square_map(1, 1).first(1).edges =~= Set::empty());
                }
            }
            return Self::bare(num_qubits);
        }
        let mut side: usize = 1;
        assert(1usize * 1usize == 1);
        loop
            invariant
                1 < num_qubits <= usize::MAX / 16,
                1 <= side <= num_qubits,
                side * side <= usize::MAX,
                (side - 1) * (side - 1) < num_qubits,
            decreases num_qubits - side,
        {
            let total: usize = side * side;
            if total >= num_qubits {
                let lattice = square_lattice(side, side);
                proof {
                    lemma_square_map(side as int, side as int, num_qubits as nat);
                    assert(square_side(num_qubits as nat, side as int));
                    lemma_square_cut(num_qubits as nat, side as int);
                }
                return lattice.dfs_map(0, num_qubits);
            }
            proof {
                assert(side <= side * side && (side + 1) * (side + 1) <= 4 * (side * side)) by (nonlinear_arith)
                    requires
                        side >= 1,
                ;
            }
            side = side + 1;
        }
    }
}

proof fn lemma_square_map(rows: int, cols: int, steps: nat)
    requires
        rows >= 1,
        cols >= 1,
        rows * cols <= usize::MAX,
        steps <= rows * cols,
    ensures
        ({
            let r = renumbered(square_graph(rows, cols), walk(square_graph(rows, cols), 0, steps).order);
            &&& r.size == steps
            &&& r.connected()
            &&& forall|q: usize|
                q < r.size ==> (#[trigger] r.neighbor_set(q)).finite() && r.neighbor_set(q).len() <= 4
            &&& square_graph(rows, cols).size > 0
        }),
{
    let g = square_graph(rows, cols);
    let order = walk(g, 0, steps).order;
    lemma_square_wf(rows, cols);
    lemma_square_len(rows, cols, steps);
    lemma_walk(g, 0, steps);
    lemma_walk_connected(g, 0, steps);
    assert forall|q: usize| q < renumbered(g, order).size implies (#[trigger] renumbered(
        g,
        order,
    ).neighbor_set(q)).finite() && renumbered(g, order).neighbor_set(q).len() <= 4 by {
        lemma_square_degree(rows, cols, order, q);
    }
}

} // verus!
