//! Physical qubit connectivity.
use crate::text::{decimal, push_decimal};
use vstd::prelude::*;

pub mod lattice;
pub mod traversal;

verus! {

/// An undirected graph on the qubits `0..size`. Each edge stands with its
/// smaller endpoint first.
pub struct Graph {
    pub size: nat,
    pub edges: Set<(usize, usize)>,
}

/// An edge with its smaller endpoint first.
pub open spec fn normalized(a: usize, b: usize) -> (usize, usize) {
    if a < b {
        (a, b)
    } else {
        (b, a)
    }
}

impl Graph {
    /// Every edge joins two different qubits of the graph.
    pub open spec fn wf(self) -> bool {
        forall|a: usize, b: usize| #[trigger] self.edges.contains((a, b)) ==> a < b < self.size
    }

    pub open spec fn adjacent(self, a: usize, b: usize) -> bool {
        self.edges.contains(normalized(a, b))
    }

    /// The step of `p` that ends at position `i` follows an edge.
    pub open spec fn linked(self, p: Seq<usize>, i: int) -> bool {
        self.adjacent(p[i - 1], p[i])
    }

    /// `p` walks along edges from `from` to `to`, both included.
    pub open spec fn is_path(self, p: Seq<usize>, from: usize, to: usize) -> bool {
        &&& p.len() > 0
        &&& p[0] == from
        &&& p.last() == to
        &&& forall|i: int| 1 <= i < p.len() ==> #[trigger] self.linked(p, i)
    }

    /// The qubits that have a neighbor.
    pub open spec fn touched(self) -> Set<usize> {
        Set::new(|v: usize| exists|b: usize| self.adjacent(v, b))
    }

    /// The graph of the first `n` qubits with the edges between them.
    pub open spec fn first(self, n: nat) -> Graph {
        Graph {
            size: n,
            edges: Set::new(|e: (usize, usize)| self.edges.contains(e) && e.0 < n && e.1 < n),
        }
    }

    pub open spec fn neighbor_set(self, q: usize) -> Set<usize> {
        Set::new(|b: usize| self.adjacent(q, b))
    }

    pub open spec fn reachable(self, from: usize, to: usize) -> bool {
        exists|p: Seq<usize>| self.is_path(p, from, to)
    }

    /// Any two qubits are joined by a path.
    pub open spec fn connected(self) -> bool {
        forall|a: usize, b: usize|
            a < self.size && b < self.size ==> #[trigger] self.reachable(a, b)
    }
}

/// `p` comes before `q` at the first position where they differ.
pub open spec fn lex_less(p: Seq<usize>, q: Seq<usize>) -> bool {
    exists|i: int|
        0 <= i < p.len() && i < q.len() && #[trigger] p[i] < q[i] && p.take(i) == q.take(i)
}

/// `p` is shorter than `q`, or as long and lexicographically smaller.
pub open spec fn shortlex_less(p: Seq<usize>, q: Seq<usize>) -> bool {
    p.len() < q.len() || (p.len() == q.len() && lex_less(p, q))
}

pub open spec fn shortlex_at_most(p: Seq<usize>, q: Seq<usize>) -> bool {
    p == q || shortlex_less(p, q)
}

proof fn lemma_shortlex_transitive(p: Seq<usize>, q: Seq<usize>, r: Seq<usize>)
    ensures
        shortlex_less(p, q) && shortlex_less(q, r) ==> shortlex_less(p, r),
        shortlex_at_most(p, q) && shortlex_at_most(q, r) ==> shortlex_at_most(p, r),
        shortlex_less(p, q) && shortlex_at_most(q, r) ==> shortlex_less(p, r),
{
    if p.len() == q.len() && q.len() == r.len() && lex_less(p, q) && lex_less(q, r) {
        let i = choose|i: int|
            0 <= i < p.len() && i < q.len() && #[trigger] p[i] < q[i] && p.take(i) == q.take(i);
        let j = choose|j: int|
            0 <= j < q.len() && j < r.len() && #[trigger] q[j] < r[j] && q.take(j) == r.take(j);
        let k = if i < j { i } else { j };
        assert(p.take(k) =~= r.take(k)) by {
            assert forall|n: int| 0 <= n < k implies p[n] == r[n] by {
                assert(p.take(i)[n] == q.take(i)[n]);
                assert(q.take(j)[n] == r.take(j)[n]);
            }
        }
        assert(p[k] < r[k]) by {
            if i < j {
                assert(q.take(j)[i] == r.take(j)[i]);
            } else if j < i {
                assert(p.take(i)[j] == q.take(i)[j]);
            }
        }
    }
}

/// Extending keeps the order, whatever the larger sequence is extended by.
proof fn lemma_shortlex_push(p: Seq<usize>, q: Seq<usize>, x: usize, y: usize)
    ensures
        shortlex_less(p, q) ==> shortlex_less(p.push(x), q.push(y)),
        x < y ==> shortlex_less(p.push(x), p.push(y)),
        shortlex_at_most(p, q) ==> shortlex_at_most(p.push(x), q.push(x)),
{
    if p.len() == q.len() && lex_less(p, q) {
        let i = choose|i: int|
            0 <= i < p.len() && i < q.len() && #[trigger] p[i] < q[i] && p.take(i) == q.take(i);
        assert(p.push(x).take(i) =~= p.take(i));
        assert(q.push(y).take(i) =~= q.take(i));
        assert(q.push(x).take(i) =~= q.take(i));
        assert(p.push(x)[i] < q.push(y)[i]);
        assert(p.push(x)[i] < q.push(x)[i]);
    }
    if x < y {
        let n = p.len() as int;
        assert(p.push(x).take(n) =~= p.push(y).take(n));
        assert(p.push(x)[n] < p.push(y)[n]);
    }
}

/// A list of qubit pairs in strictly ascending lexicographic order.
pub open spec fn pair_less(x: (usize, usize), y: (usize, usize)) -> bool {
    x.0 < y.0 || (x.0 == y.0 && x.1 < y.1)
}

pub open spec fn ascending(s: Seq<(usize, usize)>) -> bool {
    forall|i: int, j: int| 0 <= i < j < s.len() ==> pair_less(#[trigger] s[i], #[trigger] s[j])
}

/// Which pairs of physical qubits a two-qubit gate can act on directly.
#[derive(Debug)]
pub struct CouplingMap {
    num_qubits: usize,
    edges: Vec<(usize, usize)>,
}

impl View for CouplingMap {
    type V = Graph;

    closed spec fn view(&self) -> Graph {
        Graph { size: self.num_qubits as nat, edges: self.edges@.to_set() }
    }
}

/// Whether an edge of a given list can stand in a map of `num_qubits` qubits.
pub open spec fn edge_ok(num_qubits: usize, e: (usize, usize)) -> bool {
    e.0 != e.1 && e.0 < num_qubits && e.1 < num_qubits
}

/// What is said of an edge that cannot.
pub open spec fn edge_error(num_qubits: usize, e: (usize, usize)) -> Seq<char> {
    if e.0 == e.1 {
        "CouplingMap::from_edges: self-loop at qubit "@ + decimal(e.0 as nat)
            + " is not a valid coupling edge"@
    } else {
        "CouplingMap::from_edges: edge ("@ + decimal(e.0 as nat) + ", "@ + decimal(e.1 as nat)
            + ") references a qubit index >= num_qubits ("@ + decimal(num_qubits as nat) + ")"@
    }
}

/// The edges of a list, each with its smaller endpoint first.
pub open spec fn edge_set(list: Seq<(usize, usize)>) -> Set<(usize, usize)> {
    Set::new(
        |e: (usize, usize)|
            exists|i: int| 0 <= i < list.len() && e == normalized((#[trigger] list[i]).0, list[i].1),
    )
}

proof fn lemma_edge_set_push(list: Seq<(usize, usize)>, e: (usize, usize))
    ensures
        edge_set(list.push(e)) == edge_set(list).insert(normalized(e.0, e.1)),
{
    let next = list.push(e);
    assert forall|x: (usize, usize)|
        edge_set(next).contains(x) == (edge_set(list).contains(x) || x == normalized(e.0, e.1)) by {
        if edge_set(list).contains(x) {
            let k = choose|k: int|
                0 <= k < list.len() && x == normalized((#[trigger] list[k]).0, list[k].1);
            assert(next[k] == list[k]);
        }
        if x == normalized(e.0, e.1) {
            assert(next[list.len() as int] == e);
        }
        if edge_set(next).contains(x) {
            let k = choose|k: int|
                0 <= k < next.len() && x == normalized((#[trigger] next[k]).0, next[k].1);
            if k < list.len() {
                assert(list[k] == next[k]);
            }
        }
    }
    assert(edge_set(next) =~= edge_set(list).insert(normalized(e.0, e.1)));
}

/// The first position of an ascending list whose pair is not below `e`.
fn position(edges: &Vec<(usize, usize)>, e: (usize, usize)) -> (r: usize)
    requires
        ascending(edges@),
    ensures
        r <= edges.len(),
        forall|i: int| 0 <= i < r ==> pair_less(#[trigger] edges@[i], e),
        forall|i: int| r <= i < edges.len() ==> !pair_less(#[trigger] edges@[i], e),
{
    let mut lo: usize = 0;
    let mut hi: usize = edges.len();
    while lo < hi
        invariant
            ascending(edges@),
            lo <= hi <= edges.len(),
            forall|i: int| 0 <= i < lo ==> pair_less(#[trigger] edges@[i], e),
            forall|i: int| hi <= i < edges.len() ==> !pair_less(#[trigger] edges@[i], e),
        decreases hi - lo,
    {
        let mid: usize = lo + (hi - lo) / 2;
        let x = edges[mid];
        if x.0 < e.0 || (x.0 == e.0 && x.1 < e.1) {
            lo = mid + 1;
        } else {
            hi = mid;
        }
    }
    lo
}

/// Adds a pair to an ascending list, unless it is there.
fn insert_pair(edges: &mut Vec<(usize, usize)>, e: (usize, usize))
    requires
        ascending(old(edges)@),
    ensures
        ascending(final(edges)@),
        final(edges)@.to_set() == old(edges)@.to_set().insert(e),
{
    let at = position(edges, e);
    if at < edges.len() && edges[at].0 == e.0 && edges[at].1 == e.1 {
        assert(edges@.to_set() =~= edges@.to_set().insert(e)) by {
            assert(edges@[at as int] == e);
        }
    } else {
        let ghost before = edges@;
        edges.insert(at, e);
        assert(edges@ =~= before.insert(at as int, e));
        assert(edges@.to_set() =~= before.to_set().insert(e)) by {
            assert forall|x: (usize, usize)| before.contains(x) || x == e implies edges@.contains(x) by {
                if x == e {
                    assert(edges@[at as int] == e);
                } else {
                    let i = choose|i: int| 0 <= i < before.len() && before[i] == x;
                    if i < at {
                        assert(edges@[i] == x);
                    } else {
                        assert(edges@[i + 1] == x);
                    }
                }
            }
            assert forall|x: (usize, usize)| edges@.contains(x) implies before.contains(x) || x == e by {
                let i = choose|i: int| 0 <= i < edges@.len() && edges@[i] == x;
                if i < at {
                    assert(before[i] == x);
                } else if i > at {
                    assert(before[i - 1] == x);
                }
            }
        }
    }
}

impl CouplingMap {
    /// Edges ascend and join different qubits of the map.
    #[verifier::type_invariant]
    spec fn inv(self) -> bool {
        &&& ascending(self.edges@)
        &&& forall|i: int|
            0 <= i < self.edges.len() ==> (#[trigger] self.edges@[i]).0 < self.edges@[i].1
                < self.num_qubits
    }

    proof fn lemma_wf(self)
        requires
            self.inv(),
        ensures
            self@.wf(),
    {
        assert forall|a: usize, b: usize| #[trigger] self@.edges.contains((a, b)) implies a < b
            < self@.size by {
            let i = choose|i: int| 0 <= i < self.edges@.len() && self.edges@[i] == (a, b);
            assert(self.edges@[i].0 < self.edges@[i].1);
        }
    }

    /// A nearest-neighbor chain: qubit `q` is adjacent to `q + 1` only.
    pub fn linear(num_qubits: usize) -> (r: Self)
        ensures
            r@.size == num_qubits,
            forall|a: usize, b: usize|
                #[trigger] r@.edges.contains((a, b)) <==> b == a + 1 && b < num_qubits,
    {
        let mut edges: Vec<(usize, usize)> = Vec::new();
        let mut q: usize = 0;
        while q + 1 < num_qubits
            invariant
                edges.len() == q,
                q <= num_qubits,
                q > 0 ==> q < num_qubits,
                forall|i: int| 0 <= i < q ==> #[trigger] edges@[i] == (i as usize, (i + 1) as usize),
            decreases num_qubits - q,
        {
            edges.push((q, q + 1));
            q = q + 1;
        }
        proof {
            assert forall|a: usize, b: usize| b == a + 1 && b < num_qubits implies edges@.contains(
                (a, b),
            ) by {
                assert(edges@[a as int] == (a, b));
            }
        }
        CouplingMap { num_qubits, edges }
    }

    /// The number of physical qubits in this map.
    pub fn num_qubits(&self) -> (r: usize)
        ensures
            r == self@.size,
            self@.wf(),
    {
        proof {
            use_type_invariant(self);
            self.lemma_wf();
        }
        self.num_qubits
    }

    /// The map that has exactly the given edges, none of which is faulty.
    fn collect(num_qubits: usize, edges: &Vec<(usize, usize)>) -> (r: Self)
        requires
            forall|i: int| 0 <= i < edges.len() ==> edge_ok(num_qubits, #[trigger] edges@[i]),
        ensures
            r@ == (Graph { size: num_qubits as nat, edges: edge_set(edges@) }),
    {
        let mut list: Vec<(usize, usize)> = Vec::new();
        let mut i: usize = 0;
        assert(list@.to_set() =~= edge_set(edges@.take(0)));
        while i < edges.len()
            invariant
                0 <= i <= edges.len(),
                ascending(list@),
                list@.to_set() == edge_set(edges@.take(i as int)),
                forall|j: int| 0 <= j < edges.len() ==> edge_ok(num_qubits, #[trigger] edges@[j]),
                forall|j: int|
                    0 <= j < list.len() ==> (#[trigger] list@[j]).0 < list@[j].1 < num_qubits,
            decreases edges.len() - i,
        {
            let (a, b) = edges[i];
            assert(edge_ok(num_qubits, edges@[i as int]));
            let e = if a < b { (a, b) } else { (b, a) };
            let ghost before = list@;
            insert_pair(&mut list, e);
            proof {
                assert forall|j: int| 0 <= j < list.len() implies (#[trigger] list@[j]).0
                    < list@[j].1 < num_qubits by {
                    assert(list@.to_set().contains(list@[j]));
                    if list@[j] != e {
                        assert(before.to_set().contains(list@[j]));
                    }
                }
                lemma_edge_set_push(edges@.take(i as int), edges@[i as int]);
                assert(edges@.take(i as int).push(edges@[i as int]) =~= edges@.take(i + 1));
            }
            i = i + 1;
        }
        assert(edges@.take(i as int) =~= edges@);
        CouplingMap { num_qubits, edges: list }
    }

    /// The map that has exactly the given edges. Edges may be given in
    /// either direction and may repeat. The first edge that is a self-loop
    /// or names a qubit outside the map is reported.
    pub fn from_edges(num_qubits: usize, edges: Vec<(usize, usize)>) -> (r: Result<Self, String>)
        ensures
            match r {
                Ok(map) => {
                    &&& forall|i: int| 0 <= i < edges.len() ==> edge_ok(num_qubits, #[trigger] edges@[i])
                    &&& map@ == (Graph { size: num_qubits as nat, edges: edge_set(edges@) })
                },
                Err(text) => exists|i: int|
                    {
                        &&& 0 <= i < edges.len()
                        &&& !edge_ok(num_qubits, #[trigger] edges@[i])
                        &&& forall|j: int| 0 <= j < i ==> edge_ok(num_qubits, #[trigger] edges@[j])
                        &&& text@ == edge_error(num_qubits, edges@[i])
                    },
            },
    {
        let mut i: usize = 0;
        while i < edges.len()
            invariant
                0 <= i <= edges.len(),
                forall|j: int| 0 <= j < i ==> edge_ok(num_qubits, #[trigger] edges@[j]),
            decreases edges.len() - i,
        {
            let (a, b) = edges[i];
            if a == b {
                let mut text = String::from_str("CouplingMap::from_edges: self-loop at qubit ");
                push_decimal(&mut text, a as u128);
                text.append(" is not a valid coupling edge");
                assert(edges@[i as int] == (a, b));
                return Err(text);
            }
            if a >= num_qubits || b >= num_qubits {
                let mut text = String::from_str("CouplingMap::from_edges: edge (");
                push_decimal(&mut text, a as u128);
                text.append(", ");
                push_decimal(&mut text, b as u128);
                text.append(") references a qubit index >= num_qubits (");
                push_decimal(&mut text, num_qubits as u128);
                text.append(")");
                assert(edges@[i as int] == (a, b));
                return Err(text);
            }
            i = i + 1;
        }
        Ok(Self::collect(num_qubits, &edges))
    }

    /// Whether two physical qubits are coupled.
    pub fn is_adjacent(&self, a: usize, b: usize) -> (r: bool)
        ensures
            r == self@.adjacent(a, b),
    {
        proof {
            use_type_invariant(self);
        }
        let key = if a < b { (a, b) } else { (b, a) };
        let at = position(&self.edges, key);
        let found = at < self.edges.len() && self.edges[at].0 == key.0
            && self.edges[at].1 == key.1;
        proof {
            if found {
                assert(self.edges@[at as int] == key);
            } else if self.edges@.contains(key) {
                let i = choose|i: int| 0 <= i < self.edges@.len() && self.edges@[i] == key;
                assert(!pair_less(self.edges@[i], key));
                if at < i {
                    assert(pair_less(self.edges@[at as int], self.edges@[i]));
                }
            }
        }
        found
    }

    /// The physical qubits coupled to `q`, in ascending order.
    pub fn neighbors(&self, q: usize) -> (r: Vec<usize>)
        ensures
            forall|i: int, j: int| 0 <= i < j < r.len() ==> #[trigger] r@[i] < #[trigger] r@[j],
            forall|b: usize| #[trigger] r@.contains(b) <==> self@.adjacent(q, b),
            forall|i: int| 0 <= i < r.len() ==> #[trigger] r@[i] < self@.size,
    {
        proof {
            use_type_invariant(self);
        }
        let mut out: Vec<usize> = Vec::new();
        let mut i: usize = 0;
        let ghost edges = self.edges@;
        while i < self.edges.len()
            invariant
                edges == self.edges@,
                ascending(edges),
                forall|k: int|
                    0 <= k < edges.len() ==> (#[trigger] edges[k]).0 < edges[k].1 < self.num_qubits,
                0 <= i <= edges.len(),
                forall|x: int, y: int|
                    0 <= x < y < out.len() ==> #[trigger] out@[x] < #[trigger] out@[y],
                forall|x: int|
                    0 <= x < out.len() ==> edges.take(i as int).contains(
                        normalized(q, #[trigger] out@[x]),
                    ) && out@[x] < self.num_qubits && out@[x] != q,
                forall|b: usize|
                    edges.take(i as int).contains(#[trigger] normalized(q, b)) ==> out@.contains(b),
            decreases edges.len() - i,
        {
            let (a, b) = self.edges[i];
            let ghost before = out@;
            let ghost prior = edges.take(i as int);
            let ghost next = edges.take(i + 1);
            proof {
                assert(next =~= prior.push(edges[i as int]));
                assert forall|x: int| 0 <= x < before.len() implies {
                    ||| before[x] < q && (a != q || b > before[x]) && (b == q ==> before[x] < a)
                    ||| before[x] > q && a >= q && (a == q ==> before[x] < b)
                } by {
                    let k = choose|k: int| 0 <= k < prior.len() && prior[k] == normalized(q, before[x]);
                    assert(pair_less(edges[k], edges[i as int]));
                }
            }
            if a == q {
                out.push(b);
            } else if b == q {
                out.push(a);
            }
            proof {
                assert(next[i as int] == (a, b));
                assert forall|x: int| 0 <= x < out.len() implies next.contains(
                    normalized(q, #[trigger] out@[x]),
                ) by {
                    if x < before.len() {
                        let k = choose|k: int|
                            0 <= k < prior.len() && prior[k] == normalized(q, before[x]);
                        assert(next[k] == prior[k]);
                    }
                }
                assert forall|c: usize| next.contains(#[trigger] normalized(q, c)) implies out@.contains(
                    c,
                ) by {
                    let k = choose|k: int| 0 <= k < next.len() && next[k] == normalized(q, c);
                    if k < i {
                        assert(prior[k] == next[k]);
                        assert(before.contains(c));
                        let m = choose|m: int| 0 <= m < before.len() && before[m] == c;
                        assert(out@[m] == c);
                    } else {
                        assert(normalized(q, c) == (a, b));
                        assert(out@[out.len() - 1] == c);
                    }
                }
            }
            i = i + 1;
        }
        proof {
            assert(edges.take(i as int) =~= edges);
            assert forall|b: usize| #[trigger] out@.contains(b) <==> self@.adjacent(q, b) by {
                if out@.contains(b) {
                    let x = choose|x: int| 0 <= x < out@.len() && out@[x] == b;
                    assert(edges.contains(normalized(q, out@[x])));
                }
                if self@.adjacent(q, b) {
                    assert(edges.contains(normalized(q, b)));
                }
            }
        }
        out
    }
}


impl Clone for CouplingMap {
    fn clone(&self) -> (r: Self)
        ensures
            r@ == self@,
    {
        proof {
            use_type_invariant(self);
        }
        let mut edges: Vec<(usize, usize)> = Vec::new();
        let mut i: usize = 0;
        while i < self.edges.len()
            invariant
                0 <= i <= self.edges.len(),
                edges@ == self.edges@.take(i as int),
            decreases self.edges.len() - i,
        {
            edges.push(self.edges[i]);
            i = i + 1;
        }
        assert(edges@ =~= self.edges@);
        CouplingMap { num_qubits: self.num_qubits, edges }
    }
}

/// What a breadth-first search from `start` knows when `head` of the
/// discovered qubits have been expanded. `paths[i]` is the path along which
/// `order[i]` was found.
#[verifier::opaque]
spec fn search_inv(
    g: Graph,
    start: usize,
    order: Seq<usize>,
    paths: Seq<Seq<usize>>,
    visited: Seq<bool>,
    predecessor: Seq<usize>,
) -> bool {
    &&& order.len() == paths.len()
    &&& order.len() > 0
    &&& order[0] == start
    &&& visited.len() == g.size
    &&& predecessor.len() == g.size
    &&& forall|i: int| 0 <= i < order.len() ==> (#[trigger] order[i]) < g.size && visited[order[i] as int]
    &&& forall|v: usize| v < g.size && #[trigger] visited[v as int] ==> order.contains(v)
    &&& forall|i: int| 0 <= i < order.len() ==> g.is_path(#[trigger] paths[i], start, order[i])
    &&& forall|i: int, j: int|
        0 <= i < j < order.len() ==> shortlex_less(#[trigger] paths[i], #[trigger] paths[j])
    &&& forall|i: int, k: int|
        0 <= i < order.len() && 1 <= k < paths[i].len() ==> {
            &&& (#[trigger] paths[i][k]) != start
            &&& paths[i][k] < g.size
            &&& visited[paths[i][k] as int]
            &&& predecessor[paths[i][k] as int] == paths[i][k - 1]
        }
}

/// The neighbors of the first `head` qubits are all known, each by a path
/// no later than the one through that qubit.
#[verifier::opaque]
spec fn expanded(g: Graph, order: Seq<usize>, paths: Seq<Seq<usize>>, head: int) -> bool {
    forall|i: int, b: usize|
        0 <= i < head && #[trigger] g.adjacent(order[i], b) ==> exists|j: int|
            0 <= j < order.len() && #[trigger] order[j] == b && shortlex_at_most(
                paths[j],
                paths[i].push(b),
            )
}

/// Every path from `start` leads to a qubit whose discovery path is no
/// later, or has a prefix that leads to an unexpanded one.
proof fn lemma_search_covers(
    g: Graph,
    start: usize,
    order: Seq<usize>,
    paths: Seq<Seq<usize>>,
    visited: Seq<bool>,
    predecessor: Seq<usize>,
    head: int,
    p: Seq<usize>,
    to: usize,
)
    requires
        search_inv(g, start, order, paths, visited, predecessor),
        expanded(g, order, paths, head),
        0 <= head <= order.len(),
        g.is_path(p, start, to),
        paths[0] == seq![start],
    ensures
        exists|j: int|
            0 <= j < order.len() && #[trigger] shortlex_at_most(paths[j], p) && (order[j] == to || j
                >= head),
    decreases p.len(),
{
    reveal(search_inv);
    reveal(expanded);
    if p.len() == 1 {
        assert(p =~= paths[0]);
        assert(shortlex_at_most(paths[0], p));
    } else {
        let front = p.drop_last();
        assert forall|i: int| 1 <= i < front.len() implies #[trigger] g.linked(front, i) by {
            assert(g.linked(p, i));
        }
        lemma_search_covers(g, start, order, paths, visited, predecessor, head, front, front.last());
        let j = choose|j: int|
            0 <= j < order.len() && #[trigger] shortlex_at_most(paths[j], front) && (order[j]
                == front.last() || j >= head);
        assert(shortlex_less(front, p));
        if j >= head {
            lemma_shortlex_transitive(paths[j], front, p);
            assert(shortlex_at_most(paths[j], p));
        } else {
            assert(g.linked(p, p.len() - 1));
            assert(g.adjacent(order[j], to));
            let m = choose|m: int|
                0 <= m < order.len() && #[trigger] order[m] == to && shortlex_at_most(
                    paths[m],
                    paths[j].push(to),
                );
            lemma_shortlex_push(paths[j], front, to, to);
            assert(front.push(to) =~= p);
            lemma_shortlex_transitive(paths[m], paths[j].push(to), p);
            assert(shortlex_at_most(paths[m], p));
        }
    }
}

/// Distinct numbers below `n` are at most `n` many.
pub proof fn lemma_distinct_below(s: Seq<usize>, n: nat)
    requires
        s.no_duplicates(),
        forall|i: int| 0 <= i < s.len() ==> #[trigger] s[i] < n,
    ensures
        s.len() <= n,
    decreases n,
{
    if n == 0 {
        if s.len() > 0 {
            assert(s[0] < n);
        }
    } else {
        let top = (n - 1) as usize;
        if exists|i: int| 0 <= i < s.len() && s[i] == top {
            let i = choose|i: int| 0 <= i < s.len() && s[i] == top;
            let rest = s.remove(i);
            assert forall|j: int| 0 <= j < rest.len() implies #[trigger] rest[j] < n - 1 by {
                if j < i {
                    assert(rest[j] == s[j]);
                } else {
                    assert(rest[j] == s[j + 1]);
                }
            }
            assert(rest.no_duplicates());
            lemma_distinct_below(rest, (n - 1) as nat);
        } else {
            lemma_distinct_below(s, (n - 1) as nat);
        }
    }
}

proof fn lemma_room(order: Seq<usize>, next: usize, size: nat)
    requires
        order.no_duplicates(),
        !order.contains(next),
        next < size,
        forall|i: int| 0 <= i < order.len() ==> #[trigger] order[i] < size,
    ensures
        order.len() < size,
        order.push(next).no_duplicates(),
{
    let more = order.push(next);
    assert forall|i: int| 0 <= i < more.len() implies #[trigger] more[i] < size by {
        if i < order.len() {
            assert(more[i] == order[i]);
        }
    }
    assert(more.no_duplicates()) by {
        assert forall|i: int, j: int| 0 <= i < more.len() && 0 <= j < more.len() && i != j implies more[i]
            != more[j] by {
            if i < order.len() {
                assert(order.contains(order[i]));
            }
            if j < order.len() {
                assert(order.contains(order[j]));
            }
        }
    }
    lemma_distinct_below(more, size);
}

/// Each known path continues that of one of the first `head` qubits.
#[verifier::opaque]
spec fn came_from(paths: Seq<Seq<usize>>, head: int) -> bool {
    forall|i: int|
        0 <= i < paths.len() && paths[i].len() >= 2 ==> exists|k: int|
            0 <= k < head && (#[trigger] paths[i]).drop_last() == #[trigger] paths[k]
}

/// Where each known path comes from: from an expanded qubit, or from the one
/// under expansion by one of its first `n` neighbors.
#[verifier::opaque]
spec fn parents(paths: Seq<Seq<usize>>, head: int, near: Seq<usize>, n: int) -> bool {
    &&& forall|i: int|
        0 <= i < paths.len() && paths[i].len() >= 2 ==> exists|k: int|
            0 <= k <= head && (#[trigger] paths[i]).drop_last() == #[trigger] paths[k]
    &&& forall|i: int|
        0 <= i < paths.len() && paths[i].drop_last() == paths[head] && paths[i].len() >= 2 ==> exists|
            k: int,
        |
            0 <= k < n && (#[trigger] paths[i]).last() == #[trigger] near[k]
}

proof fn lemma_parents_step(paths: Seq<Seq<usize>>, head: int, near: Seq<usize>, n: int)
    requires
        parents(paths, head, near, n),
    ensures
        parents(paths, head, near, n + 1),
{
    reveal(parents);
    assert forall|i: int|
        0 <= i < paths.len() && paths[i].drop_last() == paths[head] && paths[i].len()
            >= 2 implies exists|k: int|
        0 <= k < n + 1 && (#[trigger] paths[i]).last() == #[trigger] near[k] by {
        let k = choose|k: int| 0 <= k < n && paths[i].last() == #[trigger] near[k];
        assert(near[k] == paths[i].last());
    }
}

proof fn lemma_parents_grow(paths: Seq<Seq<usize>>, head: int, near: Seq<usize>, n: int)
    requires
        parents(paths, head, near, n),
        0 <= head < paths.len(),
        0 <= n < near.len(),
    ensures
        parents(paths.push(paths[head].push(near[n])), head, near, n + 1),
{
    reveal(parents);
    let paths1 = paths.push(paths[head].push(near[n]));
    assert forall|i: int| 0 <= i < paths1.len() && paths1[i].len() >= 2 implies exists|k: int|
        0 <= k <= head && (#[trigger] paths1[i]).drop_last() == #[trigger] paths1[k] by {
        if i < paths.len() {
            assert(paths1[i] == paths[i]);
            let k = choose|k: int| 0 <= k <= head && paths[i].drop_last() == #[trigger] paths[k];
            assert(paths1[k] == paths[k]);
        } else {
            assert(paths1[i].drop_last() =~= paths1[head]);
        }
    }
    assert forall|i: int|
        0 <= i < paths1.len() && paths1[i].drop_last() == paths1[head] && paths1[i].len()
            >= 2 implies exists|k: int|
        0 <= k < n + 1 && (#[trigger] paths1[i]).last() == #[trigger] near[k] by {
        if i < paths.len() {
            assert(paths1[i] == paths[i]);
            assert(paths1[head] == paths[head]);
            let k = choose|k: int| 0 <= k < n && paths[i].last() == #[trigger] near[k];
            assert(near[k] == paths1[i].last());
        } else {
            assert(near[n] == paths1[i].last());
        }
    }
}

/// Before the neighbors of `paths[head]` are looked at, none continues it.
proof fn lemma_parents_start(paths: Seq<Seq<usize>>, head: int, near: Seq<usize>)
    requires
        came_from(paths, head),
        0 <= head < paths.len(),
        forall|x: int, y: int|
            0 <= x < y < paths.len() ==> shortlex_less(#[trigger] paths[x], #[trigger] paths[y]),
    ensures
        parents(paths, head, near, 0),
{
    reveal(parents);
    reveal(came_from);
    assert forall|i: int| 0 <= i < paths.len() && paths[i].len() >= 2 implies exists|k: int|
        0 <= k <= head && (#[trigger] paths[i]).drop_last() == #[trigger] paths[k] by {
        let k = choose|k: int| 0 <= k < head && paths[i].drop_last() == #[trigger] paths[k];
        assert(paths[k] == paths[i].drop_last());
    }
    assert forall|i: int|
        0 <= i < paths.len() && paths[i].drop_last() == paths[head] && paths[i].len()
            >= 2 implies exists|k: int| 0 <= k < 0 && (#[trigger] paths[i]).last() == #[trigger] near[k] by {
        let k = choose|k: int| 0 <= k < head && paths[i].drop_last() == #[trigger] paths[k];
        assert(shortlex_less(paths[k], paths[head]));
    }
}

/// Compares a known path with the one that continues `paths[head]`.
proof fn lemma_path_against_extension(
    paths: Seq<Seq<usize>>,
    head: int,
    near: Seq<usize>,
    n: int,
    i: int,
)
    requires
        parents(paths, head, near, n),
        0 <= head < paths.len(),
        0 <= i < paths.len(),
        0 <= n < near.len(),
        forall|x: int, y: int| 0 <= x < y < near.len() ==> #[trigger] near[x] < #[trigger] near[y],
        forall|x: int, y: int|
            0 <= x < y < paths.len() ==> shortlex_less(#[trigger] paths[x], #[trigger] paths[y]),
        forall|x: int| 0 <= x < paths.len() ==> (#[trigger] paths[x]).len() > 0,
    ensures
        shortlex_less(paths[i], paths[head].push(near[n])),
{
    reveal(parents);
    let path = paths[head].push(near[n]);
    if paths[i].len() >= 2 {
        let k = choose|k: int| 0 <= k <= head && paths[i].drop_last() == #[trigger] paths[k];
        assert(paths[i] =~= paths[k].push(paths[i].last()));
        if k < head {
            assert(shortlex_less(paths[k], paths[head]));
            lemma_shortlex_push(paths[k], paths[head], paths[i].last(), near[n]);
        } else {
            let m = choose|m: int| 0 <= m < n && paths[i].last() == #[trigger] near[m];
            lemma_shortlex_push(paths[head], paths[head], near[m], near[n]);
        }
    }
}

/// The search state after `next` was found from `order[head]`.
#[verifier::rlimit(40)]
proof fn lemma_new_discovery(
    g: Graph,
    start: usize,
    order: Seq<usize>,
    paths: Seq<Seq<usize>>,
    visited: Seq<bool>,
    predecessor: Seq<usize>,
    head: int,
    next: usize,
    near: Seq<usize>,
    n: int,
)
    requires
        search_inv(g, start, order, paths, visited, predecessor),
        expanded(g, order, paths, head),
        parents(paths, head, near, n),
        0 <= head < order.len(),
        0 <= n < near.len(),
        near[n] == next,
        next < g.size,
        g.adjacent(order[head], next),
        !visited[next as int],
        forall|x: int, y: int| 0 <= x < y < near.len() ==> #[trigger] near[x] < #[trigger] near[y],
    ensures
        search_inv(
            g,
            start,
            order.push(next),
            paths.push(paths[head].push(next)),
            visited.update(next as int, true),
            predecessor.update(next as int, order[head]),
        ),
        expanded(g, order.push(next), paths.push(paths[head].push(next)), head),
{
    reveal(search_inv);
    reveal(expanded);
    let path = paths[head].push(next);
    let order1 = order.push(next);
    let paths1 = paths.push(path);
    let visited1 = visited.update(next as int, true);
    let predecessor1 = predecessor.update(next as int, order[head]);
    assert(g.is_path(paths[head], start, order[head]));
    assert(g.is_path(path, start, next)) by {
        assert forall|i: int| 1 <= i < path.len() implies #[trigger] g.linked(path, i) by {
            if i < paths[head].len() {
                assert(g.linked(paths[head], i));
            }
        }
    }
    assert forall|i: int| 0 <= i < order1.len() implies (#[trigger] order1[i]) < g.size
        && visited1[order1[i] as int] by {
        if i < order.len() {
            assert(order1[i] == order[i]);
        }
    }
    assert forall|v: usize| v < g.size && #[trigger] visited1[v as int] implies order1.contains(v) by {
        if v == next {
            assert(order1[order.len() as int] == v);
        } else {
            assert(visited[v as int]);
            let i = choose|i: int| 0 <= i < order.len() && order[i] == v;
            assert(order1[i] == v);
        }
    }
    assert forall|i: int| 0 <= i < order1.len() implies g.is_path(
        #[trigger] paths1[i],
        start,
        order1[i],
    ) by {
        if i < order.len() {
            assert(g.is_path(paths[i], start, order[i]));
        }
    }
    assert forall|i: int, j: int| 0 <= i < j < order1.len() implies shortlex_less(
        #[trigger] paths1[i],
        #[trigger] paths1[j],
    ) by {
        if j < order.len() {
            assert(shortlex_less(paths[i], paths[j]));
        } else {
            assert forall|x: int| 0 <= x < paths.len() implies (#[trigger] paths[x]).len() > 0 by {
                assert(g.is_path(paths[x], start, order[x]));
            }
            lemma_path_against_extension(paths, head, near, n, i);
        }
    }
    assert forall|i: int, k: int| 0 <= i < order1.len() && 1 <= k < paths1[i].len() implies {
        &&& (#[trigger] paths1[i][k]) != start
        &&& paths1[i][k] < g.size
        &&& visited1[paths1[i][k] as int]
        &&& predecessor1[paths1[i][k] as int] == paths1[i][k - 1]
    } by {
        assert(visited[order[0] as int]);
        if i < order.len() {
            assert(paths1[i] == paths[i]);
            assert(paths[i][k] != start);
        } else if k < paths[head].len() {
            assert(paths1[i][k] == paths[head][k]);
            assert(paths[head][k] != start);
        }
    }
    assert forall|i: int, b: usize| 0 <= i < head && #[trigger] g.adjacent(order1[i], b) implies exists|
        j: int,
    |
        0 <= j < order1.len() && #[trigger] order1[j] == b && shortlex_at_most(
            paths1[j],
            paths1[i].push(b),
        ) by {
        assert(g.adjacent(order[i], b));
        let j = choose|j: int|
            0 <= j < order.len() && #[trigger] order[j] == b && shortlex_at_most(
                paths[j],
                paths[i].push(b),
            );
        assert(order1[j] == b);
        assert(paths1[j] == paths[j]);
        assert(paths1[i] == paths[i]);
    }
}

/// A qubit that is known already was found by a path no later than the one
/// through `order[head]`.
proof fn lemma_known_is_no_later(
    g: Graph,
    start: usize,
    order: Seq<usize>,
    paths: Seq<Seq<usize>>,
    visited: Seq<bool>,
    predecessor: Seq<usize>,
    head: int,
    next: usize,
    j: int,
    near: Seq<usize>,
    n: int,
)
    requires
        search_inv(g, start, order, paths, visited, predecessor),
        parents(paths, head, near, n),
        0 <= head < order.len(),
        0 <= n < near.len(),
        near[n] == next,
        0 <= j < order.len(),
        order[j] == next,
        forall|x: int, y: int| 0 <= x < y < near.len() ==> #[trigger] near[x] < #[trigger] near[y],
    ensures
        shortlex_at_most(paths[j], paths[head].push(next)),
{
    reveal(search_inv);
    assert forall|x: int| 0 <= x < paths.len() implies (#[trigger] paths[x]).len() > 0 by {
        assert(g.is_path(paths[x], start, order[x]));
    }
    lemma_path_against_extension(paths, head, near, n, j);
}

/// The first `n` neighbors of `order[head]` are known, each by a path no
/// later than the one through it.
#[verifier::opaque]
spec fn covered(
    order: Seq<usize>,
    paths: Seq<Seq<usize>>,
    head: int,
    near: Seq<usize>,
    n: int,
) -> bool {
    forall|i: int|
        0 <= i < n ==> exists|j: int|
            0 <= j < order.len() && #[trigger] order[j] == #[trigger] near[i] && shortlex_at_most(
                paths[j],
                paths[head].push(near[i]),
            )
}

proof fn lemma_covered_step(
    order: Seq<usize>,
    paths: Seq<Seq<usize>>,
    head: int,
    near: Seq<usize>,
    n: int,
    j: int,
)
    requires
        covered(order, paths, head, near, n),
        0 <= j < order.len(),
        order[j] == near[n],
        shortlex_at_most(paths[j], paths[head].push(near[n])),
    ensures
        covered(order, paths, head, near, n + 1),
{
    reveal(covered);
    assert forall|i: int| 0 <= i < n + 1 implies exists|k: int|
        0 <= k < order.len() && #[trigger] order[k] == #[trigger] near[i] && shortlex_at_most(
            paths[k],
            paths[head].push(near[i]),
        ) by {
        if i == n {
            assert(order[j] == near[i]);
        }
    }
}

proof fn lemma_covered_grow(
    order: Seq<usize>,
    paths: Seq<Seq<usize>>,
    head: int,
    near: Seq<usize>,
    n: int,
)
    requires
        covered(order, paths, head, near, n),
        order.len() == paths.len(),
        0 <= head < order.len(),
        0 <= n < near.len(),
    ensures
        covered(order.push(near[n]), paths.push(paths[head].push(near[n])), head, near, n + 1),
{
    reveal(covered);
    let order1 = order.push(near[n]);
    let paths1 = paths.push(paths[head].push(near[n]));
    assert forall|i: int| 0 <= i < n + 1 implies exists|j: int|
        0 <= j < order1.len() && #[trigger] order1[j] == #[trigger] near[i] && shortlex_at_most(
            paths1[j],
            paths1[head].push(near[i]),
        ) by {
        assert(paths1[head] == paths[head]);
        if i < n {
            let j = choose|j: int|
                0 <= j < order.len() && #[trigger] order[j] == near[i] && shortlex_at_most(
                    paths[j],
                    paths[head].push(near[i]),
                );
            assert(order1[j] == near[i]);
            assert(paths1[j] == paths[j]);
        } else {
            assert(order1[order.len() as int] == near[i]);
        }
    }
}

proof fn lemma_covered_finish(
    g: Graph,
    order: Seq<usize>,
    paths: Seq<Seq<usize>>,
    head: int,
    near: Seq<usize>,
)
    requires
        expanded(g, order, paths, head),
        covered(order, paths, head, near, near.len() as int),
        0 <= head < order.len(),
        parents(paths, head, near, near.len() as int),
        forall|b: usize| #[trigger] near.contains(b) <==> g.adjacent(order[head], b),
    ensures
        expanded(g, order, paths, head + 1),
        came_from(paths, head + 1),
{
    reveal(expanded);
    reveal(covered);
    reveal(parents);
    reveal(came_from);
    assert forall|i: int, b: usize| 0 <= i < head + 1 && #[trigger] g.adjacent(order[i], b) implies exists|
        j: int,
    |
        0 <= j < order.len() && #[trigger] order[j] == b && shortlex_at_most(
            paths[j],
            paths[i].push(b),
        ) by {
        if i == head {
            assert(near.contains(b));
            let k = choose|k: int| 0 <= k < near.len() && near[k] == b;
            assert(near[k] == b);
        }
    }
    assert forall|i: int| 0 <= i < paths.len() && paths[i].len() >= 2 implies exists|k: int|
        0 <= k < head + 1 && (#[trigger] paths[i]).drop_last() == #[trigger] paths[k] by {
        let k = choose|k: int| 0 <= k <= head && paths[i].drop_last() == #[trigger] paths[k];
        assert(paths[k] == paths[i].drop_last());
    }
}

/// What the search state says of one qubit.
proof fn lemma_search_facts(
    g: Graph,
    start: usize,
    order: Seq<usize>,
    paths: Seq<Seq<usize>>,
    visited: Seq<bool>,
    predecessor: Seq<usize>,
)
    requires
        search_inv(g, start, order, paths, visited, predecessor),
    ensures
        order.len() == paths.len(),
        visited.len() == g.size,
        predecessor.len() == g.size,
        forall|i: int| 0 <= i < order.len() ==> #[trigger] order[i] < g.size,
        forall|v: usize| v < g.size ==> #[trigger] visited[v as int] == order.contains(v),
        forall|x: int, y: int|
            0 <= x < y < paths.len() ==> shortlex_less(#[trigger] paths[x], #[trigger] paths[y]),
{
    reveal(search_inv);
}

proof fn lemma_search_start(g: Graph, start: usize, visited: Seq<bool>, predecessor: Seq<usize>)
    requires
        start < g.size,
        visited.len() == g.size,
        predecessor.len() == g.size,
        forall|v: int| 0 <= v < g.size ==> #[trigger] visited[v] == (v == start),
    ensures
        search_inv(g, start, seq![start], seq![seq![start]], visited, predecessor),
        expanded(g, seq![start], seq![seq![start]], 0),
        came_from(seq![seq![start]], 0),
{
    reveal(search_inv);
    reveal(expanded);
    reveal(came_from);
    assert(seq![start][0] == start);
}

/// The elements of a list, last first.
fn reversed(v: &Vec<usize>) -> (r: Vec<usize>)
    ensures
        r@ == v@.reverse(),
{
    let mut out: Vec<usize> = Vec::new();
    let mut i: usize = v.len();
    while i > 0
        invariant
            i <= v.len(),
            out.len() == v.len() - i,
            forall|k: int| 0 <= k < out.len() ==> #[trigger] out@[k] == v@[v.len() - 1 - k],
        decreases i,
    {
        i = i - 1;
        out.push(v[i]);
    }
    out
}

impl CouplingMap {
    /// A shortest path between two physical qubits, both included, or
    /// `None` where there is no path. Among the shortest paths it is the
    /// lexicographically smallest.
    #[verifier::rlimit(60)]
    pub fn shortest_path(&self, start: usize, goal: usize) -> (r: Option<Vec<usize>>)
        requires
            start == goal || (start < self@.size && goal < self@.size),
        ensures
            match r {
                Some(path) => {
                    &&& self@.is_path(path@, start, goal)
                    &&& forall|p: Seq<usize>|
                        #[trigger] self@.is_path(p, start, goal) ==> shortlex_at_most(path@, p)
                },
                None => !self@.reachable(start, goal),
            },
    {
        proof {
            use_type_invariant(self);
            self.lemma_wf();
        }
        let ghost g = self@;
        if start == goal {
            let mut single: Vec<usize> = Vec::new();
            single.push(start);
            assert forall|p: Seq<usize>| #[trigger] g.is_path(p, start, goal) implies shortlex_at_most(
                single@,
                p,
            ) by {
                if p.len() == 1 {
                    assert(p =~= single@);
                }
            }
            return Some(single);
        }
        let mut visited: Vec<bool> = vec![false; self.num_qubits];
        let mut predecessor: Vec<usize> = vec![usize::MAX; self.num_qubits];
        let mut order: Vec<usize> = Vec::new();
        let mut head: usize = 0;
        order.push(start);
        visited.set(start, true);
        let ghost mut paths: Seq<Seq<usize>> = seq![seq![start]];
        proof {
            assert(order@ =~= seq![start]);
            lemma_search_start(g, start, visited@, predecessor@);
        }
        while head < order.len() && order[head] != goal
            invariant
                g == self@,
                start < g.size,
                goal < g.size,
                g.size == self.num_qubits,
                0 <= head <= order.len(),
                paths.len() == order.len(),
                paths.len() > 0,
                paths[0] == seq![start],
                visited.len() == g.size,
                predecessor.len() == g.size,
                forall|i: int| 0 <= i < head ==> #[trigger] order@[i] != goal,
                search_inv(g, start, order@, paths, visited@, predecessor@),
                expanded(g, order@, paths, head as int),
                came_from(paths, head as int),
                order@.no_duplicates(),
                order.len() <= g.size,
            decreases g.size - head,
        {
            let current = order[head];
            let near = self.neighbors(current);
            let mut n: usize = 0;
            proof {
                lemma_search_facts(g, start, order@, paths, visited@, predecessor@);
                lemma_parents_start(paths, head as int, near@);
                assert(covered(order@, paths, head as int, near@, 0)) by {
                    reveal(covered);
                }
            }
            while n < near.len()
                invariant
                    start < g.size,
                    g.size == self.num_qubits,
                    head < order.len(),
                    current == order@[head as int],
                    0 <= n <= near.len(),
                    paths.len() == order.len(),
                    paths[0] == seq![start],
                    visited.len() == g.size,
                    predecessor.len() == g.size,
                    forall|i: int| 0 <= i <= head ==> #[trigger] order@[i] != goal,
                    search_inv(g, start, order@, paths, visited@, predecessor@),
                    expanded(g, order@, paths, head as int),
                    parents(paths, head as int, near@, n as int),
                    covered(order@, paths, head as int, near@, n as int),
                    forall|i: int, j: int|
                        0 <= i < j < near.len() ==> #[trigger] near@[i] < #[trigger] near@[j],
                    forall|b: usize| #[trigger] near@.contains(b) <==> g.adjacent(current, b),
                    forall|i: int| 0 <= i < near.len() ==> #[trigger] near@[i] < g.size,
                    order@.no_duplicates(),
                    order.len() <= g.size,
                decreases near.len() - n,
            {
                let next = near[n];
                proof {
                    assert(near@.contains(next));
                    lemma_search_facts(g, start, order@, paths, visited@, predecessor@);
                }
                if !visited[next] {
                    proof {
                        lemma_new_discovery(
                            g,
                            start,
                            order@,
                            paths,
                            visited@,
                            predecessor@,
                            head as int,
                            next,
                            near@,
                            n as int,
                        );
                        lemma_room(order@, next, g.size);
                        lemma_parents_grow(paths, head as int, near@, n as int);
                        lemma_covered_grow(order@, paths, head as int, near@, n as int);
                        paths = paths.push(paths[head as int].push(next));
                    }
                    visited.set(next, true);
                    predecessor.set(next, current);
                    order.push(next);
                } else {
                    proof {
                        let j = choose|j: int| 0 <= j < order.len() && order@[j] == next;
                        lemma_known_is_no_later(
                            g,
                            start,
                            order@,
                            paths,
                            visited@,
                            predecessor@,
                            head as int,
                            next,
                            j,
                            near@,
                            n as int,
                        );
                        lemma_covered_step(order@, paths, head as int, near@, n as int, j);
                        lemma_parents_step(paths, head as int, near@, n as int);
                    }
                }
                n = n + 1;
            }
            proof {
                lemma_covered_finish(g, order@, paths, head as int, near@);
            }
            head = head + 1;
        }
        if head == order.len() {
            proof {
                if g.reachable(start, goal) {
                    let p = choose|p: Seq<usize>| g.is_path(p, start, goal);
                    lemma_search_covers(
                        g,
                        start,
                        order@,
                        paths,
                        visited@,
                        predecessor@,
                        head as int,
                        p,
                        goal,
                    );
                    let j = choose|j: int|
                        0 <= j < order.len() && #[trigger] shortlex_at_most(paths[j], p) && (
                        order@[j] == goal || j >= head);
                }
            }
            return None;
        }
        let ghost full = paths[head as int];
        proof {
            reveal(search_inv);
            assert forall|p: Seq<usize>| #[trigger] g.is_path(p, start, goal) implies shortlex_at_most(
                full,
                p,
            ) by {
                lemma_search_covers(
                    g,
                    start,
                    order@,
                    paths,
                    visited@,
                    predecessor@,
                    head as int,
                    p,
                    goal,
                );
                let j = choose|j: int|
                    0 <= j < order.len() && #[trigger] shortlex_at_most(paths[j], p) && (order@[j]
                        == goal || j >= head);
                assert(j >= head);
                if j > head {
                    assert(shortlex_less(paths[head as int], paths[j]));
                }
                lemma_shortlex_transitive(full, paths[j], p);
            }
        }
        let mut back: Vec<usize> = Vec::new();
        let mut current = goal;
        back.push(goal);
        let ghost mut k: int = full.len() - 1;
        assert(g.is_path(full, start, goal));
        assert(back@ =~= full.subrange(k, full.len() as int).reverse());
        while current != start
            invariant
                0 <= k < full.len(),
                full[0] == start,
                current == full[k],
                current < g.size,
                predecessor.len() == g.size,
                back@ == full.subrange(k, full.len() as int).reverse(),
                0 <= head < order.len(),
                order.len() == paths.len(),
                full == paths[head as int],
                search_inv(g, start, order@, paths, visited@, predecessor@),
                start < g.size,
            decreases k,
        {
            proof {
                reveal(search_inv);
                assert(paths[head as int][k] != start);
            }
            current = predecessor[current];
            back.push(current);
            proof {
                k = k - 1;
                if k >= 1 {
                    assert(paths[head as int][k] < g.size);
                }
                assert(back@ =~= full.subrange(k, full.len() as int).reverse());
            }
        }
        proof {
            if k >= 1 {
                assert(paths[head as int][k] != start);
            }
            assert(full.subrange(0, full.len() as int) =~= full);
            assert(full.reverse().reverse() =~= full);
        }
        Some(reversed(&back))
    }
}

/// Coupling does not depend on the order of two qubits.
pub proof fn lemma_adjacent_symmetric(g: Graph, a: usize, b: usize)
    ensures
        g.adjacent(a, b) == g.adjacent(b, a),
{
}

/// Whether every edge of a list is in another, in either direction.
pub open spec fn all_edges_in(a: Seq<(usize, usize)>, b: Seq<(usize, usize)>) -> bool {
    forall|i: int| 0 <= i < a.len() ==> edge_set(b).contains(
        normalized((#[trigger] a[i]).0, a[i].1),
    )
}

/// Lists of the same edges, whatever their directions, order and repeats,
/// give the same map.
pub proof fn lemma_same_edges(a: Seq<(usize, usize)>, b: Seq<(usize, usize)>)
    requires
        all_edges_in(a, b),
        all_edges_in(b, a),
    ensures
        edge_set(a) == edge_set(b),
{
    assert(edge_set(a) =~= edge_set(b));
}

} // verus!
