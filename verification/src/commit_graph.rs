//! The commit graph: vertices hold commit hashes, and every edge points
//! from a commit to one of its parents. Vertices are deduplicated by
//! value on insert; edges are not. Ancestry distance is a breadth-first
//! search along the edges, and the best common ancestor of two graphs is
//! the common value minimizing the summed distance from both tips.

use vstd::prelude::*;
use vstd::set_lib::{lemma_int_range, lemma_len_subset, set_int_range};

verus! {

/// The position of a vertex in the graph's arena.
#[derive(Debug, Clone, Copy, Default, PartialEq, Eq, Structural, Hash)]
pub struct VertexIndex(pub usize);

/// The position of an edge in the graph's edge list.
#[derive(Debug, Clone, Copy, Default, PartialEq, Eq, Structural, Hash)]
pub struct EdgeIndex(pub usize);

#[derive(Debug)]
struct Vertex {
    value: String,
}

#[derive(Debug)]
struct Edge {
    start_id: VertexIndex,
    end_id: VertexIndex,
}

/// The mathematical model of a graph: the vertex values in arena order,
/// and the edges as index pairs.
#[verifier::ext_equal]
pub ghost struct GraphV {
    pub values: Seq<Seq<char>>,
    pub edges: Seq<(int, int)>,
}

/// A directed multigraph over commit-hash values.
#[derive(Debug)]
pub struct Graph {
    vertexs: Vec<Vertex>,
    edges: Vec<Edge>,
}

impl View for Graph {
    type V = GraphV;

    closed spec fn view(&self) -> GraphV {
        GraphV {
            values: self.vertexs@.map_values(|v: Vertex| v.value@),
            edges: self.edges@.map_values(|e: Edge| (e.start_id.0 as int, e.end_id.0 as int)),
        }
    }
}

/// Every edge's endpoints name vertices of the arena.
pub open spec fn graph_wf(g: GraphV) -> bool {
    forall|k: int|
        0 <= k < g.edges.len() ==> 0 <= (#[trigger] g.edges[k]).0 < g.values.len() && 0
            <= g.edges[k].1 < g.values.len()
}

/// A value occurs among the vertex values.
pub open spec fn has_value(vals: Seq<Seq<char>>, x: Seq<char>) -> bool {
    exists|i: int| 0 <= i < vals.len() && vals[i] == x
}

/// The first arena index holding `x`, or -1.
pub open spec fn first_idx(vals: Seq<Seq<char>>, x: Seq<char>, from: int) -> int
    decreases vals.len() - from,
{
    if from < 0 || from >= vals.len() {
        -1
    } else if vals[from] == x {
        from
    } else {
        first_idx(vals, x, from + 1)
    }
}

/// There is a directed path of exactly `n` edges from `a` to `b`.
pub open spec fn has_path(g: GraphV, a: int, b: int, n: nat) -> bool
    decreases n,
{
    if n == 0 {
        a == b
    } else {
        exists|k: int|
            0 <= k < g.edges.len() && (#[trigger] g.edges[k]).0 == a && has_path(
                g,
                g.edges[k].1,
                b,
                (n - 1) as nat,
            )
    }
}

/// `b` can be reached from `a` along the edges.
pub open spec fn reachable(g: GraphV, a: int, b: int) -> bool {
    exists|n: nat| has_path(g, a, b, n)
}

/// No path from `a` to `b` has fewer than `d` edges. Kept opaque so
/// the search's invariants stay cheap; reveal it to use the bound.
#[verifier::opaque]
pub open spec fn no_shorter_path(g: GraphV, a: int, b: int, d: nat) -> bool {
    forall|n: nat| n < d ==> !has_path(g, a, b, n)
}

/// `d` is the distance from `a` to `b`: a path of that length exists
/// and none is shorter.
pub open spec fn is_dist(g: GraphV, a: int, b: int, d: nat) -> bool {
    has_path(g, a, b, d) && no_shorter_path(g, a, b, d)
}

/// The distance between two vertices is unique.
pub proof fn lemma_is_dist_unique(g: GraphV, a: int, b: int, d: nat, e: nat)
    requires
        is_dist(g, a, b, d),
        is_dist(g, a, b, e),
    ensures
        d == e,
{
    reveal(no_shorter_path);
}

/// Pins `first_idx` the same way `find_byte` is pinned.
proof fn lemma_first_idx_hit(vals: Seq<Seq<char>>, x: Seq<char>, from: int, i: int)
    requires
        0 <= from <= i < vals.len(),
        vals[i] == x,
        forall|t: int| from <= t < i ==> vals[t] != x,
    ensures
        first_idx(vals, x, from) == i,
    decreases i - from,
{
    if from < i {
        assert(vals[from] != x);
        lemma_first_idx_hit(vals, x, from + 1, i);
    }
}

proof fn lemma_first_idx_miss(vals: Seq<Seq<char>>, x: Seq<char>, from: int)
    requires
        0 <= from <= vals.len(),
        forall|t: int| from <= t < vals.len() ==> vals[t] != x,
    ensures
        first_idx(vals, x, from) == -1,
    decreases vals.len() - from,
{
    if from < vals.len() {
        assert(vals[from] != x);
        lemma_first_idx_miss(vals, x, from + 1);
    }
}

proof fn lemma_first_idx_found(vals: Seq<Seq<char>>, x: Seq<char>, from: int, w: int)
    requires
        0 <= from <= w < vals.len(),
        vals[w] == x,
    ensures
        from <= first_idx(vals, x, from) <= w,
        vals[first_idx(vals, x, from)] == x,
    decreases w - from,
{
    if vals[from] != x {
        lemma_first_idx_found(vals, x, from + 1, w);
    }
}

proof fn lemma_first_idx_is_first(vals: Seq<Seq<char>>, x: Seq<char>)
    requires
        first_idx(vals, x, 0) >= 0,
    ensures
        0 <= first_idx(vals, x, 0) < vals.len(),
        vals[first_idx(vals, x, 0)] == x,
        forall|t: int| 0 <= t < first_idx(vals, x, 0) ==> vals[t] != x,
    decreases vals.len(),
{
    lemma_first_idx_is_first_from(vals, x, 0);
}

proof fn lemma_first_idx_is_first_from(vals: Seq<Seq<char>>, x: Seq<char>, from: int)
    requires
        0 <= from,
        first_idx(vals, x, from) >= 0,
    ensures
        from <= first_idx(vals, x, from) < vals.len(),
        vals[first_idx(vals, x, from)] == x,
        forall|t: int| from <= t < first_idx(vals, x, from) ==> vals[t] != x,
    decreases vals.len() - from,
{
    if from < vals.len() && vals[from] != x {
        lemma_first_idx_is_first_from(vals, x, from + 1);
    }
}

/// A value's first occurrence does not move when the arena grows.
proof fn lemma_first_idx_stable_push(vals: Seq<Seq<char>>, x: Seq<char>, v: Seq<char>)
    requires
        first_idx(vals, x, 0) >= 0,
    ensures
        first_idx(vals.push(v), x, 0) == first_idx(vals, x, 0),
{
    lemma_first_idx_is_first(vals, x);
    let i = first_idx(vals, x, 0);
    assert(vals.push(v)[i] == vals[i]);
    assert forall|t: int| 0 <= t < i implies vals.push(v)[t] != x by {
        assert(vals.push(v)[t] == vals[t]);
    }
    lemma_first_idx_hit(vals.push(v), x, 0, i);
}

/// The first queue position holding vertex `v`, or -1.
pub open spec fn fqi(q: Seq<(usize, usize)>, v: int, from: int) -> int
    decreases q.len() - from,
{
    if from < 0 || from >= q.len() {
        -1
    } else if q[from].0 == v {
        from
    } else {
        fqi(q, v, from + 1)
    }
}

proof fn lemma_fqi_hit(q: Seq<(usize, usize)>, v: int, from: int, i: int)
    requires
        0 <= from <= i < q.len(),
        q[i].0 == v,
        forall|t: int| from <= t < i ==> (#[trigger] q[t]).0 != v,
    ensures
        fqi(q, v, from) == i,
    decreases i - from,
{
    if from < i {
        assert(q[from].0 != v);
        lemma_fqi_hit(q, v, from + 1, i);
    }
}

proof fn lemma_fqi_props(q: Seq<(usize, usize)>, v: int)
    ensures
        fqi(q, v, 0) >= -1,
        fqi(q, v, 0) == -1 ==> forall|t: int| 0 <= t < q.len() ==> (#[trigger] q[t]).0 != v,
        fqi(q, v, 0) >= 0 ==> 0 <= fqi(q, v, 0) < q.len() && q[fqi(q, v, 0)].0 == v,
{
    lemma_fqi_props_from(q, v, 0);
}

proof fn lemma_fqi_props_from(q: Seq<(usize, usize)>, v: int, from: int)
    requires
        0 <= from,
    ensures
        fqi(q, v, from) >= -1,
        fqi(q, v, from) == -1 ==> forall|t: int| from <= t < q.len() ==> (#[trigger] q[t]).0 != v,
        fqi(q, v, from) >= 0 ==> from <= fqi(q, v, from) < q.len() && q[fqi(q, v, from)].0 == v,
    decreases q.len() - from,
{
    if from < q.len() && q[from].0 != v {
        lemma_fqi_props_from(q, v, from + 1);
    }
}

/// A vertex's first queue entry does not move when the queue grows.
proof fn lemma_fqi_stable_push(q: Seq<(usize, usize)>, v: int, e: (usize, usize))
    requires
        fqi(q, v, 0) >= 0,
    ensures
        fqi(q.push(e), v, 0) == fqi(q, v, 0),
{
    lemma_fqi_props(q, v);
    let i = fqi(q, v, 0);
    assert(q.push(e)[i] == q[i]);
    assert forall|t: int| 0 <= t < i implies (#[trigger] q.push(e)[t]).0 != v by {
        assert(q.push(e)[t] == q[t]);
        lemma_fqi_first(q, v, t);
    }
    lemma_fqi_hit(q.push(e), v, 0, i);
}

proof fn lemma_fqi_first(q: Seq<(usize, usize)>, v: int, t: int)
    requires
        fqi(q, v, 0) >= 0,
        0 <= t < fqi(q, v, 0),
    ensures
        q[t].0 != v,
{
    lemma_fqi_first_from(q, v, 0, t);
}

proof fn lemma_fqi_first_from(q: Seq<(usize, usize)>, v: int, from: int, t: int)
    requires
        0 <= from,
        fqi(q, v, from) >= 0,
        from <= t < fqi(q, v, from),
    ensures
        q[t].0 != v,
    decreases q.len() - from,
{
    if t > from {
        lemma_fqi_first_from(q, v, from + 1, t);
    }
}

/// A vertex absent from the queue stays absent when another is pushed.
proof fn lemma_fqi_none_push(q: Seq<(usize, usize)>, v: int, e: (usize, usize))
    requires
        fqi(q, v, 0) == -1,
        e.0 != v,
    ensures
        fqi(q.push(e), v, 0) == -1,
{
    lemma_fqi_props(q, v);
    assert forall|t: int| 0 <= t < q.push(e).len() implies (#[trigger] q.push(e)[t]).0 != v by {
        if t < q.len() {
            assert(q.push(e)[t] == q[t]);
        }
    }
    lemma_fqi_miss(q.push(e), v, 0);
}

proof fn lemma_fqi_miss(q: Seq<(usize, usize)>, v: int, from: int)
    requires
        0 <= from <= q.len(),
        forall|t: int| from <= t < q.len() ==> (#[trigger] q[t]).0 != v,
    ensures
        fqi(q, v, from) == -1,
    decreases q.len() - from,
{
    if from < q.len() {
        assert(q[from].0 != v);
        lemma_fqi_miss(q, v, from + 1);
    }
}

/// A path of positive length ends with an edge into its target.
proof fn lemma_path_last_edge(g: GraphV, a: int, b: int, n: nat)
    requires
        has_path(g, a, b, n),
        n >= 1,
    ensures
        exists|u: int, k: int|
            #![trigger has_path(g, a, u, (n - 1) as nat), g.edges[k]]
            has_path(g, a, u, (n - 1) as nat) && 0 <= k < g.edges.len() && g.edges[k].0 == u
                && g.edges[k].1 == b,
    decreases n,
{
    let k0 = choose|k0: int|
        0 <= k0 < g.edges.len() && (#[trigger] g.edges[k0]).0 == a && has_path(
            g,
            g.edges[k0].1,
            b,
            (n - 1) as nat,
        );
    if n == 1 {
        assert(g.edges[k0].1 == b);
        assert(has_path(g, a, a, 0nat));
        assert(has_path(g, a, a, 0nat) && 0 <= k0 < g.edges.len() && g.edges[k0].0 == a
            && g.edges[k0].1 == b);
    } else {
        lemma_path_last_edge(g, g.edges[k0].1, b, (n - 1) as nat);
        let (u, k) = choose|u: int, k: int|
            #![trigger has_path(g, g.edges[k0].1, u, (n - 2) as nat), g.edges[k]]
            has_path(g, g.edges[k0].1, u, (n - 2) as nat) && 0 <= k < g.edges.len() && g.edges[k].0
                == u && g.edges[k].1 == b;
        assert(has_path(g, a, u, (n - 1) as nat));
        assert(has_path(g, a, u, (n - 1) as nat) && 0 <= k < g.edges.len() && g.edges[k].0 == u
            && g.edges[k].1 == b);
    }
}

/// While the search expands level `dist`, every vertex within `dist`
/// steps of the start is already queued, at or below its path length.
proof fn lemma_bfs_levels(
    g: GraphV,
    q: Seq<(usize, usize)>,
    head: int,
    si: int,
    w: int,
    n: nat,
)
    requires
        graph_wf(g),
        q.len() > 0,
        1 <= head <= q.len(),
        q[0].0 == si,
        q[0].1 == 0,
        forall|p: int, r: int| 0 <= p < r < q.len() ==> (#[trigger] q[p]).1 <= (#[trigger] q[r]).1,
        forall|p: int, k: int|
            0 <= p < head - 1 && 0 <= k < g.edges.len() && (#[trigger] g.edges[k]).0 == (
            #[trigger] q[p]).0 ==> fqi(q, g.edges[k].1, 0) >= 0 && q[fqi(q, g.edges[k].1, 0)].1
                <= q[p].1 + 1,
        n <= q[head - 1].1,
        has_path(g, si, w, n),
    ensures
        fqi(q, w, 0) >= 0,
        q[fqi(q, w, 0)].1 <= n,
    decreases n,
{
    if n == 0 {
        lemma_fqi_hit(q, si, 0, 0);
    } else {
        lemma_path_last_edge(g, si, w, n);
        let (u, k) = choose|u: int, k: int|
            #![trigger has_path(g, si, u, (n - 1) as nat), g.edges[k]]
            has_path(g, si, u, (n - 1) as nat) && 0 <= k < g.edges.len() && g.edges[k].0 == u
                && g.edges[k].1 == w;
        lemma_bfs_levels(g, q, head, si, u, (n - 1) as nat);
        let ru = fqi(q, u, 0);
        lemma_fqi_props(q, u);
        // the entry for `u` lies in the fully processed part
        assert(ru < head - 1) by {
            if ru >= head - 1 {
                assert(q[head - 1].1 <= q[ru].1);
            }
        }
        assert(g.edges[k].0 == q[ru].0);
        assert(fqi(q, w, 0) >= 0 && q[fqi(q, w, 0)].1 <= q[ru].1 + 1);
    }
}

/// From a vertex set closed under the edges, no path leaves.
proof fn lemma_closed_no_path(g: GraphV, marked: Seq<bool>, a: int, b: int, n: nat)
    requires
        graph_wf(g),
        marked.len() == g.values.len(),
        0 <= a < g.values.len(),
        0 <= b < g.values.len(),
        marked[a],
        !marked[b],
        forall|k: int|
            0 <= k < g.edges.len() && marked[(#[trigger] g.edges[k]).0] ==> marked[g.edges[k].1],
    ensures
        !has_path(g, a, b, n),
    decreases n,
{
    if n == 0 {
    } else {
        if has_path(g, a, b, n) {
            let k = choose|k: int|
                0 <= k < g.edges.len() && (#[trigger] g.edges[k]).0 == a && has_path(
                    g,
                    g.edges[k].1,
                    b,
                    (n - 1) as nat,
                );
            assert(marked[g.edges[k].1]);
            lemma_closed_no_path(g, marked, g.edges[k].1, b, (n - 1) as nat);
        }
    }
}

impl Graph {
    /// The empty graph.
    pub fn new() -> (r: Self)
        ensures
            r@.values == Seq::<Seq<char>>::empty(),
            r@.edges == Seq::<(int, int)>::empty(),
            graph_wf(r@),
    {
        let r = Graph { vertexs: Vec::new(), edges: Vec::new() };
        proof {
            assert(r@.values =~= Seq::<Seq<char>>::empty());
            assert(r@.edges =~= Seq::<(int, int)>::empty());
        }
        r
    }

    /// Adds a vertex, reusing the index of an existing vertex with the
    /// same value.
    pub fn add_vertex(&mut self, value: String) -> (r: VertexIndex)
        ensures
            graph_wf(old(self)@) ==> graph_wf(final(self)@),
            final(self)@.edges == old(self)@.edges,
            r.0 <= old(self)@.values.len(),
            r.0 < old(self)@.values.len() ==> final(self)@ == old(self)@ && old(
                self,
            )@.values[r.0 as int] == value@ && (forall|t: int|
                0 <= t < r.0 ==> old(self)@.values[t] != value@),
            r.0 == old(self)@.values.len() ==> final(self)@.values == old(self)@.values.push(
                value@,
            ) && (forall|t: int|
                0 <= t < old(self)@.values.len() ==> old(self)@.values[t] != value@),
    {
        let ghost vals = self@.values;
        let mut i: usize = 0;
        while i < self.vertexs.len()
            invariant
                0 <= i <= self.vertexs@.len(),
                vals == self@.values,
                forall|t: int| 0 <= t < i ==> vals[t] != value@,
            decreases self.vertexs@.len() - i,
        {
            if crate::repository::string_eq(&self.vertexs[i].value, &value) {
                return VertexIndex(i);
            }
            i += 1;
        }
        let ghost old_self = self@;
        let ghost v_at = value@;
        let n = self.vertexs.len();
        self.vertexs.push(Vertex { value });
        proof {
            assert(self@.values =~= old_self.values.push(v_at));
            assert(self@.edges =~= old_self.edges);
        }
        VertexIndex(n)
    }

    /// Adds an edge from `start_id` to `end_id`.
    pub fn add_edges(&mut self, start_id: VertexIndex, end_id: VertexIndex) -> (r: EdgeIndex)
        requires
            start_id.0 < old(self)@.values.len(),
            end_id.0 < old(self)@.values.len(),
        ensures
            graph_wf(old(self)@) ==> graph_wf(final(self)@),
            final(self)@.values == old(self)@.values,
            final(self)@.edges == old(self)@.edges.push((start_id.0 as int, end_id.0 as int)),
            r.0 == old(self)@.edges.len(),
    {
        let ghost old_self = self@;
        let new_id = EdgeIndex(self.edges.len());
        self.edges.push(Edge { start_id, end_id });
        proof {
            assert(self@.values =~= old_self.values);
            assert(self@.edges =~= old_self.edges.push((start_id.0 as int, end_id.0 as int)));
        }
        new_id
    }

    /// The index of the first vertex holding `value`, if any.
    pub fn get_vertex_id(&self, value: &String) -> (r: Option<VertexIndex>)
        ensures
            match r {
                Some(id) => id.0 < self@.values.len() && self@.values[id.0 as int] == value@
                    && first_idx(self@.values, value@, 0) == id.0,
                None => !has_value(self@.values, value@) && first_idx(self@.values, value@, 0)
                    == -1,
            },
    {
        let ghost vals = self@.values;
        let mut i: usize = 0;
        while i < self.vertexs.len()
            invariant
                0 <= i <= self.vertexs@.len(),
                vals == self@.values,
                forall|t: int| 0 <= t < i ==> vals[t] != value@,
            decreases self.vertexs@.len() - i,
        {
            if crate::repository::string_eq(&self.vertexs[i].value, &value) {
                proof {
                    lemma_first_idx_hit(vals, value@, 0, i as int);
                }
                return Some(VertexIndex(i));
            }
            i += 1;
        }
        proof {
            lemma_first_idx_miss(vals, value@, 0);
        }
        None
    }

    /// The value at an arena index, if the index names a vertex.
    pub fn get_vertex_value(&self, id: VertexIndex) -> (r: Option<&String>)
        ensures
            match r {
                Some(v) => id.0 < self@.values.len() && v@ == self@.values[id.0 as int],
                None => id.0 >= self@.values.len(),
            },
    {
        if id.0 < self.vertexs.len() {
            Some(&self.vertexs[id.0].value)
        } else {
            None
        }
    }

    /// How many vertices the graph holds.
    pub fn vertex_count(&self) -> (r: usize)
        ensures
            r == self@.values.len(),
    {
        self.vertexs.len()
    }

    /// How many edges the graph holds.
    pub fn efge_count(&self) -> (r: usize)
        ensures
            r == self@.edges.len(),
    {
        self.edges.len()
    }

    /// The breadth-first distance, in edges, from the first vertex
    /// holding `start_value` to the first vertex holding `end_value`:
    /// the length of a shortest path (so zero from a value to itself),
    /// or `None` when either value is absent or no path connects them.
    #[verifier::rlimit(100)]
    pub fn distance(&self, start_value: &String, end_value: &String) -> (r: Option<usize>)
        requires
            graph_wf(self@),
        ensures
            ({
                let g = self@;
                let si = first_idx(g.values, start_value@, 0);
                let ei = first_idx(g.values, end_value@, 0);
                match r {
                    Some(d) => si >= 0 && ei >= 0 && d < g.values.len() && is_dist(
                        g,
                        si,
                        ei,
                        d as nat,
                    ),
                    None => si < 0 || ei < 0 || !reachable(g, si, ei),
                }
            }),
    {
        let ghost g = self@;
        let si = match self.get_vertex_id(start_value) {
            Some(i) => i.0,
            None => {
                return None;
            },
        };
        let ei = match self.get_vertex_id(end_value) {
            Some(i) => i.0,
            None => {
                return None;
            },
        };
        let n = self.vertexs.len();
        let mut visited: Vec<bool> = Vec::new();
        let mut z: usize = 0;
        while z < n
            invariant
                0 <= z <= n,
                visited@.len() == z,
                forall|t: int| 0 <= t < z ==> !visited@[t],
            decreases n - z,
        {
            visited.push(false);
            z += 1;
        }
        let mut queue: Vec<(usize, usize)> = Vec::new();
        let mut head: usize = 0;
        visited.set(si, true);
        queue.push((si, 0));
        let ghost range = set_int_range(0, n as int);
        let ghost vset = Set::<int>::empty().insert(si as int);
        let mut vcount: usize = 1;
        proof {
            lemma_int_range(0, n as int);
            assert(vset.subset_of(range));
            lemma_len_subset(vset, range);
            assert(Set::<int>::empty().len() == 0);
            assert(vset.len() == 1);
            assert(has_path(g, si as int, si as int, 0nat));
            assert(queue@[0].0 == si && queue@[0].1 == 0);
            assert(no_shorter_path(g, si as int, si as int, 0nat)) by {
                reveal(no_shorter_path);
            }
            assert forall|v: int| 0 <= v < n implies (visited@[v] <==> fqi(queue@, v, 0)
                >= 0) by {
                if v == si {
                    lemma_fqi_hit(queue@, v, 0, 0);
                } else {
                    assert(queue@[0].0 != v);
                    lemma_fqi_miss(queue@, v, 0);
                }
            }
        }
        while head < queue.len()
            invariant
                graph_wf(g),
                g == self@,
                n == g.values.len(),
                si < n,
                ei < n,
                g.values[si as int] == start_value@,
                g.values[ei as int] == end_value@,
                first_idx(g.values, start_value@, 0) == si,
                first_idx(g.values, end_value@, 0) == ei,
                visited@.len() == n,
                0 <= head <= queue@.len(),
                queue@.len() > 0,
                queue@[0].0 == si,
                queue@[0].1 == 0,
                queue@.len() == vcount,
                range == set_int_range(0, n as int),
                vset.finite(),
                vset.subset_of(range),
                vcount == vset.len(),
                vcount <= n,
                forall|v: int| 0 <= v < n ==> (visited@[v] <==> vset.contains(v)),
                visited@[si as int],
                forall|v: int| 0 <= v < n ==> (visited@[v] <==> fqi(queue@, v, 0) >= 0),
                forall|p: int|
                    0 <= p < queue@.len() ==> (#[trigger] queue@[p]).0 < n && visited@[queue@[p].0 as int]
                        && has_path(g, si as int, queue@[p].0 as int, queue@[p].1 as nat)
                        && queue@[p].1 <= p,
                forall|p: int|
                    0 <= p < queue@.len() ==> no_shorter_path(
                        g,
                        si as int,
                        (#[trigger] queue@[p]).0 as int,
                        queue@[p].1 as nat,
                    ),
                forall|p: int, q2: int|
                    0 <= p < q2 < queue@.len() ==> (#[trigger] queue@[p]).1 <= (
                    #[trigger] queue@[q2]).1,
                head < queue@.len() ==> queue@[queue@.len() - 1].1 <= queue@[head as int].1 + 1,
                forall|p: int|
                    0 <= p < head ==> (#[trigger] queue@[p]).0 != ei,
                forall|p: int, k: int|
                    0 <= p < head && 0 <= k < g.edges.len() && (#[trigger] g.edges[k]).0
                        == (#[trigger] queue@[p]).0 ==> fqi(queue@, g.edges[k].1, 0) >= 0
                        && queue@[fqi(queue@, g.edges[k].1, 0)].1 <= queue@[p].1 + 1,
            decreases n - vcount, queue@.len() - head,
        {
            let (cur, dist) = queue[head];
            if cur == ei {
                proof {
                    assert(queue@[head as int].0 == ei && queue@[head as int].1 == dist);
                    assert(no_shorter_path(g, si as int, ei as int, dist as nat));
                    assert(dist <= head);
                }
                return Some(dist);
            }
            head += 1;
            let mut k: usize = 0;
            let ghost vc0 = vcount;
            let ghost q0len = queue@.len();
            while k < self.edges.len()
                invariant
                    graph_wf(g),
                    g == self@,
                    n == g.values.len(),
                    si < n,
                    ei < n,
                    cur < n,
                    1 <= head,
                    dist <= head - 1,
                    head <= queue@.len(),
                    queue@.len() > 0,
                    queue@[0].0 == si,
                    queue@[0].1 == 0,
                    queue@.len() == vcount,
                    0 <= k <= g.edges.len(),
                    vcount >= vc0,
                    vcount == vc0 ==> queue@.len() == q0len,
                    visited@.len() == n,
                    range == set_int_range(0, n as int),
                    vset.finite(),
                    vset.subset_of(range),
                    vcount == vset.len(),
                    vcount <= n,
                    forall|v: int| 0 <= v < n ==> (visited@[v] <==> vset.contains(v)),
                    visited@[si as int],
                    visited@[cur as int],
                    has_path(g, si as int, cur as int, dist as nat),
                    forall|v: int| 0 <= v < n ==> (visited@[v] <==> fqi(queue@, v, 0) >= 0),
                    forall|p: int|
                        0 <= p < queue@.len() ==> (#[trigger] queue@[p]).0 < n
                            && visited@[queue@[p].0 as int] && has_path(
                            g,
                            si as int,
                            queue@[p].0 as int,
                            queue@[p].1 as nat,
                        ) && queue@[p].1 <= p,
                    forall|p: int|
                        0 <= p < queue@.len() ==> no_shorter_path(
                            g,
                            si as int,
                            (#[trigger] queue@[p]).0 as int,
                            queue@[p].1 as nat,
                        ),
                    forall|p: int, q2: int|
                        0 <= p < q2 < queue@.len() ==> (#[trigger] queue@[p]).1 <= (
                        #[trigger] queue@[q2]).1,
                    queue@[queue@.len() - 1].1 <= dist + 1,
                    forall|p: int|
                        0 <= p < head - 1 ==> (#[trigger] queue@[p]).0 != ei,
                    queue@[head - 1].0 == cur,
                    cur != ei,
                    queue@[head - 1].1 == dist,
                    forall|p: int, kk: int|
                        0 <= p < head - 1 && 0 <= kk < g.edges.len() && (#[trigger] g.edges[kk]).0
                            == (#[trigger] queue@[p]).0 ==> fqi(queue@, g.edges[kk].1, 0) >= 0
                            && queue@[fqi(queue@, g.edges[kk].1, 0)].1 <= queue@[p].1 + 1,
                    forall|kk: int|
                        0 <= kk < k && (#[trigger] g.edges[kk]).0 == cur ==> fqi(
                            queue@,
                            g.edges[kk].1,
                            0,
                        ) >= 0 && queue@[fqi(queue@, g.edges[kk].1, 0)].1 <= dist + 1,
                decreases g.edges.len() - k,
            {
                let e_start = self.edges[k].start_id.0;
                let e_end = self.edges[k].end_id.0;
                proof {
                    assert(g.edges[k as int] == (e_start as int, e_end as int));
                }
                if e_start == cur && !visited[e_end] {
                    proof {
                        lemma_int_range(0, n as int);
                        assert(0 <= g.edges[k as int].1 < n);
                        assert(!vset.contains(e_end as int));
                        vset = vset.insert(e_end as int);
                        assert(vset.subset_of(range));
                        lemma_len_subset(vset, range);
                        assert(vset.len() == vcount + 1);
                        // nothing within `dist` steps reaches an unvisited vertex
                        assert(no_shorter_path(g, si as int, e_end as int, (dist + 1) as nat)) by {
                            reveal(no_shorter_path);
                            assert forall|nn: nat| nn < dist + 1 implies !has_path(
                                g,
                                si as int,
                                e_end as int,
                                nn,
                            ) by {
                                if has_path(g, si as int, e_end as int, nn) {
                                    lemma_bfs_levels(
                                        g,
                                        queue@,
                                        head as int,
                                        si as int,
                                        e_end as int,
                                        nn,
                                    );
                                }
                            }
                        }
                    }
                    visited.set(e_end, true);
                    let ghost before_push = queue@;
                    vcount += 1;
                    queue.push((e_end, dist + 1));
                    proof {
                        let ghost new_e: (usize, usize) = (e_end, (dist + 1) as usize);
                        assert(queue@ == before_push.push(new_e));
                        assert(has_path(g, si as int, e_end as int, (dist + 1) as nat)) by {
                            assert(has_path(g, si as int, cur as int, dist as nat));
                            lemma_path_extend(g, si as int, cur as int, dist as nat, k as int);
                        }
                        assert(queue@[queue@.len() - 1] == new_e);
                        assert(queue@[queue@.len() - 1].1 <= queue@.len() - 1);
                        // first queue entries move for no vertex but the new one
                        assert forall|t: int| 0 <= t < before_push.len() implies (
                        #[trigger] before_push[t]).0 != e_end as int by {
                            assert(visited@[before_push[t].0 as int]);
                        }
                        assert forall|v: int| 0 <= v < n implies (visited@[v] <==> fqi(
                            queue@,
                            v,
                            0,
                        ) >= 0) by {
                            lemma_fqi_props(before_push, v);
                            if v == e_end {
                                lemma_fqi_hit(queue@, v, 0, before_push.len() as int);
                            } else if fqi(before_push, v, 0) >= 0 {
                                lemma_fqi_stable_push(before_push, v, new_e);
                            } else {
                                lemma_fqi_none_push(before_push, v, new_e);
                            }
                        }
                        assert forall|p: int|
                            0 <= p < queue@.len() implies no_shorter_path(
                            g,
                            si as int,
                            (#[trigger] queue@[p]).0 as int,
                            queue@[p].1 as nat,
                        ) by {
                            if p < queue@.len() - 1 {
                                assert(queue@[p] == before_push[p]);
                            }
                        }
                        assert forall|p: int, q2: int|
                            0 <= p < q2 < queue@.len() implies (#[trigger] queue@[p]).1 <= (
                        #[trigger] queue@[q2]).1 by {
                            if q2 == queue@.len() - 1 {
                                assert(queue@[p] == before_push[p]);
                                if p < before_push.len() - 1 {
                                    assert(before_push[p].1 <= before_push[before_push.len()
                                        - 1].1);
                                }
                            }
                        }
                        assert forall|kk: int|
                            0 <= kk < k + 1 && (#[trigger] g.edges[kk]).0 == cur implies fqi(
                            queue@,
                            g.edges[kk].1,
                            0,
                        ) >= 0 && queue@[fqi(queue@, g.edges[kk].1, 0)].1 <= dist + 1 by {
                            if kk == k {
                                lemma_fqi_hit(queue@, e_end as int, 0, before_push.len() as int);
                            } else {
                                lemma_fqi_props(before_push, g.edges[kk].1);
                                lemma_fqi_stable_push(before_push, g.edges[kk].1, new_e);
                                let r = fqi(before_push, g.edges[kk].1, 0);
                                assert(queue@[r] == before_push[r]);
                            }
                        }
                        assert forall|p: int, kk: int|
                            0 <= p < head - 1 && 0 <= kk < g.edges.len() && (
                        #[trigger] g.edges[kk]).0 == (#[trigger] queue@[p]).0 implies fqi(
                            queue@,
                            g.edges[kk].1,
                            0,
                        ) >= 0 && queue@[fqi(queue@, g.edges[kk].1, 0)].1 <= queue@[p].1 + 1 by {
                            assert(queue@[p] == before_push[p]);
                            lemma_fqi_props(before_push, g.edges[kk].1);
                            lemma_fqi_stable_push(before_push, g.edges[kk].1, new_e);
                            let r = fqi(before_push, g.edges[kk].1, 0);
                            assert(queue@[r] == before_push[r]);
                        }
                    }
                } else {
                    proof {
                        if e_start == cur {
                            // the endpoint was already visited: its entry
                            // sits within the frontier's bound
                            assert(visited@[e_end as int]);
                            assert(fqi(queue@, e_end as int, 0) >= 0);
                            lemma_fqi_props(queue@, e_end as int);
                            let r = fqi(queue@, e_end as int, 0);
                            if r < queue@.len() - 1 {
                                assert(queue@[r].1 <= queue@[queue@.len() - 1].1);
                            }
                            assert(queue@[r].1 <= dist + 1);
                        }
                    }
                }
                k += 1;
            }
            proof {
                assert forall|p: int, kk: int|
                    0 <= p < head && 0 <= kk < g.edges.len() && (#[trigger] g.edges[kk]).0
                        == (#[trigger] queue@[p]).0 implies fqi(queue@, g.edges[kk].1, 0) >= 0
                        && queue@[fqi(queue@, g.edges[kk].1, 0)].1 <= queue@[p].1 + 1 by {
                    if p == head - 1 {
                        assert(queue@[p].0 == cur);
                        assert(queue@[p].1 == dist);
                    }
                }
                if head < queue@.len() {
                    assert(queue@[head - 1].1 <= queue@[head as int].1);
                }
            }
        }
        proof {
            // the search closed over every reachable vertex without
            // meeting the end, so no path exists
            assert(fqi(queue@, ei as int, 0) == -1) by {
                assert forall|t: int| 0 <= t < queue@.len() implies (#[trigger] queue@[t]).0
                    != ei as int by {}
                lemma_fqi_miss(queue@, ei as int, 0);
            }
            assert(!visited@[ei as int]);
            assert forall|k: int|
                0 <= k < g.edges.len() && visited@[(#[trigger] g.edges[k]).0] implies visited@[g.edges[k].1] by {
                let p = fqi(queue@, g.edges[k].0, 0);
                lemma_fqi_props(queue@, g.edges[k].0);
                assert(queue@[p].0 == g.edges[k].0);
                assert(fqi(queue@, g.edges[k].1, 0) >= 0);
            }
            assert forall|nn: nat| !has_path(g, si as int, ei as int, nn) by {
                lemma_closed_no_path(g, visited@, si as int, ei as int, nn);
            }
        }
        None
    }

    /// The best common ancestor value of two graphs: a value both hold,
    /// reachable from each graph's first vertex, minimizing the summed
    /// breadth-first distance from the two tips; `None` when no common
    /// value is reachable in both. The graphs' joint size must fit the
    /// machine word so the summed distance can be computed.
    pub fn common_vertex_value<'a>(&'a self, another_graph: &'a Graph) -> (r: Option<&'a String>)
        requires
            graph_wf(self@),
            graph_wf(another_graph@),
            self@.values.len() > 0,
            another_graph@.values.len() > 0,
            self@.values.len() + another_graph@.values.len() <= usize::MAX,
        ensures
            match r {
                Some(v) => has_value(self@.values, v@) && has_value(another_graph@.values, v@)
                    && (exists|d1: nat, d2: nat|
                    #![trigger is_dist(self@, 0, first_idx(self@.values, v@, 0), d1), is_dist(another_graph@, 0, first_idx(another_graph@.values, v@, 0), d2)]
                    is_dist(self@, 0, first_idx(self@.values, v@, 0), d1) && is_dist(
                        another_graph@,
                        0,
                        first_idx(another_graph@.values, v@, 0),
                        d2,
                    ) && (forall|t: int, e1: nat, e2: nat|
                        #![trigger is_dist(self@, 0, first_idx(self@.values, self@.values[t], 0), e1), is_dist(another_graph@, 0, first_idx(another_graph@.values, self@.values[t], 0), e2)]
                        0 <= t < self@.values.len() && has_value(
                            another_graph@.values,
                            self@.values[t],
                        ) && is_dist(self@, 0, first_idx(self@.values, self@.values[t], 0), e1)
                            && is_dist(
                            another_graph@,
                            0,
                            first_idx(another_graph@.values, self@.values[t], 0),
                            e2,
                        ) ==> d1 + d2 <= e1 + e2)),
                None => forall|i: int|
                    0 <= i < self@.values.len() && has_value(
                        another_graph@.values,
                        #[trigger] self@.values[i],
                    ) ==> !reachable(self@, 0, first_idx(self@.values, self@.values[i], 0))
                        || !reachable(
                        another_graph@,
                        0,
                        first_idx(another_graph@.values, self@.values[i], 0),
                    ),
            },
    {
        let ghost g1 = self@;
        let ghost g2 = another_graph@;
        let mut best: Option<usize> = None;
        let mut best_dist: usize = 0;
        let mut i: usize = 0;
        while i < self.vertexs.len()
            invariant
                graph_wf(g1),
                graph_wf(g2),
                g1 == self@,
                g2 == another_graph@,
                g1.values.len() > 0,
                g2.values.len() > 0,
                g1.values.len() + g2.values.len() <= usize::MAX,
                0 <= i <= self.vertexs@.len(),
                self.vertexs@.len() == g1.values.len(),
                match best {
                    Some(b) => b < g1.values.len() && has_value(g2.values, g1.values[b as int])
                        && (exists|d1: nat, d2: nat|
                        #![trigger is_dist(g1, 0, first_idx(g1.values, g1.values[b as int], 0), d1), is_dist(g2, 0, first_idx(g2.values, g1.values[b as int], 0), d2)]
                        is_dist(g1, 0, first_idx(g1.values, g1.values[b as int], 0), d1)
                            && is_dist(g2, 0, first_idx(g2.values, g1.values[b as int], 0), d2)
                            && best_dist == d1 + d2) && (forall|t: int, e1: nat, e2: nat|
                        #![trigger is_dist(g1, 0, first_idx(g1.values, g1.values[t], 0), e1), is_dist(g2, 0, first_idx(g2.values, g1.values[t], 0), e2)]
                        0 <= t < i && has_value(g2.values, g1.values[t]) && is_dist(
                            g1,
                            0,
                            first_idx(g1.values, g1.values[t], 0),
                            e1,
                        ) && is_dist(g2, 0, first_idx(g2.values, g1.values[t], 0), e2)
                            ==> best_dist <= e1 + e2),
                    None => forall|t: int|
                        0 <= t < i && has_value(g2.values, #[trigger] g1.values[t]) ==> !reachable(
                            g1,
                            0,
                            first_idx(g1.values, g1.values[t], 0),
                        ) || !reachable(g2, 0, first_idx(g2.values, g1.values[t], 0)),
                },
            decreases self.vertexs@.len() - i,
        {
            let value = &self.vertexs[i].value;
            proof {
                assert(value@ == g1.values[i as int]);
            }
            let found = another_graph.get_vertex_id(value);
            match found {
                Some(fid) => {
                    proof {
                        assert(g2.values[fid.0 as int] == value@);
                        assert(has_value(g2.values, value@));
                    }
                    let start1 = &self.vertexs[0].value;
                    let start2 = &another_graph.vertexs[0].value;
                    proof {
                        assert(start1@ == g1.values[0]);
                        assert(start2@ == g2.values[0]);
                        lemma_first_idx_hit(g1.values, start1@, 0, 0);
                        lemma_first_idx_hit(g2.values, start2@, 0, 0);
                    }
                    let d1 = self.distance(start1, value);
                    let d2 = another_graph.distance(start2, value);
                    match d1 {
                        Some(a) => {
                            match d2 {
                                Some(b) => {
                                    let ghost fi1 = first_idx(g1.values, g1.values[i as int], 0);
                                    let ghost fi2 = first_idx(g2.values, g1.values[i as int], 0);
                                    let ghost old_best = best;
                                    let ghost old_best_dist = best_dist;
                                    proof {
                                        assert(is_dist(g1, 0, fi1, a as nat));
                                        assert(is_dist(g2, 0, fi2, b as nat));
                                    }
                                    let total = a + b;
                                    let better = match best {
                                        Some(_) => total < best_dist,
                                        None => true,
                                    };
                                    if better {
                                        best = Some(i);
                                        best_dist = total;
                                    }
                                    proof {
                                        let bb = best.unwrap();
                                        assert(bb < g1.values.len());
                                        assert(has_value(g2.values, g1.values[bb as int]));
                                        if better {
                                            assert(is_dist(
                                                g1,
                                                0,
                                                first_idx(g1.values, g1.values[bb as int], 0),
                                                a as nat,
                                            ) && is_dist(
                                                g2,
                                                0,
                                                first_idx(g2.values, g1.values[bb as int], 0),
                                                b as nat,
                                            ) && best_dist == a as nat + b as nat);
                                        }
                                        assert forall|t: int, e1: nat, e2: nat|
                                            #![trigger is_dist(g1, 0, first_idx(g1.values, g1.values[t], 0), e1), is_dist(g2, 0, first_idx(g2.values, g1.values[t], 0), e2)]
                                            0 <= t < i + 1 && has_value(g2.values, g1.values[t])
                                                && is_dist(
                                                g1,
                                                0,
                                                first_idx(g1.values, g1.values[t], 0),
                                                e1,
                                            ) && is_dist(
                                                g2,
                                                0,
                                                first_idx(g2.values, g1.values[t], 0),
                                                e2,
                                            ) implies best_dist <= e1 + e2 by {
                                            if t == i {
                                                lemma_is_dist_unique(g1, 0, fi1, e1, a as nat);
                                                lemma_is_dist_unique(g2, 0, fi2, e2, b as nat);
                                            } else {
                                                match old_best {
                                                    Some(_) => {
                                                        assert(old_best_dist <= e1 + e2);
                                                    },
                                                    None => {
                                                        assert(has_path(
                                                            g1,
                                                            0,
                                                            first_idx(
                                                                g1.values,
                                                                g1.values[t],
                                                                0,
                                                            ),
                                                            e1,
                                                        ));
                                                        assert(reachable(
                                                            g1,
                                                            0,
                                                            first_idx(
                                                                g1.values,
                                                                g1.values[t],
                                                                0,
                                                            ),
                                                        ));
                                                        assert(has_path(
                                                            g2,
                                                            0,
                                                            first_idx(
                                                                g2.values,
                                                                g1.values[t],
                                                                0,
                                                            ),
                                                            e2,
                                                        ));
                                                        assert(reachable(
                                                            g2,
                                                            0,
                                                            first_idx(
                                                                g2.values,
                                                                g1.values[t],
                                                                0,
                                                            ),
                                                        ));
                                                    },
                                                }
                                            }
                                        }
                                    }
                                },
                                None => {
                                    proof {
                                        lemma_first_idx_found(g2.values, value@, 0, fid.0 as int);
                                        let ghost fi1 = first_idx(
                                            g1.values,
                                            g1.values[i as int],
                                            0,
                                        );
                                        let ghost fi2 = first_idx(
                                            g2.values,
                                            g1.values[i as int],
                                            0,
                                        );
                                        assert(!reachable(g2, 0, fi2));
                                        match best {
                                            Some(_) => {
                                                assert forall|t: int, e1: nat, e2: nat|
                                                    #![trigger is_dist(g1, 0, first_idx(g1.values, g1.values[t], 0), e1), is_dist(g2, 0, first_idx(g2.values, g1.values[t], 0), e2)]
                                                    0 <= t < i + 1 && has_value(
                                                        g2.values,
                                                        g1.values[t],
                                                    ) && is_dist(
                                                        g1,
                                                        0,
                                                        first_idx(g1.values, g1.values[t], 0),
                                                        e1,
                                                    ) && is_dist(
                                                        g2,
                                                        0,
                                                        first_idx(g2.values, g1.values[t], 0),
                                                        e2,
                                                    ) implies best_dist <= e1 + e2 by {
                                                    if t == i {
                                                        assert(has_path(g2, 0, fi2, e2));
                                                        assert(reachable(g2, 0, fi2));
                                                    }
                                                }
                                            },
                                            None => {
                                                assert forall|t: int|
                                                    0 <= t < i + 1 && has_value(
                                                        g2.values,
                                                        #[trigger] g1.values[t],
                                                    ) implies !reachable(
                                                    g1,
                                                    0,
                                                    first_idx(g1.values, g1.values[t], 0),
                                                ) || !reachable(
                                                    g2,
                                                    0,
                                                    first_idx(g2.values, g1.values[t], 0),
                                                ) by {
                                                    if t == i {
                                                        assert(!reachable(
                                                            g2,
                                                            0,
                                                            first_idx(
                                                                g2.values,
                                                                g1.values[t],
                                                                0,
                                                            ),
                                                        ));
                                                    }
                                                }
                                            },
                                        }
                                    }
                                },
                            }
                        },
                        None => {
                            proof {
                                lemma_first_idx_found(g1.values, value@, 0, i as int);
                                let ghost fi1 = first_idx(g1.values, g1.values[i as int], 0);
                                assert(!reachable(g1, 0, fi1));
                                match best {
                                    Some(_) => {
                                        assert forall|t: int, e1: nat, e2: nat|
                                            #![trigger is_dist(g1, 0, first_idx(g1.values, g1.values[t], 0), e1), is_dist(g2, 0, first_idx(g2.values, g1.values[t], 0), e2)]
                                            0 <= t < i + 1 && has_value(g2.values, g1.values[t])
                                                && is_dist(
                                                g1,
                                                0,
                                                first_idx(g1.values, g1.values[t], 0),
                                                e1,
                                            ) && is_dist(
                                                g2,
                                                0,
                                                first_idx(g2.values, g1.values[t], 0),
                                                e2,
                                            ) implies best_dist <= e1 + e2 by {
                                            if t == i {
                                                assert(has_path(g1, 0, fi1, e1));
                                                assert(reachable(g1, 0, fi1));
                                            }
                                        }
                                    },
                                    None => {
                                        assert forall|t: int|
                                            0 <= t < i + 1 && has_value(
                                                g2.values,
                                                #[trigger] g1.values[t],
                                            ) implies !reachable(
                                            g1,
                                            0,
                                            first_idx(g1.values, g1.values[t], 0),
                                        ) || !reachable(
                                            g2,
                                            0,
                                            first_idx(g2.values, g1.values[t], 0),
                                        ) by {
                                            if t == i {
                                                assert(!reachable(
                                                    g1,
                                                    0,
                                                    first_idx(g1.values, g1.values[t], 0),
                                                ));
                                            }
                                        }
                                    },
                                }
                            }
                        },
                    }
                },
                None => {
                    proof {
                        assert(!has_value(g2.values, value@));
                        match best {
                            Some(_) => {
                                assert forall|t: int, e1: nat, e2: nat|
                                    #![trigger is_dist(g1, 0, first_idx(g1.values, g1.values[t], 0), e1), is_dist(g2, 0, first_idx(g2.values, g1.values[t], 0), e2)]
                                    0 <= t < i + 1 && has_value(g2.values, g1.values[t])
                                        && is_dist(
                                        g1,
                                        0,
                                        first_idx(g1.values, g1.values[t], 0),
                                        e1,
                                    ) && is_dist(g2, 0, first_idx(g2.values, g1.values[t], 0), e2)
                                        implies best_dist <= e1 + e2 by {
                                    if t == i {
                                        assert(!has_value(g2.values, g1.values[t]));
                                    }
                                }
                            },
                            None => {
                                assert forall|t: int|
                                    0 <= t < i + 1 && has_value(
                                        g2.values,
                                        #[trigger] g1.values[t],
                                    ) implies !reachable(
                                    g1,
                                    0,
                                    first_idx(g1.values, g1.values[t], 0),
                                ) || !reachable(g2, 0, first_idx(g2.values, g1.values[t], 0)) by {
                                    if t == i {
                                        assert(!has_value(g2.values, g1.values[t]));
                                    }
                                }
                            },
                        }
                    }
                },
            }
            i += 1;
        }
        match best {
            Some(b) => {
                let v = &self.vertexs[b].value;
                proof {
                    assert(v@ == g1.values[b as int]);
                    assert(has_value(g1.values, v@));
                }
                Some(v)
            },
            None => None,
        }
    }
}

/// Following one more edge extends a path by one step./// Following one more edge extends a path by one step.
proof fn lemma_path_extend(g: GraphV, a: int, b: int, n: nat, k: int)
    requires
        has_path(g, a, b, n),
        0 <= k < g.edges.len(),
        g.edges[k].0 == b,
    ensures
        has_path(g, a, g.edges[k].1, n + 1),
    decreases n,
{
    if n == 0 {
        assert(has_path(g, g.edges[k].1, g.edges[k].1, 0nat));
    } else {
        let k0 = choose|k0: int|
            0 <= k0 < g.edges.len() && (#[trigger] g.edges[k0]).0 == a && has_path(
                g,
                g.edges[k0].1,
                b,
                (n - 1) as nat,
            );
        lemma_path_extend(g, g.edges[k0].1, b, (n - 1) as nat, k);
        assert(has_path(g, g.edges[k0].1, g.edges[k].1, n));
    }
}

impl Default for Graph {
    /// The empty graph.
    fn default() -> (r: Self)
        ensures
            r@.values == Seq::<Seq<char>>::empty(),
            r@.edges == Seq::<(int, int)>::empty(),
            graph_wf(r@),
    {
        Graph::new()
    }
}

/// A commit's identity, in hex.
pub type CommitHash = String;

/// A graph over commit hashes.
pub type CommitGraph = Graph;

impl Graph {
    /// Records one commit and its parent edges: the decision step of the
    /// history walk, whose store reads the caller performs. The vertex
    /// arena keeps its old entries and gains at most the missing names;
    /// the edge list grows by exactly one edge per parent, in
    /// declaration order, each from the commit's vertex to that
    /// parent's vertex.
    pub fn add_commit(&mut self, hash: String, parents: Vec<String>)
        requires
            graph_wf(old(self)@),
        ensures
            graph_wf(final(self)@),
            final(self)@.values.len() >= old(self)@.values.len(),
            forall|t: int|
                0 <= t < old(self)@.values.len() ==> final(self)@.values[t] == old(
                    self,
                )@.values[t],
            has_value(final(self)@.values, hash@),
            forall|t: int|
                0 <= t < parents@.len() ==> has_value(
                    final(self)@.values,
                    (#[trigger] parents@[t])@,
                ),
            final(self)@.edges.len() == old(self)@.edges.len() + parents@.len(),
            forall|t: int|
                0 <= t < old(self)@.edges.len() ==> final(self)@.edges[t] == old(self)@.edges[t],
            forall|t: int|
                0 <= t < parents@.len() ==> final(self)@.edges[old(self)@.edges.len() + t] == (
                    first_idx(final(self)@.values, hash@, 0),
                    first_idx(final(self)@.values, (#[trigger] parents@[t])@, 0),
                ),
    {
        let ghost h_at = hash@;
        let ghost pre = self@;
        let child_id = self.add_vertex(hash);
        proof {
            assert(self@.values[child_id.0 as int] == h_at);
            assert(has_value(self@.values, h_at));
            if child_id.0 < pre.values.len() {
                lemma_first_idx_hit(self@.values, h_at, 0, child_id.0 as int);
            } else {
                assert forall|t: int| 0 <= t < child_id.0 implies self@.values[t] != h_at by {
                    assert(self@.values[t] == pre.values[t]);
                }
                lemma_first_idx_hit(self@.values, h_at, 0, child_id.0 as int);
            }
        }
        let mut t: usize = 0;
        while t < parents.len()
            invariant
                graph_wf(self@),
                0 <= t <= parents@.len(),
                child_id.0 < self@.values.len(),
                self@.values.len() >= pre.values.len(),
                forall|x: int| 0 <= x < pre.values.len() ==> self@.values[x] == pre.values[x],
                child_id.0 == first_idx(self@.values, h_at, 0),
                has_value(self@.values, h_at),
                forall|x: int|
                    0 <= x < t ==> has_value(self@.values, (#[trigger] parents@[x])@),
                self@.edges.len() == pre.edges.len() + t,
                forall|x: int| 0 <= x < pre.edges.len() ==> self@.edges[x] == pre.edges[x],
                forall|x: int|
                    0 <= x < t ==> self@.edges[pre.edges.len() + x] == (
                        first_idx(self@.values, h_at, 0),
                        first_idx(self@.values, (#[trigger] parents@[x])@, 0),
                    ),
            decreases parents@.len() - t,
        {
            let p = crate::repository::clone_string(&parents[t]);
            let ghost p_at = p@;
            let ghost before = self@;
            let parent_id = self.add_vertex(p);
            proof {
                assert(self@.values[parent_id.0 as int] == p_at);
                assert(has_value(self@.values, p_at));
                if parent_id.0 < before.values.len() {
                    lemma_first_idx_hit(self@.values, p_at, 0, parent_id.0 as int);
                } else {
                    assert(self@.values == before.values.push(p_at));
                    assert forall|x: int| 0 <= x < parent_id.0 implies self@.values[x]
                        != p_at by {
                        assert(self@.values[x] == before.values[x]);
                    }
                    lemma_first_idx_hit(self@.values, p_at, 0, parent_id.0 as int);
                    // first occurrences of already present names stay put
                    lemma_first_idx_stable_push(before.values, h_at, p_at);
                    assert forall|x: int|
                        0 <= x < t implies first_idx(
                        self@.values,
                        (#[trigger] parents@[x])@,
                        0,
                    ) == first_idx(before.values, parents@[x]@, 0) by {
                        assert(before.edges[pre.edges.len() + x] == (
                            first_idx(before.values, h_at, 0),
                            first_idx(before.values, parents@[x]@, 0),
                        ));
                        lemma_first_idx_stable_push(before.values, parents@[x]@, p_at);
                    }
                }
                assert forall|x: int|
                    0 <= x < t implies has_value(self@.values, (#[trigger] parents@[x])@) by {
                    let w = choose|w: int|
                        0 <= w < before.values.len() && before.values[w] == parents@[x]@;
                    assert(self@.values[w] == parents@[x]@);
                }
                let w = choose|w: int| 0 <= w < before.values.len() && before.values[w] == h_at;
                assert(self@.values[w] == h_at);
            }
            let ghost before_edge = self@;
            self.add_edges(child_id, parent_id);
            proof {
                assert(self@.edges[pre.edges.len() + t] == (
                    child_id.0 as int,
                    parent_id.0 as int,
                ));
                assert(parent_id.0 == first_idx(self@.values, p_at, 0));
                assert forall|x: int| 0 <= x < pre.edges.len() implies self@.edges[x]
                    == pre.edges[x] by {
                    assert(self@.edges[x] == before_edge.edges[x]);
                }
                assert forall|x: int|
                    0 <= x < t + 1 implies self@.edges[pre.edges.len() + x] == (
                    first_idx(self@.values, h_at, 0),
                    first_idx(self@.values, (#[trigger] parents@[x])@, 0),
                ) by {
                    if x < t {
                        assert(self@.edges[pre.edges.len() + x] == before_edge.edges[pre.edges.len()
                            + x]);
                    }
                }
            }
            t += 1;
        }
    }
}

} // verus!
