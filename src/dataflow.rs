use vstd::prelude::*;
use std::collections::hash_map::RandomState;
use std::hash::BuildHasher;
use petgraph::Directed;
use petgraph::graphmap::GraphMap;
use crate::sheet::{Cell, CellIndex, Sheet, cell_deps, cell_model};

verus! {

#[verifier::external_type_specification]
#[verifier::external_body]
#[verifier::reject_recursive_types(N)]
#[verifier::reject_recursive_types(E)]
#[verifier::reject_recursive_types(Ty)]
#[verifier::reject_recursive_types(S)]
pub struct ExGraphMap<N, E, Ty, S: BuildHasher>(GraphMap<N, E, Ty, S>);

#[verifier::external_type_specification]
#[verifier::external_body]
pub struct ExDirected(Directed);

/// A directed graph whose nodes are (column, row) coordinates.
pub type CellGraph = GraphMap<(usize, usize), (), Directed, RandomState>;

/// The directed edges of a graph, each as (source, target).
pub uninterp spec fn graph_edges(g: CellGraph) -> Set<((usize, usize), (usize, usize))>;

/// The nodes of a graph.
pub uninterp spec fn graph_nodes(g: CellGraph) -> Set<(usize, usize)>;

/// Relies on GraphMap::new: a new graph has no nodes and no edges.
#[verifier::external_body]
fn new_graph() -> (g: CellGraph)
    ensures
        graph_edges(g) == Set::<((usize, usize), (usize, usize))>::empty(),
        graph_nodes(g) == Set::<(usize, usize)>::empty(),
{
    GraphMap::new()
}


/// Relies on GraphMap::add_edge: the edge from `a` to `b` is in the graph
/// afterwards, once, and no other edge comes or goes; `a` and `b` are nodes
/// afterwards, and no other node comes or goes.
#[verifier::external_body]
fn add_edge(g: &mut CellGraph, a: (usize, usize), b: (usize, usize))
    ensures
        graph_edges(*final(g)) == graph_edges(*old(g)).insert((a, b)),
        graph_nodes(*final(g)) == graph_nodes(*old(g)).insert(a).insert(b),
{
    g.add_edge(a, b, ());
}

/// Relies on GraphMap::edge_count: the number of distinct edges.
#[verifier::external_body]
fn edge_count(g: &CellGraph) -> (r: usize)
    ensures
        r == graph_edges(*g).len(),
{
    g.edge_count()
}

/// Relies on GraphMap::node_count: the number of distinct nodes.
#[verifier::external_body]
fn node_count(g: &CellGraph) -> (r: usize)
    ensures
        r == graph_nodes(*g).len(),
{
    g.node_count()
}

/// Relies on GraphMap::contains_edge: whether the edge from `a` to `b` is in the graph.
#[verifier::external_body]
fn contains_edge(g: &CellGraph, a: (usize, usize), b: (usize, usize)) -> (r: bool)
    ensures
        r == graph_edges(*g).contains((a, b)),
{
    g.contains_edge(a, b)
}

/// The edge from a dependency to the cell that reads it.
pub open spec fn dep_edge(d: CellIndex, target: (usize, usize)) -> ((usize, usize), (usize, usize)) {
    ((d.col, d.row), target)
}

/// The cells that the cell at row `i`, column `j` reads.
pub open spec fn deps_at(data: Seq<Vec<Cell>>, i: int, j: int) -> Seq<CellIndex> {
    cell_deps(cell_model(data[i]@[j]))
}

/// True of the position of the `k`-th dependency of the cell at row `i`, column `j`.
pub open spec fn is_dep_pos(data: Seq<Vec<Cell>>, i: int, j: int, k: int) -> bool {
    0 <= i < data.len() && 0 <= j < data[i].len() && 0 <= k < deps_at(data, i, j).len()
}

/// The edge for the `k`-th dependency of the cell at row `i`, column `j`.
pub open spec fn edge_at(data: Seq<Vec<Cell>>, i: int, j: int, k: int) -> (
    (usize, usize),
    (usize, usize),
) {
    dep_edge(deps_at(data, i, j)[k], (j as usize, i as usize))
}

/// Every edge from a cell that some formula reads to the cell of that formula.
pub open spec fn sheet_edges(data: Seq<Vec<Cell>>) -> Set<((usize, usize), (usize, usize))> {
    Set::new(
        |e: ((usize, usize), (usize, usize))|
            exists|i: int, j: int, k: int| is_dep_pos(data, i, j, k) && e == #[trigger] edge_at(data, i, j, k),
    )
}

/// A sheet's edges depend only on which cells each formula reads, not on how
/// often or in what order: a formula that reads a cell twice gives one edge,
/// as one that reads it once does. So two sheets of the same shape whose cells
/// read the same sets of cells have the same edges.
pub proof fn lemma_repeated_reads_one_edge(d1: Seq<Vec<Cell>>, d2: Seq<Vec<Cell>>)
    requires
        d1.len() == d2.len(),
        forall|i: int| 0 <= i < d1.len() ==> #[trigger] d1[i].len() == d2[i].len(),
        forall|i: int, j: int|
            0 <= i < d1.len() && 0 <= j < d1[i].len() ==> #[trigger] deps_at(d1, i, j).to_set()
                == deps_at(d2, i, j).to_set(),
    ensures
        sheet_edges(d1) == sheet_edges(d2),
{
    assert forall|e| sheet_edges(d1).contains(e) implies sheet_edges(d2).contains(e) by {
        let (i, j, k) = choose|i: int, j: int, k: int|
            is_dep_pos(d1, i, j, k) && e == #[trigger] edge_at(d1, i, j, k);
        let x = deps_at(d1, i, j)[k];
        assert(deps_at(d1, i, j).to_set().contains(x));
        assert(deps_at(d2, i, j).to_set().contains(x));
        let k2 = choose|k2: int| 0 <= k2 < deps_at(d2, i, j).len() && deps_at(d2, i, j)[k2] == x;
        assert(is_dep_pos(d2, i, j, k2) && e == edge_at(d2, i, j, k2));
    }
    assert forall|e| sheet_edges(d2).contains(e) implies sheet_edges(d1).contains(e) by {
        let (i, j, k) = choose|i: int, j: int, k: int|
            is_dep_pos(d2, i, j, k) && e == #[trigger] edge_at(d2, i, j, k);
        let x = deps_at(d2, i, j)[k];
        assert(deps_at(d2, i, j).to_set().contains(x));
        assert(deps_at(d1, i, j).to_set().contains(x));
        let k1 = choose|k1: int| 0 <= k1 < deps_at(d1, i, j).len() && deps_at(d1, i, j)[k1] == x;
        assert(is_dep_pos(d1, i, j, k1) && e == edge_at(d1, i, j, k1));
    }
    assert(sheet_edges(d1) =~= sheet_edges(d2));
}

/// The cells at either end of some edge.
pub open spec fn endpoints(es: Set<((usize, usize), (usize, usize))>) -> Set<(usize, usize)> {
    Set::new(
        |v: (usize, usize)|
            exists|e: ((usize, usize), (usize, usize))| es.contains(e) && (e.0 == v || e.1 == v),
    )
}

proof fn lemma_endpoints_insert(
    es: Set<((usize, usize), (usize, usize))>,
    a: (usize, usize),
    b: (usize, usize),
)
    ensures
        endpoints(es.insert((a, b))) == endpoints(es).insert(a).insert(b),
{
    assert forall|v| endpoints(es).insert(a).insert(b).contains(v) implies endpoints(
        es.insert((a, b)),
    ).contains(v) by {
        if v == a || v == b {
            assert(es.insert((a, b)).contains((a, b)));
        } else {
            let e = choose|e: ((usize, usize), (usize, usize))| es.contains(e) && (e.0 == v || e.1 == v);
            assert(es.insert((a, b)).contains(e));
        }
    }
    assert(endpoints(es.insert((a, b))) =~= endpoints(es).insert(a).insert(b));
}

/// The edges of the dependencies that come before dependency `k` of the cell at
/// row `i`, column `j`, in row-major order.
pub open spec fn edges_before(data: Seq<Vec<Cell>>, i: int, j: int, k: int) -> Set<
    ((usize, usize), (usize, usize)),
> {
    Set::new(
        |e: ((usize, usize), (usize, usize))|
            exists|a: int, b: int, c: int|
                is_dep_pos(data, a, b, c) && (a < i || (a == i && (b < j || (b == j && c < k))))
                    && e == #[trigger] edge_at(data, a, b, c),
    )
}

/// The dependency graph of a sheet: an edge goes from each cell that a formula
/// reads to the cell that holds the formula.
pub struct DataFlowGraph(pub CellGraph);

impl DataFlowGraph {
    pub open spec fn edges(&self) -> Set<((usize, usize), (usize, usize))> {
        graph_edges(self.0)
    }

    pub open spec fn nodes(&self) -> Set<(usize, usize)> {
        graph_nodes(self.0)
    }

    /// A graph without nodes or edges.
    pub fn new() -> (r: DataFlowGraph)
        ensures
            r.edges() == Set::<((usize, usize), (usize, usize))>::empty(),
            r.nodes() == Set::<(usize, usize)>::empty(),
    {
        DataFlowGraph(new_graph())
    }

    /// The graph of a sheet: one edge from each cell that a formula reads to the
    /// formula's cell, each edge once; its nodes are the ends of those edges.
    pub fn from_sheet(sheet: &Sheet) -> (r: DataFlowGraph)
        requires
            forall|i: int, j: int|
                0 <= i < sheet.data@.len() && 0 <= j < sheet.data@[i].len() ==> #[trigger] deps_at(
                    sheet.data@,
                    i,
                    j,
                ).len() <= usize::MAX,
        ensures
            r.edges() == sheet_edges(sheet.data@),
            r.nodes() == endpoints(sheet_edges(sheet.data@)),
    {
        let ghost data = sheet.data@;
        let mut graph = DataFlowGraph::new();
        let rows = sheet.rows();
        let mut i: usize = 0;
        proof {
            assert(graph.edges() =~= edges_before(data, 0, 0, 0));
            assert(graph.nodes() =~= endpoints(graph.edges()));
        }
        while i < rows.len()
            invariant
                *rows == sheet.data,
                data == sheet.data@,
                i <= rows.len(),
                forall|a: int, b: int|
                    0 <= a < data.len() && 0 <= b < data[a].len() ==> #[trigger] deps_at(data, a, b).len()
                        <= usize::MAX,
                graph.edges() == edges_before(data, i as int, 0, 0),
                graph.nodes() == endpoints(graph.edges()),
            decreases rows.len() - i,
        {
            let row = &rows[i];
            let mut j: usize = 0;
            while j < row.len()
                invariant
                    *rows == sheet.data,
                    data == sheet.data@,
                    i < rows.len(),
                    *row == data[i as int],
                    j <= row.len(),
                    forall|a: int, b: int|
                        0 <= a < data.len() && 0 <= b < data[a].len() ==> #[trigger] deps_at(data, a, b).len()
                            <= usize::MAX,
                    graph.edges() == edges_before(data, i as int, j as int, 0),
                    graph.nodes() == endpoints(graph.edges()),
                decreases row.len() - j,
            {
                proof {
                    assert(deps_at(data, i as int, j as int).len() <= usize::MAX);
                }
                let deps = row[j].get_dependencies();
                let mut k: usize = 0;
                while k < deps.len()
                    invariant
                        data == sheet.data@,
                        i < data.len(),
                        *row == data[i as int],
                        j < row.len(),
                        deps@ == deps_at(data, i as int, j as int),
                        k <= deps.len(),
                        graph.edges() == edges_before(data, i as int, j as int, k as int),
                        graph.nodes() == endpoints(graph.edges()),
                    decreases deps.len() - k,
                {
                    let d = deps[k];
                    proof {
                        lemma_endpoints_insert(graph.edges(), (d.col, d.row), (j, i));
                    }
                    add_edge(&mut graph.0, (d.col, d.row), (j, i));
                    proof {
                        assert(edge_at(data, i as int, j as int, k as int) == ((d.col, d.row), (j, i)));
                        assert(is_dep_pos(data, i as int, j as int, k as int));
                        assert(graph.edges() =~= edges_before(data, i as int, j as int, k + 1));
                    }
                    k = k + 1;
                }
                proof {
                    assert(edges_before(data, i as int, j as int, k as int) =~= edges_before(
                        data,
                        i as int,
                        j + 1,
                        0,
                    ));
                }
                j = j + 1;
            }
            proof {
                assert(edges_before(data, i as int, j as int, 0) =~= edges_before(data, i + 1, 0, 0));
            }
            i = i + 1;
        }
        proof {
            assert(edges_before(data, i as int, 0, 0) =~= sheet_edges(data));
        }
        graph
    }

    /// The number of distinct edges.
    pub fn edge_count(&self) -> (r: usize)
        ensures
            r == self.edges().len(),
    {
        edge_count(&self.0)
    }

    /// The number of distinct nodes.
    pub fn node_count(&self) -> (r: usize)
        ensures
            r == self.nodes().len(),
    {
        node_count(&self.0)
    }

    /// Whether the graph has an edge from cell `from` to cell `to`.
    pub fn contains_edge(&self, from: CellIndex, to: CellIndex) -> (r: bool)
        ensures
            r == self.edges().contains(((from.col, from.row), (to.col, to.row))),
    {
        contains_edge(&self.0, (from.col, from.row), (to.col, to.row))
    }
}

} // verus!
