use rollup::dataflow::DataFlowGraph;
use rollup::parse::parse;
use rollup::sheet::{Cell, CellIndex, Formula, Range, Sheet};

fn text(s: &str) -> Cell {
    Cell::new_text(s.to_string())
}

#[test]
fn range_dependencies_row_major() {
    let f = Formula::Range(Range::new((1, 2), (2, 3)));
    assert_eq!(
        f.get_dependencies(),
        vec![
            CellIndex::new(1, 2),
            CellIndex::new(2, 2),
            CellIndex::new(1, 3),
            CellIndex::new(2, 3),
        ]
    );
}

#[test]
fn range_dependency_count_and_uniqueness() {
    let r = Range::new((3, 5), (6, 9));
    let deps = r.get_dependencies();
    assert_eq!(deps.len(), (6 - 3 + 1) * (9 - 5 + 1));
    let mut sorted = deps.clone();
    sorted.sort();
    sorted.dedup();
    assert_eq!(sorted.len(), deps.len());
    assert_eq!(Range::new((4, 4), (4, 4)).get_dependencies(), vec![CellIndex::new(4, 4)]);
}

#[test]
fn reversed_range_reads_nothing() {
    assert_eq!(Range::new((2, 0), (1, 0)).get_dependencies(), vec![]);
    assert_eq!(Range::new((0, 2), (0, 1)).get_dependencies(), vec![]);
}

#[test]
fn function_dependencies_follow_arguments() {
    let f = Formula::Function(
        "F".to_string(),
        vec![
            Formula::Range(Range::new((0, 1), (0, 1))),
            Formula::Text("t".to_string()),
            Formula::Number(4),
            Formula::Function("G".to_string(), vec![Formula::Range(Range::new((2, 0), (3, 0)))]),
        ],
    );
    assert_eq!(
        f.get_dependencies(),
        vec![CellIndex::new(0, 1), CellIndex::new(2, 0), CellIndex::new(3, 0)]
    );
}

#[test]
fn one_edge_from_text_to_formula() {
    let sheet = Sheet::from_vec(vec![
        vec![text("5"), parse("=SUM(A1:A1)").unwrap()],
        vec![text(""), text("")],
    ]);
    let graph = DataFlowGraph::from_sheet(&sheet);
    assert_eq!(graph.edge_count(), 1);
    assert!(graph.contains_edge(CellIndex::new(0, 0), CellIndex::new(1, 0)));
    assert!(!graph.contains_edge(CellIndex::new(1, 0), CellIndex::new(0, 0)));
}

#[test]
fn repeated_reference_gives_one_edge() {
    let sheet = Sheet::from_vec(vec![vec![
        text("1"),
        parse("=SUM(A1:A1, A1:A1, A1:B1)").unwrap(),
    ]]);
    let graph = DataFlowGraph::from_sheet(&sheet);
    assert_eq!(graph.edge_count(), 2);
    assert!(graph.contains_edge(CellIndex::new(0, 0), CellIndex::new(1, 0)));
    assert!(graph.contains_edge(CellIndex::new(1, 0), CellIndex::new(1, 0)));
}

#[test]
fn text_cells_give_no_edges() {
    let sheet = Sheet::from_vec(vec![vec![parse("hello").unwrap(), text("A1:B2")]]);
    assert_eq!(DataFlowGraph::from_sheet(&sheet).edge_count(), 0);
    assert_eq!(DataFlowGraph::from_sheet(&Sheet::new()).edge_count(), 0);
    assert_eq!(DataFlowGraph::new().edge_count(), 0);
}

#[test]
fn edges_point_from_dependency_to_formula_cell() {
    let sheet = Sheet::from_vec(vec![
        vec![text("1"), text("2")],
        vec![parse("=SUM(A1:B1)").unwrap(), parse("=MAX(A2:A2)").unwrap()],
    ]);
    let graph = DataFlowGraph::from_sheet(&sheet);
    assert_eq!(graph.edge_count(), 3);
    assert!(graph.contains_edge(CellIndex::new(0, 0), CellIndex::new(0, 1)));
    assert!(graph.contains_edge(CellIndex::new(1, 0), CellIndex::new(0, 1)));
    assert!(graph.contains_edge(CellIndex::new(0, 1), CellIndex::new(1, 1)));
    assert_eq!(sheet.rows().len(), 2);
}

#[test]
fn dependency_counts() {
    assert_eq!(Range::new((0, 0), (2, 3)).dependency_count(), Some(12));
    assert_eq!(Range::new((3, 0), (2, 3)).dependency_count(), Some(0));
    assert_eq!(Range::new((0, 0), (usize::MAX, 0)).dependency_count(), None);
    assert_eq!(Range::new((0, 0), (1 << 40, 1 << 40)).dependency_count(), None);
    assert_eq!(parse("=F(A1:B2, C3:C3)").unwrap().dependency_count(), Some(5));
    assert_eq!(text("A1:B2").dependency_count(), Some(0));
    let huge = Formula::Function(
        "F".to_string(),
        vec![
            Formula::Range(Range::new((0, 0), (0, usize::MAX - 1))),
            Formula::Range(Range::new((0, 0), (1, 0))),
        ],
    );
    assert_eq!(huge.dependency_count(), None);
}

#[test]
fn nodes_are_the_ends_of_edges() {
    assert_eq!(DataFlowGraph::new().node_count(), 0);
    let lone = Sheet::from_vec(vec![vec![Cell::Text("hello".to_string())]]);
    let graph = DataFlowGraph::from_sheet(&lone);
    assert_eq!(graph.edge_count(), 0);
    assert_eq!(graph.node_count(), 0);
    let sheet = Sheet::from_vec(vec![
        vec![text("1"), text("2"), text("3")],
        vec![parse("=SUM(A1:B1)").unwrap(), text(""), text("")],
    ]);
    let graph = DataFlowGraph::from_sheet(&sheet);
    assert_eq!(graph.edge_count(), 2);
    assert_eq!(graph.node_count(), 3);
}
