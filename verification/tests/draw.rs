use dagdraw::draw_dag;
use dagdraw::layout::assign_layout;
use dagdraw::render::render_rows;
use dagdraw::rows::{build_rows, Cell};
use dagdraw::tree::Node;

fn n(value: usize, kids: Vec<Node>) -> Node {
    Node { text: value.to_string(), kids }
}

#[test]
fn first() {
    let a = n(2, Vec::new());
    let b = n(1, vec![a]);

    let graph = draw_dag(b, 1);
    assert_eq!(
        graph,
        "\
            1\n\
            │\n\
            2\
        "
    );
}

#[test]
fn second() {
    let a = n(15, Vec::new());
    let b = n(14, Vec::new());
    let c = n(13, Vec::new());
    let d = n(12, vec![a]);
    let e = n(121, vec![c, b]);
    let f = n(10, vec![d, e]);

    let graph = draw_dag(f, 1);
    assert_eq!(
        graph,
        "\
            10\n\
            ├───────┐\n\
            121     12\n\
            ├───┐   │\n\
            14  13  15\
        "
    );
}

#[test]
fn three() {
    let a = n(1, Vec::new());
    let b = n(2, Vec::new());
    let c = n(3, Vec::new());
    let d = n(4, Vec::new());
    let e = n(5, vec![a]);
    let f = n(6, Vec::new());
    let g = n(7, vec![b]);
    let h = n(8, vec![d, c]);
    let i = n(9, vec![e]);
    let j = n(10, vec![h, g, f]);
    let k = n(11, vec![j, i]);
    let l = n(12, vec![k]);

    let graph = draw_dag(l, 1);
    assert_eq!(
        graph,
        "\
            12\n\
            │\n\
            11\n\
            ├───┐\n\
            9   10\n\
            │   ├──┬──┐\n\
            5   6  7  8\n\
            │      │  ├──┐\n\
            1      2  3  4\
        "
    );
}

#[test]
fn render_is_deterministic() {
    let tree = n(10, vec![n(12, vec![n(15, Vec::new())]), n(121, Vec::new())]);
    let once = draw_dag(tree.clone(), 1);
    let twice = draw_dag(tree, 1);
    assert_eq!(once, twice);
}

#[test]
fn later_sibling_renders_leftmost() {
    let tree = n(9, vec![n(1, Vec::new()), n(2, Vec::new())]);
    let graph = draw_dag(tree, 1);
    assert_eq!(
        graph,
        "\
            9\n\
            ├──┐\n\
            2  1\
        "
    );
}

#[test]
fn single_child_shares_column() {
    let tree = n(5, vec![n(6, vec![n(7, Vec::new())])]);
    let entries = assign_layout(tree, 3);
    assert_eq!(entries.len(), 3);
    assert_eq!(entries[0].x, 0);
    assert_eq!(entries[1].x, 0);
    assert_eq!(entries[2].x, 0);
    assert_eq!(entries[0].y, 0);
    assert_eq!(entries[1].y, 1);
    assert_eq!(entries[2].y, 2);
}

#[test]
fn sibling_columns_advance() {
    let tree = n(9, vec![n(1, Vec::new()), n(2, Vec::new())]);
    let entries = assign_layout(tree, 1);
    assert_eq!(entries.len(), 3);
    assert_eq!(entries[1].label, "2");
    assert_eq!(entries[2].label, "1");
    assert!(entries[1].x < entries[2].x);
    assert_eq!(entries[2].x, 3);
}

#[test]
fn row_count_matches_depth() {
    let chain = n(1, vec![n(2, vec![n(3, vec![n(4, Vec::new())])])]);
    let graph = draw_dag(chain, 1);
    let label_lines = graph.split('\n').step_by(2).count();
    assert_eq!(label_lines, 4);
    assert_eq!(graph.split('\n').count(), 7);
}

#[test]
fn leaf_row_ends_output() {
    let tree = n(8, vec![n(4, Vec::new()), n(3, Vec::new())]);
    let graph = draw_dag(tree, 1);
    assert!(!graph.ends_with('\n'));
    assert_eq!(graph.split('\n').last(), Some("3  4"));
}

#[test]
fn zero_spacing() {
    let tree = n(9, vec![n(1, Vec::new()), n(2, Vec::new())]);
    let graph = draw_dag(tree, 0);
    assert_eq!(
        graph,
        "\
            9\n\
            ├─┐\n\
            2 1\
        "
    );
}

#[test]
fn single_node_has_no_connector() {
    let graph = draw_dag(n(7, Vec::new()), 1);
    assert_eq!(graph, "7");
}

#[test]
fn empty_label_degrades() {
    let root = Node { text: String::new(), kids: Vec::new() };
    assert_eq!(draw_dag(root, 1), "");

    let parent = Node {
        text: String::new(),
        kids: vec![n(5, Vec::new()), n(6, Vec::new())],
    };
    let graph = draw_dag(parent, 1);
    assert_eq!(
        graph,
        "\
            \n\
            ├──┐\n\
            6  5\
        "
    );
}

#[test]
fn wide_spacing() {
    let tree = n(9, vec![n(1, Vec::new()), n(2, Vec::new())]);
    let graph = draw_dag(tree, 4);
    assert_eq!(
        graph,
        "\
            9\n\
            ├─────┐\n\
            2     1\
        "
    );
}

#[test]
fn renders_prepared_rows() {
    let rows = vec![
        vec![Cell { x: 0, label: String::from("a") }],
        vec![Cell { x: 0, label: String::from("b") }],
    ];
    assert_eq!(render_rows(&rows), "a\n│\nb");
}

#[test]
fn shared_subtree_rendered_twice() {
    let shared = n(5, Vec::new());
    let root = n(9, vec![shared.clone(), shared]);
    let graph = draw_dag(root, 1);
    assert_eq!(
        graph,
        "\
            9\n\
            ├──┐\n\
            5  5\
        "
    );
}

#[test]
fn buckets_by_row() {
    let tree = n(9, vec![n(1, Vec::new()), n(2, Vec::new())]);
    let entries = assign_layout(tree, 1);
    let rows = build_rows(&entries);
    assert_eq!(rows.len(), 2);
    assert_eq!(rows[0].len(), 1);
    assert_eq!(rows[1].len(), 2);
    assert_eq!(rows[1][0].label, "2");
    assert_eq!(rows[1][1].label, "1");
}
