use mis_counter::codec::parse_adjacency;
use mis_counter::tree::Tree;

fn build(rows: Vec<Vec<usize>>) -> Tree {
    Tree::from_adjacency_list(0, rows).unwrap()
}

#[test]
fn render_one_line_per_entry_ascending() {
    let t = build(vec![vec![1, 3], vec![0, 1, 2]]);
    assert_eq!(t.render_adjacency(), b"0 1 2\n1 3\n".to_vec());
}

#[test]
fn render_childless_entry_has_no_trailing_space() {
    let t = build(vec![vec![0]]);
    assert_eq!(t.render_adjacency(), b"0\n".to_vec());
}

#[test]
fn parse_space_separated_lines() {
    let rows = parse_adjacency(&b"0 1 2\n1 3\n".to_vec());
    assert_eq!(rows, vec![vec![0, 1, 2], vec![1, 3]]);
}

#[test]
fn parse_accepts_commas_and_tabs() {
    let rows = parse_adjacency(&b"0,1\t2\n".to_vec());
    assert_eq!(rows, vec![vec![0, 1, 2]]);
}

#[test]
fn parse_skips_malformed_tokens() {
    let rows = parse_adjacency(&b"0 x 1 12a 2\n".to_vec());
    assert_eq!(rows, vec![vec![0, 1, 2]]);
}

#[test]
fn parse_skips_oversized_numbers() {
    let rows = parse_adjacency(&b"0 99999999999999999999999999999 1\n".to_vec());
    assert_eq!(rows, vec![vec![0, 1]]);
}

#[test]
fn parse_keeps_empty_lines_as_empty_rows() {
    let rows = parse_adjacency(&b"\n0 1\n\n".to_vec());
    assert_eq!(rows, vec![vec![], vec![0, 1], vec![]]);
}

#[test]
fn parse_tolerates_carriage_returns() {
    let rows = parse_adjacency(&b"0 1\r\n1 2\r\n".to_vec());
    assert_eq!(rows, vec![vec![0, 1], vec![1, 2]]);
}

#[test]
fn parse_without_final_newline() {
    let rows = parse_adjacency(&b"0 1".to_vec());
    assert_eq!(rows, vec![vec![0, 1]]);
}

#[test]
fn parse_leading_zeroes() {
    let rows = parse_adjacency(&b"007 008\n".to_vec());
    assert_eq!(rows, vec![vec![7, 8]]);
}

#[test]
fn round_trip_preserves_every_child_list() {
    let t = build(vec![vec![0, 2, 1], vec![2, 3], vec![1, 4, 5]]);
    let text = t.render_adjacency();
    let rows = parse_adjacency(&text);
    let back = Tree::from_adjacency_list(0, rows).unwrap();
    assert_eq!(back.node_count(), t.node_count());
    assert_eq!(back.nodes(), t.nodes());
    for n in 0..6 {
        assert_eq!(back.children(n), t.children(n));
    }
}

#[test]
fn round_trip_of_generated_tree() {
    let t = Tree::generate(15, 4);
    let rows = parse_adjacency(&t.render_adjacency());
    let back = Tree::from_adjacency_list(0, rows).unwrap();
    assert_eq!(back.nodes(), t.nodes());
    assert_eq!(back.count_mis(), t.count_mis());
}
