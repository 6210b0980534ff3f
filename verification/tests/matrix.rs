use hllset::collections::OrdSet;
use hllset::matrix::{SparseAdjacencyMatrix, TokenIndex};
use hllset::ngrams::token_bit_position;

#[test]
fn test_increment_and_get() {
    let mut m = SparseAdjacencyMatrix::new();
    m.increment_edge(b"a", b"b");
    m.increment_edge(b"a", b"b");
    m.increment_edge(b"b", b"c");

    let row_a = token_bit_position(b"a");
    let col_b = token_bit_position(b"b");
    let col_c = token_bit_position(b"c");

    assert_eq!(m.get(row_a, col_b), 2);
    assert_eq!(m.get(token_bit_position(b"b"), col_c), 1);
    assert_eq!(m.get(row_a, col_c), 0);
    assert_eq!(m.get_token(b"a", b"b"), 2);
    assert_eq!(m.nonzero_cells(), 2);
    assert_eq!(m.total_follows(), 3);
}

#[test]
fn test_successors_sorted() {
    let mut m = SparseAdjacencyMatrix::new();
    m.increment_edge(b"a", b"x");
    m.increment_edge(b"a", b"y");
    m.increment_edge(b"a", b"y");

    let row_a = token_bit_position(b"a");
    let succ = m.successors(row_a);
    assert_eq!(succ.len(), 2);
    assert_eq!(succ[0].0, token_bit_position(b"y"));
    assert_eq!(succ[0].1, 2);
    assert_eq!(succ[1].0, token_bit_position(b"x"));
    assert_eq!(succ[1].1, 1);
}

#[test]
fn test_increment_2grams_ignores_malformed() {
    let mut m = SparseAdjacencyMatrix::new();
    m.increment_2grams(&[b"a\0b".to_vec(), b"not-a-2gram".to_vec()]);
    assert_eq!(m.total_follows(), 1);
}

#[test]
fn test_top_links() {
    let mut m = SparseAdjacencyMatrix::new();
    m.increment_edge(b"the", b"cat");
    m.increment_edge(b"the", b"cat");
    m.increment_edge(b"cat", b"sat");

    let top = m.top_links(1);
    assert_eq!(top.len(), 1);
    assert_eq!(top[0].0, b"the".to_vec());
    assert_eq!(top[0].1, b"cat".to_vec());
    assert_eq!(top[0].2, 2);
}

#[test]
fn test_shape_effective_size() {
    let mut m = SparseAdjacencyMatrix::new();
    m.increment_edge(b"a", b"b");
    m.increment_edge(b"a", b"c");
    m.increment_edge(b"b", b"c");
    let (rows, cols, cells) = m.shape();
    assert_eq!(rows, 2);
    assert_eq!(cols, 2);
    assert_eq!(cells, 3);
}

#[test]
fn test_index_is_subset_of() {
    let mut m = SparseAdjacencyMatrix::new();
    m.increment_edge(b"a", b"b");
    m.increment_edge(b"b", b"c");

    let mut vocab: OrdSet<u32> = OrdSet::new();
    vocab.insert(token_bit_position(b"a"));
    vocab.insert(token_bit_position(b"b"));
    vocab.insert(token_bit_position(b"c"));
    assert!(m.index_is_subset_of(&vocab));

    let mut smaller: OrdSet<u32> = OrdSet::new();
    smaller.insert(token_bit_position(b"a"));
    assert!(!m.index_is_subset_of(&smaller));
    assert_eq!(m.index_bits().len(), 3);
}

#[test]
fn test_token_index_collision_group() {
    let mut idx = TokenIndex::new();
    idx.insert(b"alpha");
    idx.insert(b"alpha");
    let bit = token_bit_position(b"alpha");
    assert_eq!(idx.get(bit), vec![b"alpha".to_vec()]);
    assert_eq!(idx.len(), 1);
    assert_eq!(idx.max_group_size(), 1);
}

#[test]
fn test_unfolded_cells_duplicate_rows_and_cols() {
    let mut m = SparseAdjacencyMatrix::new();
    m.increment_edge(b"a", b"b");

    let bit_a = token_bit_position(b"a");
    let bit_b = token_bit_position(b"b");

    let mut idx = TokenIndex::new();
    idx.insert_at(bit_a, b"a1");
    idx.insert_at(bit_a, b"a2");
    idx.insert_at(bit_b, b"b");

    let unfolded = m.unfolded_cells(&idx);
    assert_eq!(unfolded.len(), 2);
    assert_eq!(unfolded[0].row_tokens, vec![b"a1".to_vec()]);
    assert_eq!(unfolded[0].col_tokens, vec![b"b".to_vec()]);
    assert_eq!(unfolded[0].count, 1);
    assert_eq!(unfolded[1].row_tokens, vec![b"a2".to_vec()]);
}

#[test]
fn test_greedy_walk_switches_cells() {
    let mut m = SparseAdjacencyMatrix::new();
    m.increment_edge(b"a", b"b");
    m.increment_edge(b"a", b"b");
    m.increment_edge(b"a", b"c");
    m.increment_edge(b"b", b"d");
    m.increment_edge(b"c", b"e");

    let walk = m.greedy_walk(token_bit_position(b"a"), 4);
    let b = token_bit_position(b"b");
    let d = token_bit_position(b"d");
    assert_eq!(walk.len(), 3);
    assert_eq!(walk[0], token_bit_position(b"a"));
    assert_eq!(walk[1], b);
    assert_eq!(walk[2], d);
}

#[test]
fn greedy_walks_use_each_edge_once() {
    let mut m = SparseAdjacencyMatrix::new();
    m.increment_edge(b"a", b"b");
    m.increment_edge(b"b", b"a");
    m.increment_edge(b"a", b"a");
    m.increment_edge(b"a", b"a");
    let (a, b) = (token_bit_position(b"a"), token_bit_position(b"b"));
    assert_eq!(m.greedy_walk(a, 10), vec![a, a, b, a]);
    assert_eq!(m.greedy_walk(a, 2), vec![a, a]);
    assert!(m.greedy_walk(a, 0).is_empty());
}
