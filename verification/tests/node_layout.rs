use paged_btree::layout::{LEAF_NODE_HEADER_SIZE, LEAF_NODE_VALUE_SIZE, PAGE_SIZE};
use paged_btree::node::{
    leaf_node_key, leaf_node_num_cells, leaf_node_value, write_leaf_node_key_cell,
    write_leaf_node_num_cells, write_leaf_node_value,
};

#[test]
fn test_node_num_cells() {
    let mut node = vec![0; LEAF_NODE_HEADER_SIZE];
    write_leaf_node_num_cells(&mut node, 5);
    let num_cells = leaf_node_num_cells(&node);
    assert_eq!(num_cells, 5);
}

#[test]
fn test_leaf_node_value() {
    let mut something_value: Vec<u8> = vec![0; LEAF_NODE_VALUE_SIZE];
    for (i, b) in "Hello World".as_bytes().iter().enumerate() {
        something_value[i] = *b;
    }
    let expected = something_value.clone();

    let mut node = vec![0; PAGE_SIZE];
    write_leaf_node_key_cell(&mut node, 0, 1);
    write_leaf_node_value(&mut node, 0, something_value);
    assert_eq!(leaf_node_value(&node, 0), expected);
    assert_eq!(leaf_node_key(&node, 0), 1);
}
