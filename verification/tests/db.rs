use paged_btree::engine::{execute_insert, execute_select, ExecuteResult};
use paged_btree::layout::{
    COMMON_NODE_HEADER_SIZE, LEAF_NODE_CELL_SIZE, LEAF_NODE_HEADER_SIZE,
    LEAF_NODE_LEFT_SPLIT_COUNT, LEAF_NODE_MAX_CELLS, LEAF_NODE_RIGHT_SPLIT_COUNT,
    LEAF_NODE_SPACE_FOR_CELLS, PAGE_SIZE, ROW_SIZE,
};
use paged_btree::node::{
    internal_node_key, internal_node_num_keys, internal_node_right_child_pointer,
    leaf_node_key, leaf_node_num_cells,
};
use paged_btree::pager::DbError;
use paged_btree::row::Row;
use paged_btree::table::Table;

fn row(id: u32, username: &str, email: &str) -> Row {
    Row {
        id,
        username: String::from(username),
        email: String::from(email),
    }
}

fn open_empty() -> Table {
    Table::new(&Vec::new()).expect("an empty file opens as a fresh table")
}

fn file_bytes_of(table: &Table) -> Vec<u8> {
    let mut bytes = Vec::new();
    for page in table.flush_all() {
        bytes.extend_from_slice(&page);
    }
    bytes
}

#[test]
fn constants_have_their_documented_values() {
    assert_eq!(ROW_SIZE, 293);
    assert_eq!(COMMON_NODE_HEADER_SIZE, 6);
    assert_eq!(LEAF_NODE_HEADER_SIZE, 10);
    assert_eq!(LEAF_NODE_CELL_SIZE, 297);
    assert_eq!(LEAF_NODE_SPACE_FOR_CELLS, 4086);
    assert_eq!(LEAF_NODE_MAX_CELLS, 13);
    assert_eq!(LEAF_NODE_LEFT_SPLIT_COUNT, 7);
    assert_eq!(LEAF_NODE_RIGHT_SPLIT_COUNT, 7);
    assert_eq!(PAGE_SIZE, 4096);
}

#[test]
fn select_on_empty_table_yields_nothing() {
    let table = open_empty();
    assert!(execute_select(&table).is_empty());
}

#[test]
fn insert_then_select_returns_the_row() {
    let mut table = open_empty();
    let r = execute_insert(&mut table, row(1, "alice", "alice@example.com"));
    assert!(matches!(r, ExecuteResult::Success));
    let rows = execute_select(&table);
    assert_eq!(rows.len(), 1);
    assert_eq!(rows[0].id, 1);
    assert_eq!(rows[0].username, "alice");
    assert_eq!(rows[0].email, "alice@example.com");
}

#[test]
fn duplicate_key_is_rejected_and_keeps_the_first_row() {
    let mut table = open_empty();
    assert!(matches!(
        execute_insert(&mut table, row(1, "a", "a@x")),
        ExecuteResult::Success
    ));
    assert!(matches!(
        execute_insert(&mut table, row(1, "b", "b@x")),
        ExecuteResult::DuplicateKey
    ));
    let rows = execute_select(&table);
    assert_eq!(rows.len(), 1);
    assert_eq!(rows[0].username, "a");
    assert_eq!(rows[0].email, "a@x");
}

#[test]
fn select_returns_rows_in_ascending_key_order() {
    let mut table = open_empty();
    for id in [3u32, 1, 2] {
        let r = execute_insert(&mut table, row(id, "u", "e@x"));
        assert!(matches!(r, ExecuteResult::Success));
    }
    let ids: Vec<u32> = execute_select(&table).iter().map(|r| r.id).collect();
    assert_eq!(ids, vec![1, 2, 3]);
}

#[test]
fn fourteenth_insert_splits_the_root() {
    let mut table = open_empty();
    for id in 1..=14u32 {
        let r = execute_insert(&mut table, row(id, "user", "user@example.com"));
        assert!(matches!(r, ExecuteResult::Success));
    }
    // the root is now an internal node with one key over two leaves
    let root = table.pager.flush_page(0);
    assert_eq!(root[0], 1);
    assert_eq!(internal_node_num_keys(&root), 1);
    assert_eq!(internal_node_key(&root, 0), 7);
    let left = table.pager.flush_page(2);
    assert_eq!(leaf_node_num_cells(&left), 7);
    for i in 0..7u32 {
        assert_eq!(leaf_node_key(&left, i), i + 1);
    }
    let right_page = internal_node_right_child_pointer(&root) as usize;
    let right = table.pager.flush_page(right_page);
    assert_eq!(leaf_node_num_cells(&right), 7);
    for i in 0..7u32 {
        assert_eq!(leaf_node_key(&right, i), i + 8);
    }
    // the scan still walks every row in order
    let ids: Vec<u32> = execute_select(&table).iter().map(|r| r.id).collect();
    assert_eq!(ids, (1..=14).collect::<Vec<u32>>());
}

#[test]
fn reopening_a_flushed_file_restores_the_rows() {
    let mut table = open_empty();
    assert!(matches!(
        execute_insert(&mut table, row(1, "u1", "e1")),
        ExecuteResult::Success
    ));
    assert!(matches!(
        execute_insert(&mut table, row(2, "u2", "e2")),
        ExecuteResult::Success
    ));
    let bytes = file_bytes_of(&table);
    assert_eq!(bytes.len() % PAGE_SIZE, 0);

    let reopened = Table::new(&bytes).expect("a flushed file opens again");
    let rows = execute_select(&reopened);
    assert_eq!(rows.len(), 2);
    assert_eq!((rows[0].id, rows[0].username.as_str(), rows[0].email.as_str()), (1, "u1", "e1"));
    assert_eq!((rows[1].id, rows[1].username.as_str(), rows[1].email.as_str()), (2, "u2", "e2"));
}

#[test]
fn reopening_after_a_split_restores_every_row_in_order() {
    let mut table = open_empty();
    for id in 1..=14u32 {
        assert!(matches!(
            execute_insert(&mut table, row(id, "user", "user@example.com")),
            ExecuteResult::Success
        ));
    }
    let bytes = file_bytes_of(&table);
    let reopened = Table::new(&bytes).expect("a split tree opens again");
    let ids: Vec<u32> = execute_select(&reopened).iter().map(|r| r.id).collect();
    assert_eq!(ids, (1..=14).collect::<Vec<u32>>());
}

#[test]
fn a_file_with_a_partial_page_is_refused() {
    let bytes = vec![0u8; 5];
    match Table::new(&bytes) {
        Err(DbError::CorruptFile) => {}
        _ => panic!("a partial page must be refused"),
    }
}

#[test]
fn a_file_with_an_unknown_node_tag_is_refused() {
    let mut bytes = vec![0u8; PAGE_SIZE];
    bytes[0] = 7;
    match Table::new(&bytes) {
        Err(DbError::InvalidNode) => {}
        _ => panic!("an unknown node tag must be refused"),
    }
}

#[test]
fn the_table_reports_full_when_the_pager_runs_out_of_pages() {
    let mut table = open_empty();
    let mut saw_full = false;
    for id in 1..=2000u32 {
        match execute_insert(&mut table, row(id, "u", "e@x")) {
            ExecuteResult::Success => {}
            ExecuteResult::TableFull => {
                saw_full = true;
                break;
            }
            ExecuteResult::DuplicateKey => panic!("keys are distinct"),
        }
    }
    assert!(saw_full);
    // the table stays usable and ordered after the refusal
    let ids: Vec<u32> = execute_select(&table).iter().map(|r| r.id).collect();
    let mut sorted = ids.clone();
    sorted.sort();
    sorted.dedup();
    assert_eq!(ids, sorted);
}

#[test]
fn a_second_split_adds_a_separator_to_the_root() {
    let mut table = open_empty();
    for id in 1..=21u32 {
        assert!(matches!(
            execute_insert(&mut table, row(id, "u", "e@x")),
            ExecuteResult::Success
        ));
    }
    let root = table.pager.flush_page(0);
    assert_eq!(root[0], 1);
    assert_eq!(internal_node_num_keys(&root), 2);
    let ids: Vec<u32> = execute_select(&table).iter().map(|r| r.id).collect();
    assert_eq!(ids, (1..=21).collect::<Vec<u32>>());
}

#[test]
fn descending_inserts_split_an_inner_child() {
    let mut table = open_empty();
    for id in (180..=200u32).rev() {
        assert!(matches!(
            execute_insert(&mut table, row(id, "u", "e@x")),
            ExecuteResult::Success
        ));
    }
    let root = table.pager.flush_page(0);
    assert_eq!(root[0], 1);
    assert_eq!(internal_node_num_keys(&root), 2);
    let ids: Vec<u32> = execute_select(&table).iter().map(|r| r.id).collect();
    assert_eq!(ids, (180..=200).collect::<Vec<u32>>());
}

#[test]
fn reopening_a_three_leaf_tree_restores_every_row() {
    let mut table = open_empty();
    for id in 1..=21u32 {
        assert!(matches!(
            execute_insert(&mut table, row(id, "u", "e@x")),
            ExecuteResult::Success
        ));
    }
    let bytes = file_bytes_of(&table);
    let reopened = Table::new(&bytes).expect("a three-leaf tree opens again");
    let ids: Vec<u32> = execute_select(&reopened).iter().map(|r| r.id).collect();
    assert_eq!(ids, (1..=21).collect::<Vec<u32>>());
}

#[test]
fn a_cursor_walks_the_root_leaf() {
    let mut table = open_empty();
    let start = table.start();
    assert!(start.end_of_table);
    assert!(matches!(
        execute_insert(&mut table, row(5, "u", "e@x")),
        ExecuteResult::Success
    ));
    let mut cursor = table.start();
    assert!(!cursor.end_of_table);
    let first = cursor.get_row(&table);
    assert_eq!(first.id, 5);
    cursor.advance(&table);
    assert!(cursor.end_of_table);
}

#[test]
fn find_node_points_at_the_insertion_slot() {
    let mut table = open_empty();
    for id in [10u32, 20, 30] {
        assert!(matches!(
            execute_insert(&mut table, row(id, "u", "e@x")),
            ExecuteResult::Success
        ));
    }
    assert_eq!(table.find_node(20).cell_num, 1);
    assert_eq!(table.find_node(25).cell_num, 2);
    assert_eq!(table.find_node(5).cell_num, 0);
    assert_eq!(table.find_node(40).cell_num, 3);
}

#[test]
fn the_pager_hands_out_resident_pages_only() {
    let table = open_empty();
    assert_eq!(table.pager.get_unused_page_num(), 1);
    assert!(table.pager.get_immutable_page(0).is_some());
    assert!(table.pager.get_immutable_page(1).is_none());
}
