//! Typed accessors over raw page bytes: readers and writers for every header
//! field and cell of leaf and internal nodes, with the two initializers.
//! Each writer's contract states the field it sets and that every other
//! field of the page is untouched, so callers never reason about raw bytes.

use vstd::prelude::*;
use crate::layout::{
    PAGE_SIZE, NODE_TYPE_OFFSET, IS_ROOT_OFFSET, NODE_TYPE_LEAF, NODE_TYPE_INTERNAL,
    LEAF_NODE_NUM_CELLS_OFFSET, LEAF_NODE_HEADER_SIZE, LEAF_NODE_KEY_SIZE, LEAF_NODE_VALUE_SIZE,
    LEAF_NODE_CELL_SIZE, LEAF_NODE_MAX_CELLS, INTERNAL_NODE_NUM_KEYS_OFFSET,
    INTERNAL_NODE_RIGHT_CHILD_OFFSET, INTERNAL_NODE_HEADER_SIZE, INTERNAL_NODE_CHILD_SIZE,
    INTERNAL_NODE_CELL_SIZE, INTERNAL_NODE_MAX_CELLS, le32, spec_node_type, spec_is_root,
    spec_leaf_num_cells, leaf_cell_off, spec_leaf_key, spec_leaf_value, spec_internal_num_keys,
    spec_internal_right_child, internal_cell_off, spec_internal_child, spec_internal_key,
    lemma_le32_frame, lemma_subrange_frame,
};
use crate::bytes_le::{read_u32_at, write_u32_at};
use vstd::bytes::{spec_u32_from_le_bytes, spec_u32_to_le_bytes};

verus! {

pub enum NodeType {
    Leaf,
    Internal,
}

/// Fields of a leaf page whose byte ranges lie outside the written range
/// `[a, b)` are the same in `p` and `q`.
pub proof fn lemma_leaf_frame(p: Seq<u8>, q: Seq<u8>, a: int, b: int)
    requires
        p.len() == PAGE_SIZE,
        q.len() == PAGE_SIZE,
        0 <= a <= b <= PAGE_SIZE,
        forall|i: int| 0 <= i < PAGE_SIZE && !(a <= i < b) ==> p[i] == q[i],
    ensures
        b <= NODE_TYPE_OFFSET || NODE_TYPE_OFFSET + 1 <= a ==> spec_node_type(p)
            == spec_node_type(q),
        b <= IS_ROOT_OFFSET || IS_ROOT_OFFSET + 1 <= a ==> spec_is_root(p) == spec_is_root(q),
        b <= LEAF_NODE_NUM_CELLS_OFFSET || LEAF_NODE_HEADER_SIZE <= a ==> spec_leaf_num_cells(p)
            == spec_leaf_num_cells(q),
        forall|k: int|
            0 <= k < LEAF_NODE_MAX_CELLS && (b <= leaf_cell_off(k) || leaf_cell_off(k) + 4 <= a)
                ==> spec_leaf_key(p, k) == spec_leaf_key(q, k),
        forall|k: int|
            0 <= k < LEAF_NODE_MAX_CELLS && (b <= leaf_cell_off(k) + 4 || leaf_cell_off(k)
                + LEAF_NODE_CELL_SIZE <= a) ==> spec_leaf_value(p, k) == spec_leaf_value(q, k),
{
    if b <= LEAF_NODE_NUM_CELLS_OFFSET || LEAF_NODE_HEADER_SIZE <= a {
        lemma_le32_frame(p, q, LEAF_NODE_NUM_CELLS_OFFSET as int);
    }
    assert forall|k: int|
        0 <= k < LEAF_NODE_MAX_CELLS && (b <= leaf_cell_off(k) || leaf_cell_off(k) + 4
            <= a) implies spec_leaf_key(p, k) == spec_leaf_key(q, k) by {
        lemma_le32_frame(p, q, leaf_cell_off(k));
    }
    assert forall|k: int|
        0 <= k < LEAF_NODE_MAX_CELLS && (b <= leaf_cell_off(k) + 4 || leaf_cell_off(k)
            + LEAF_NODE_CELL_SIZE <= a) implies spec_leaf_value(p, k) == spec_leaf_value(
        q,
        k,
    ) by {
        lemma_subrange_frame(
            p,
            q,
            leaf_cell_off(k) + LEAF_NODE_KEY_SIZE,
            leaf_cell_off(k) + LEAF_NODE_CELL_SIZE,
        );
    }
}

/// Fields of an internal page whose byte ranges lie outside the written
/// range `[a, b)` are the same in `p` and `q`.
pub proof fn lemma_internal_frame(p: Seq<u8>, q: Seq<u8>, a: int, b: int)
    requires
        p.len() == PAGE_SIZE,
        q.len() == PAGE_SIZE,
        0 <= a <= b <= PAGE_SIZE,
        forall|i: int| 0 <= i < PAGE_SIZE && !(a <= i < b) ==> p[i] == q[i],
    ensures
        b <= NODE_TYPE_OFFSET || NODE_TYPE_OFFSET + 1 <= a ==> spec_node_type(p)
            == spec_node_type(q),
        b <= IS_ROOT_OFFSET || IS_ROOT_OFFSET + 1 <= a ==> spec_is_root(p) == spec_is_root(q),
        b <= INTERNAL_NODE_NUM_KEYS_OFFSET || INTERNAL_NODE_RIGHT_CHILD_OFFSET <= a
            ==> spec_internal_num_keys(p) == spec_internal_num_keys(q),
        b <= INTERNAL_NODE_RIGHT_CHILD_OFFSET || INTERNAL_NODE_HEADER_SIZE <= a
            ==> spec_internal_right_child(p) == spec_internal_right_child(q),
        forall|k: int|
            0 <= k < INTERNAL_NODE_MAX_CELLS && (b <= internal_cell_off(k) || internal_cell_off(k)
                + 4 <= a) ==> spec_internal_child(p, k) == spec_internal_child(q, k),
        forall|k: int|
            0 <= k < INTERNAL_NODE_MAX_CELLS && (b <= internal_cell_off(k) + 4
                || internal_cell_off(k) + INTERNAL_NODE_CELL_SIZE <= a) ==> spec_internal_key(p, k)
                == spec_internal_key(q, k),
{
    if b <= INTERNAL_NODE_NUM_KEYS_OFFSET || INTERNAL_NODE_RIGHT_CHILD_OFFSET <= a {
        lemma_le32_frame(p, q, INTERNAL_NODE_NUM_KEYS_OFFSET as int);
    }
    if b <= INTERNAL_NODE_RIGHT_CHILD_OFFSET || INTERNAL_NODE_HEADER_SIZE <= a {
        lemma_le32_frame(p, q, INTERNAL_NODE_RIGHT_CHILD_OFFSET as int);
    }
    assert forall|k: int|
        0 <= k < INTERNAL_NODE_MAX_CELLS && (b <= internal_cell_off(k) || internal_cell_off(k) + 4
            <= a) implies spec_internal_child(p, k) == spec_internal_child(q, k) by {
        lemma_le32_frame(p, q, internal_cell_off(k));
    }
    assert forall|k: int|
        0 <= k < INTERNAL_NODE_MAX_CELLS && (b <= internal_cell_off(k) + 4 || internal_cell_off(k)
            + INTERNAL_NODE_CELL_SIZE <= a) implies spec_internal_key(p, k) == spec_internal_key(
        q,
        k,
    ) by {
        lemma_le32_frame(p, q, internal_cell_off(k) + INTERNAL_NODE_CHILD_SIZE);
    }
}

pub fn leaf_node_num_cells(node: &Vec<u8>) -> (r: u32)
    requires
        node@.len() == PAGE_SIZE,
    ensures
        r == spec_leaf_num_cells(node@),
{
    read_u32_at(node, LEAF_NODE_NUM_CELLS_OFFSET)
}

pub fn write_leaf_node_num_cells(node: &mut Vec<u8>, num_cells: u32)
    requires
        old(node)@.len() == PAGE_SIZE,
    ensures
        final(node)@.len() == PAGE_SIZE,
        spec_leaf_num_cells(final(node)@) == num_cells,
        spec_node_type(final(node)@) == spec_node_type(old(node)@),
        spec_is_root(final(node)@) == spec_is_root(old(node)@),
        forall|k: int|
            0 <= k < LEAF_NODE_MAX_CELLS ==> spec_leaf_key(final(node)@, k) == spec_leaf_key(
                old(node)@,
                k,
            ),
        forall|k: int|
            0 <= k < LEAF_NODE_MAX_CELLS ==> spec_leaf_value(final(node)@, k) == spec_leaf_value(
                old(node)@,
                k,
            ),
        forall|i: int|
            0 <= i < PAGE_SIZE && !(LEAF_NODE_NUM_CELLS_OFFSET <= i < LEAF_NODE_HEADER_SIZE) ==> final(node)@[i] == old(node)@[i],
{
    write_u32_at(node, LEAF_NODE_NUM_CELLS_OFFSET, num_cells);
    proof {
        vstd::bytes::lemma_auto_spec_u32_to_from_le_bytes();
        assert(spec_u32_to_le_bytes(num_cells).len() == 4);
        assert(spec_u32_from_le_bytes(spec_u32_to_le_bytes(num_cells)) == num_cells);
        lemma_leaf_frame(
            node@,
            old(node)@,
            LEAF_NODE_NUM_CELLS_OFFSET as int,
            LEAF_NODE_HEADER_SIZE as int,
        );
    }
}

pub fn leaf_node_key(node: &Vec<u8>, cell_num: u32) -> (r: u32)
    requires
        node@.len() == PAGE_SIZE,
        cell_num < LEAF_NODE_MAX_CELLS,
    ensures
        r == spec_leaf_key(node@, cell_num as int),
{
    let offset: usize = LEAF_NODE_HEADER_SIZE + LEAF_NODE_CELL_SIZE * (cell_num as usize);
    read_u32_at(node, offset)
}

pub fn write_leaf_node_key_cell(node: &mut Vec<u8>, cell_num: u32, key: u32)
    requires
        old(node)@.len() == PAGE_SIZE,
        cell_num < LEAF_NODE_MAX_CELLS,
    ensures
        final(node)@.len() == PAGE_SIZE,
        spec_leaf_key(final(node)@, cell_num as int) == key,
        spec_leaf_num_cells(final(node)@) == spec_leaf_num_cells(old(node)@),
        spec_node_type(final(node)@) == spec_node_type(old(node)@),
        spec_is_root(final(node)@) == spec_is_root(old(node)@),
        forall|k: int|
            0 <= k < LEAF_NODE_MAX_CELLS && k != cell_num ==> spec_leaf_key(final(node)@, k)
                == spec_leaf_key(old(node)@, k),
        forall|k: int|
            0 <= k < LEAF_NODE_MAX_CELLS ==> spec_leaf_value(final(node)@, k) == spec_leaf_value(
                old(node)@,
                k,
            ),
        forall|i: int|
            0 <= i < PAGE_SIZE && !(leaf_cell_off(cell_num as int) <= i < leaf_cell_off(cell_num as int)
                + LEAF_NODE_KEY_SIZE) ==> final(node)@[i] == old(node)@[i],
{
    let offset: usize = LEAF_NODE_HEADER_SIZE + LEAF_NODE_CELL_SIZE * (cell_num as usize);
    write_u32_at(node, offset, key);
    proof {
        vstd::bytes::lemma_auto_spec_u32_to_from_le_bytes();
        assert(spec_u32_to_le_bytes(key).len() == 4);
        assert(spec_u32_from_le_bytes(spec_u32_to_le_bytes(key)) == key);
        lemma_leaf_frame(
            node@,
            old(node)@,
            leaf_cell_off(cell_num as int),
            leaf_cell_off(cell_num as int) + 4,
        );
    }
}

pub fn leaf_node_value(node: &Vec<u8>, cell_num: usize) -> (r: Vec<u8>)
    requires
        node@.len() == PAGE_SIZE,
        cell_num < LEAF_NODE_MAX_CELLS,
    ensures
        r@ == spec_leaf_value(node@, cell_num as int),
{
    let offset: usize = LEAF_NODE_HEADER_SIZE + cell_num * LEAF_NODE_CELL_SIZE
        + LEAF_NODE_KEY_SIZE;
    let mut bytes: Vec<u8> = Vec::new();
    let mut i: usize = 0;
    while i < LEAF_NODE_VALUE_SIZE
        invariant
            node@.len() == PAGE_SIZE,
            cell_num < LEAF_NODE_MAX_CELLS,
            offset == leaf_cell_off(cell_num as int) + LEAF_NODE_KEY_SIZE,
            i <= LEAF_NODE_VALUE_SIZE,
            bytes@.len() == i,
            forall|j: int| 0 <= j < i ==> bytes@[j] == node@[offset + j],
        decreases LEAF_NODE_VALUE_SIZE - i,
    {
        bytes.push(node[offset + i]);
        i = i + 1;
    }
    proof {
        assert(bytes@ =~= spec_leaf_value(node@, cell_num as int));
    }
    bytes
}

pub fn write_leaf_node_value(node: &mut Vec<u8>, cell_num: usize, value: Vec<u8>)
    requires
        old(node)@.len() == PAGE_SIZE,
        cell_num < LEAF_NODE_MAX_CELLS,
        value@.len() == LEAF_NODE_VALUE_SIZE,
    ensures
        final(node)@.len() == PAGE_SIZE,
        spec_leaf_value(final(node)@, cell_num as int) == value@,
        spec_leaf_key(final(node)@, cell_num as int) == spec_leaf_key(old(node)@, cell_num as int),
        spec_leaf_num_cells(final(node)@) == spec_leaf_num_cells(old(node)@),
        spec_node_type(final(node)@) == spec_node_type(old(node)@),
        spec_is_root(final(node)@) == spec_is_root(old(node)@),
        forall|k: int|
            0 <= k < LEAF_NODE_MAX_CELLS && k != cell_num ==> spec_leaf_key(final(node)@, k)
                == spec_leaf_key(old(node)@, k),
        forall|k: int|
            0 <= k < LEAF_NODE_MAX_CELLS && k != cell_num ==> spec_leaf_value(final(node)@, k)
                == spec_leaf_value(old(node)@, k),
        forall|i: int|
            0 <= i < PAGE_SIZE && !(leaf_cell_off(cell_num as int) + LEAF_NODE_KEY_SIZE <= i < leaf_cell_off(
                cell_num as int,
            ) + LEAF_NODE_CELL_SIZE) ==> final(node)@[i] == old(node)@[i],
{
    let start: usize = LEAF_NODE_HEADER_SIZE + cell_num * LEAF_NODE_CELL_SIZE
        + LEAF_NODE_KEY_SIZE;
    let mut i: usize = 0;
    while i < LEAF_NODE_VALUE_SIZE
        invariant
            node@.len() == PAGE_SIZE,
            cell_num < LEAF_NODE_MAX_CELLS,
            value@.len() == LEAF_NODE_VALUE_SIZE,
            start == leaf_cell_off(cell_num as int) + LEAF_NODE_KEY_SIZE,
            i <= LEAF_NODE_VALUE_SIZE,
            forall|j: int|
                0 <= j < PAGE_SIZE && !(start <= j < start + i) ==> node@[j] == old(node)@[j],
            forall|j: int| 0 <= j < i ==> node@[start + j] == value@[j],
        decreases LEAF_NODE_VALUE_SIZE - i,
    {
        node.set(start + i, value[i]);
        i = i + 1;
    }
    proof {
        assert(spec_leaf_value(node@, cell_num as int) =~= value@);
        lemma_leaf_frame(
            node@,
            old(node)@,
            start as int,
            start + LEAF_NODE_VALUE_SIZE,
        );
        lemma_le32_frame(node@, old(node)@, leaf_cell_off(cell_num as int));
    }
}

pub fn internal_node_num_keys(node: &Vec<u8>) -> (r: u32)
    requires
        node@.len() == PAGE_SIZE,
    ensures
        r == spec_internal_num_keys(node@),
{
    read_u32_at(node, INTERNAL_NODE_NUM_KEYS_OFFSET)
}

pub fn write_internal_node_num_keys(node: &mut Vec<u8>, num_keys: u32)
    requires
        old(node)@.len() == PAGE_SIZE,
    ensures
        final(node)@.len() == PAGE_SIZE,
        spec_internal_num_keys(final(node)@) == num_keys,
        spec_internal_right_child(final(node)@) == spec_internal_right_child(old(node)@),
        spec_node_type(final(node)@) == spec_node_type(old(node)@),
        spec_is_root(final(node)@) == spec_is_root(old(node)@),
        forall|k: int|
            0 <= k < INTERNAL_NODE_MAX_CELLS ==> spec_internal_child(final(node)@, k)
                == spec_internal_child(old(node)@, k),
        forall|k: int|
            0 <= k < INTERNAL_NODE_MAX_CELLS ==> spec_internal_key(final(node)@, k) == spec_internal_key(
                old(node)@,
                k,
            ),
        forall|i: int|
            0 <= i < PAGE_SIZE && !(INTERNAL_NODE_NUM_KEYS_OFFSET <= i < INTERNAL_NODE_RIGHT_CHILD_OFFSET) ==> final(node)@[i] == old(node)@[i],
{
    write_u32_at(node, INTERNAL_NODE_NUM_KEYS_OFFSET, num_keys);
    proof {
        vstd::bytes::lemma_auto_spec_u32_to_from_le_bytes();
        assert(spec_u32_to_le_bytes(num_keys).len() == 4);
        assert(spec_u32_from_le_bytes(spec_u32_to_le_bytes(num_keys)) == num_keys);
        lemma_internal_frame(
            node@,
            old(node)@,
            INTERNAL_NODE_NUM_KEYS_OFFSET as int,
            INTERNAL_NODE_RIGHT_CHILD_OFFSET as int,
        );
    }
}

pub fn internal_node_right_child_pointer(node: &Vec<u8>) -> (r: u32)
    requires
        node@.len() == PAGE_SIZE,
    ensures
        r == spec_internal_right_child(node@),
{
    read_u32_at(node, INTERNAL_NODE_RIGHT_CHILD_OFFSET)
}

pub fn write_internal_node_right_child_pointer(node: &mut Vec<u8>, ptr: u32)
    requires
        old(node)@.len() == PAGE_SIZE,
    ensures
        final(node)@.len() == PAGE_SIZE,
        spec_internal_right_child(final(node)@) == ptr,
        spec_internal_num_keys(final(node)@) == spec_internal_num_keys(old(node)@),
        spec_node_type(final(node)@) == spec_node_type(old(node)@),
        spec_is_root(final(node)@) == spec_is_root(old(node)@),
        forall|k: int|
            0 <= k < INTERNAL_NODE_MAX_CELLS ==> spec_internal_child(final(node)@, k)
                == spec_internal_child(old(node)@, k),
        forall|k: int|
            0 <= k < INTERNAL_NODE_MAX_CELLS ==> spec_internal_key(final(node)@, k) == spec_internal_key(
                old(node)@,
                k,
            ),
        forall|i: int|
            0 <= i < PAGE_SIZE && !(INTERNAL_NODE_RIGHT_CHILD_OFFSET <= i < INTERNAL_NODE_HEADER_SIZE) ==> final(node)@[i] == old(node)@[i],
{
    write_u32_at(node, INTERNAL_NODE_RIGHT_CHILD_OFFSET, ptr);
    proof {
        vstd::bytes::lemma_auto_spec_u32_to_from_le_bytes();
        assert(spec_u32_to_le_bytes(ptr).len() == 4);
        assert(spec_u32_from_le_bytes(spec_u32_to_le_bytes(ptr)) == ptr);
        lemma_internal_frame(
            node@,
            old(node)@,
            INTERNAL_NODE_RIGHT_CHILD_OFFSET as int,
            INTERNAL_NODE_HEADER_SIZE as int,
        );
    }
}

pub fn internal_node_key(node: &Vec<u8>, cell_num: u32) -> (r: u32)
    requires
        node@.len() == PAGE_SIZE,
        cell_num < INTERNAL_NODE_MAX_CELLS,
    ensures
        r == spec_internal_key(node@, cell_num as int),
{
    let offset: usize = INTERNAL_NODE_HEADER_SIZE + (cell_num as usize) * INTERNAL_NODE_CELL_SIZE
        + INTERNAL_NODE_CHILD_SIZE;
    read_u32_at(node, offset)
}

pub fn write_internal_node_key(node: &mut Vec<u8>, cell_num: u32, value: u32)
    requires
        old(node)@.len() == PAGE_SIZE,
        cell_num < INTERNAL_NODE_MAX_CELLS,
    ensures
        final(node)@.len() == PAGE_SIZE,
        spec_internal_key(final(node)@, cell_num as int) == value,
        spec_internal_num_keys(final(node)@) == spec_internal_num_keys(old(node)@),
        spec_internal_right_child(final(node)@) == spec_internal_right_child(old(node)@),
        spec_node_type(final(node)@) == spec_node_type(old(node)@),
        spec_is_root(final(node)@) == spec_is_root(old(node)@),
        forall|k: int|
            0 <= k < INTERNAL_NODE_MAX_CELLS ==> spec_internal_child(final(node)@, k)
                == spec_internal_child(old(node)@, k),
        forall|k: int|
            0 <= k < INTERNAL_NODE_MAX_CELLS && k != cell_num ==> spec_internal_key(final(node)@, k)
                == spec_internal_key(old(node)@, k),
        forall|i: int|
            0 <= i < PAGE_SIZE && !(internal_cell_off(cell_num as int) + INTERNAL_NODE_CHILD_SIZE <= i
                < internal_cell_off(cell_num as int) + INTERNAL_NODE_CELL_SIZE) ==> final(node)@[i] == old(node)@[i],
{
    let offset: usize = INTERNAL_NODE_HEADER_SIZE + (cell_num as usize) * INTERNAL_NODE_CELL_SIZE
        + INTERNAL_NODE_CHILD_SIZE;
    write_u32_at(node, offset, value);
    proof {
        vstd::bytes::lemma_auto_spec_u32_to_from_le_bytes();
        assert(spec_u32_to_le_bytes(value).len() == 4);
        assert(spec_u32_from_le_bytes(spec_u32_to_le_bytes(value)) == value);
        lemma_internal_frame(
            node@,
            old(node)@,
            internal_cell_off(cell_num as int) + INTERNAL_NODE_CHILD_SIZE,
            internal_cell_off(cell_num as int) + INTERNAL_NODE_CELL_SIZE,
        );
    }
}

pub fn internal_node_child_pointer(node: &Vec<u8>, cell_num: u32) -> (r: u32)
    requires
        node@.len() == PAGE_SIZE,
        cell_num < INTERNAL_NODE_MAX_CELLS,
    ensures
        r == spec_internal_child(node@, cell_num as int),
{
    let offset: usize = INTERNAL_NODE_HEADER_SIZE + (cell_num as usize) * INTERNAL_NODE_CELL_SIZE;
    read_u32_at(node, offset)
}

pub fn write_internal_node_child_pointer(node: &mut Vec<u8>, cell_num: u32, ptr: u32)
    requires
        old(node)@.len() == PAGE_SIZE,
        cell_num < INTERNAL_NODE_MAX_CELLS,
    ensures
        final(node)@.len() == PAGE_SIZE,
        spec_internal_child(final(node)@, cell_num as int) == ptr,
        spec_internal_num_keys(final(node)@) == spec_internal_num_keys(old(node)@),
        spec_internal_right_child(final(node)@) == spec_internal_right_child(old(node)@),
        spec_node_type(final(node)@) == spec_node_type(old(node)@),
        spec_is_root(final(node)@) == spec_is_root(old(node)@),
        forall|k: int|
            0 <= k < INTERNAL_NODE_MAX_CELLS && k != cell_num ==> spec_internal_child(final(node)@, k)
                == spec_internal_child(old(node)@, k),
        forall|k: int|
            0 <= k < INTERNAL_NODE_MAX_CELLS ==> spec_internal_key(final(node)@, k) == spec_internal_key(
                old(node)@,
                k,
            ),
        forall|i: int|
            0 <= i < PAGE_SIZE && !(internal_cell_off(cell_num as int) <= i < internal_cell_off(cell_num as int)
                + INTERNAL_NODE_CHILD_SIZE) ==> final(node)@[i] == old(node)@[i],
{
    let offset: usize = INTERNAL_NODE_HEADER_SIZE + (cell_num as usize) * INTERNAL_NODE_CELL_SIZE;
    write_u32_at(node, offset, ptr);
    proof {
        vstd::bytes::lemma_auto_spec_u32_to_from_le_bytes();
        assert(spec_u32_to_le_bytes(ptr).len() == 4);
        assert(spec_u32_from_le_bytes(spec_u32_to_le_bytes(ptr)) == ptr);
        lemma_internal_frame(
            node@,
            old(node)@,
            internal_cell_off(cell_num as int),
            internal_cell_off(cell_num as int) + INTERNAL_NODE_CHILD_SIZE,
        );
    }
}

/// Sets the pointer of child `child_num`: the rightmost slot when `child_num`
/// equals the key count, the cell's child pointer otherwise.
pub fn write_internal_node_child(node: &mut Vec<u8>, child_num: u32, ptr: u32)
    requires
        old(node)@.len() == PAGE_SIZE,
        child_num <= spec_internal_num_keys(old(node)@),
        spec_internal_num_keys(old(node)@) < INTERNAL_NODE_MAX_CELLS,
    ensures
        final(node)@.len() == PAGE_SIZE,
        spec_internal_num_keys(final(node)@) == spec_internal_num_keys(old(node)@),
        spec_node_type(final(node)@) == spec_node_type(old(node)@),
        spec_is_root(final(node)@) == spec_is_root(old(node)@),
        child_num == spec_internal_num_keys(old(node)@) ==> spec_internal_right_child(final(node)@) == ptr
            && forall|k: int|
            0 <= k < INTERNAL_NODE_MAX_CELLS ==> spec_internal_child(final(node)@, k)
                == spec_internal_child(old(node)@, k),
        child_num < spec_internal_num_keys(old(node)@) ==> spec_internal_child(
            final(node)@,
            child_num as int,
        ) == ptr && spec_internal_right_child(final(node)@) == spec_internal_right_child(old(node)@)
            && forall|k: int|
            0 <= k < INTERNAL_NODE_MAX_CELLS && k != child_num ==> spec_internal_child(final(node)@, k)
                == spec_internal_child(old(node)@, k),
        forall|k: int|
            0 <= k < INTERNAL_NODE_MAX_CELLS ==> spec_internal_key(final(node)@, k) == spec_internal_key(
                old(node)@,
                k,
            ),
        child_num == spec_internal_num_keys(old(node)@) ==> forall|i: int|
            0 <= i < PAGE_SIZE && !(INTERNAL_NODE_RIGHT_CHILD_OFFSET <= i
                < INTERNAL_NODE_HEADER_SIZE) ==> final(node)@[i] == old(node)@[i],
        child_num < spec_internal_num_keys(old(node)@) ==> forall|i: int|
            0 <= i < PAGE_SIZE && !(internal_cell_off(child_num as int) <= i < internal_cell_off(
                child_num as int,
            ) + INTERNAL_NODE_CHILD_SIZE) ==> final(node)@[i] == old(node)@[i],
{
    let num_keys = internal_node_num_keys(node);
    if child_num == num_keys {
        write_internal_node_right_child_pointer(node, ptr);
    } else {
        write_internal_node_child_pointer(node, child_num, ptr);
    }
}

pub fn get_node_type(node: &Vec<u8>) -> (t: NodeType)
    requires
        node@.len() == PAGE_SIZE,
        spec_node_type(node@) == NODE_TYPE_LEAF || spec_node_type(node@) == NODE_TYPE_INTERNAL,
    ensures
        t is Leaf <==> spec_node_type(node@) == NODE_TYPE_LEAF,
        t is Internal <==> spec_node_type(node@) == NODE_TYPE_INTERNAL,
{
    let x = node[NODE_TYPE_OFFSET];
    if x == NODE_TYPE_LEAF {
        NodeType::Leaf
    } else {
        NodeType::Internal
    }
}

pub fn set_node_type(node: &mut Vec<u8>, t: NodeType)
    requires
        old(node)@.len() == PAGE_SIZE,
    ensures
        final(node)@.len() == PAGE_SIZE,
        spec_node_type(final(node)@) == (if t is Leaf {
            NODE_TYPE_LEAF
        } else {
            NODE_TYPE_INTERNAL
        }),
        spec_is_root(final(node)@) == spec_is_root(old(node)@),
        spec_leaf_num_cells(final(node)@) == spec_leaf_num_cells(old(node)@),
        spec_internal_num_keys(final(node)@) == spec_internal_num_keys(old(node)@),
        spec_internal_right_child(final(node)@) == spec_internal_right_child(old(node)@),
        forall|k: int|
            0 <= k < LEAF_NODE_MAX_CELLS ==> spec_leaf_key(final(node)@, k) == spec_leaf_key(
                old(node)@,
                k,
            ),
        forall|k: int|
            0 <= k < LEAF_NODE_MAX_CELLS ==> spec_leaf_value(final(node)@, k) == spec_leaf_value(
                old(node)@,
                k,
            ),
        forall|k: int|
            0 <= k < INTERNAL_NODE_MAX_CELLS ==> spec_internal_child(final(node)@, k)
                == spec_internal_child(old(node)@, k),
        forall|k: int|
            0 <= k < INTERNAL_NODE_MAX_CELLS ==> spec_internal_key(final(node)@, k) == spec_internal_key(
                old(node)@,
                k,
            ),
        forall|i: int|
            0 <= i < PAGE_SIZE && i != NODE_TYPE_OFFSET ==> final(node)@[i] == old(node)@[i],
{
    match t {
        NodeType::Leaf => node.set(NODE_TYPE_OFFSET, NODE_TYPE_LEAF),
        NodeType::Internal => node.set(NODE_TYPE_OFFSET, NODE_TYPE_INTERNAL),
    }
    proof {
        lemma_leaf_frame(node@, old(node)@, NODE_TYPE_OFFSET as int, NODE_TYPE_OFFSET + 1);
        lemma_internal_frame(node@, old(node)@, NODE_TYPE_OFFSET as int, NODE_TYPE_OFFSET + 1);
    }
}

pub fn is_node_root(node: &Vec<u8>) -> (r: bool)
    requires
        node@.len() == PAGE_SIZE,
    ensures
        r == spec_is_root(node@),
{
    let v = node[IS_ROOT_OFFSET];
    v != 0
}

pub fn set_node_root(node: &mut Vec<u8>, is_root: bool)
    requires
        old(node)@.len() == PAGE_SIZE,
    ensures
        final(node)@.len() == PAGE_SIZE,
        spec_is_root(final(node)@) == is_root,
        spec_node_type(final(node)@) == spec_node_type(old(node)@),
        spec_leaf_num_cells(final(node)@) == spec_leaf_num_cells(old(node)@),
        spec_internal_num_keys(final(node)@) == spec_internal_num_keys(old(node)@),
        spec_internal_right_child(final(node)@) == spec_internal_right_child(old(node)@),
        forall|k: int|
            0 <= k < LEAF_NODE_MAX_CELLS ==> spec_leaf_key(final(node)@, k) == spec_leaf_key(
                old(node)@,
                k,
            ),
        forall|k: int|
            0 <= k < LEAF_NODE_MAX_CELLS ==> spec_leaf_value(final(node)@, k) == spec_leaf_value(
                old(node)@,
                k,
            ),
        forall|k: int|
            0 <= k < INTERNAL_NODE_MAX_CELLS ==> spec_internal_child(final(node)@, k)
                == spec_internal_child(old(node)@, k),
        forall|k: int|
            0 <= k < INTERNAL_NODE_MAX_CELLS ==> spec_internal_key(final(node)@, k) == spec_internal_key(
                old(node)@,
                k,
            ),
        forall|i: int|
            0 <= i < PAGE_SIZE && i != IS_ROOT_OFFSET ==> final(node)@[i] == old(node)@[i],
{
    if is_root {
        node.set(IS_ROOT_OFFSET, 1);
    } else {
        node.set(IS_ROOT_OFFSET, 0);
    }
    proof {
        lemma_leaf_frame(node@, old(node)@, IS_ROOT_OFFSET as int, IS_ROOT_OFFSET + 1);
        lemma_internal_frame(node@, old(node)@, IS_ROOT_OFFSET as int, IS_ROOT_OFFSET + 1);
    }
}

pub fn get_node_max_key(node: &Vec<u8>) -> (r: u32)
    requires
        node@.len() == PAGE_SIZE,
        spec_node_type(node@) == NODE_TYPE_LEAF || spec_node_type(node@) == NODE_TYPE_INTERNAL,
        spec_node_type(node@) == NODE_TYPE_LEAF ==> 1 <= spec_leaf_num_cells(node@)
            <= LEAF_NODE_MAX_CELLS,
        spec_node_type(node@) == NODE_TYPE_INTERNAL ==> 1 <= spec_internal_num_keys(node@)
            <= INTERNAL_NODE_MAX_CELLS,
    ensures
        spec_node_type(node@) == NODE_TYPE_LEAF ==> r == spec_leaf_key(
            node@,
            spec_leaf_num_cells(node@) - 1,
        ),
        spec_node_type(node@) == NODE_TYPE_INTERNAL ==> r == spec_internal_key(
            node@,
            spec_internal_num_keys(node@) - 1,
        ),
{
    match get_node_type(node) {
        NodeType::Internal => internal_node_key(node, internal_node_num_keys(node) - 1),
        NodeType::Leaf => leaf_node_key(node, leaf_node_num_cells(node) - 1),
    }
}

/// Sets the type to leaf and the cell count to zero. The root flag is left
/// untouched, for the caller to set explicitly.
pub fn initialize_leaf_node(node: &mut Vec<u8>)
    requires
        old(node)@.len() == PAGE_SIZE,
    ensures
        final(node)@.len() == PAGE_SIZE,
        spec_node_type(final(node)@) == NODE_TYPE_LEAF,
        spec_is_root(final(node)@) == spec_is_root(old(node)@),
        spec_leaf_num_cells(final(node)@) == 0,
        forall|k: int|
            0 <= k < LEAF_NODE_MAX_CELLS ==> spec_leaf_key(final(node)@, k) == spec_leaf_key(
                old(node)@,
                k,
            ),
        forall|k: int|
            0 <= k < LEAF_NODE_MAX_CELLS ==> spec_leaf_value(final(node)@, k) == spec_leaf_value(
                old(node)@,
                k,
            ),
        forall|i: int|
            0 <= i < PAGE_SIZE && i != NODE_TYPE_OFFSET && !(LEAF_NODE_NUM_CELLS_OFFSET <= i
                < LEAF_NODE_HEADER_SIZE) ==> final(node)@[i] == old(node)@[i],
{
    set_node_type(node, NodeType::Leaf);
    write_leaf_node_num_cells(node, 0);
}

/// Sets the type to internal and the key count to zero. The root flag is
/// left untouched, for the caller to set explicitly.
pub fn initialize_internal_node(node: &mut Vec<u8>)
    requires
        old(node)@.len() == PAGE_SIZE,
    ensures
        final(node)@.len() == PAGE_SIZE,
        spec_node_type(final(node)@) == NODE_TYPE_INTERNAL,
        spec_is_root(final(node)@) == spec_is_root(old(node)@),
        spec_internal_num_keys(final(node)@) == 0,
        spec_internal_right_child(final(node)@) == spec_internal_right_child(old(node)@),
        forall|k: int|
            0 <= k < INTERNAL_NODE_MAX_CELLS ==> spec_internal_child(final(node)@, k)
                == spec_internal_child(old(node)@, k),
        forall|k: int|
            0 <= k < INTERNAL_NODE_MAX_CELLS ==> spec_internal_key(final(node)@, k) == spec_internal_key(
                old(node)@,
                k,
            ),
        forall|i: int|
            0 <= i < PAGE_SIZE && i != NODE_TYPE_OFFSET && !(INTERNAL_NODE_NUM_KEYS_OFFSET <= i
                < INTERNAL_NODE_RIGHT_CHILD_OFFSET) ==> final(node)@[i] == old(node)@[i],
{
    set_node_type(node, NodeType::Internal);
    write_internal_node_num_keys(node, 0);
}

/// Copies one whole leaf cell (key and value) between two pages.
pub fn copy_leaf_node_cell(
    node_from: &Vec<u8>,
    from_cell_num: usize,
    node_to: &mut Vec<u8>,
    to_cell_num: usize,
)
    requires
        node_from@.len() == PAGE_SIZE,
        old(node_to)@.len() == PAGE_SIZE,
        from_cell_num < LEAF_NODE_MAX_CELLS,
        to_cell_num < LEAF_NODE_MAX_CELLS,
    ensures
        final(node_to)@.len() == PAGE_SIZE,
        spec_leaf_key(final(node_to)@, to_cell_num as int) == spec_leaf_key(
            node_from@,
            from_cell_num as int,
        ),
        spec_leaf_value(final(node_to)@, to_cell_num as int) == spec_leaf_value(
            node_from@,
            from_cell_num as int,
        ),
        spec_leaf_num_cells(final(node_to)@) == spec_leaf_num_cells(old(node_to)@),
        spec_node_type(final(node_to)@) == spec_node_type(old(node_to)@),
        spec_is_root(final(node_to)@) == spec_is_root(old(node_to)@),
        forall|k: int|
            0 <= k < LEAF_NODE_MAX_CELLS && k != to_cell_num ==> spec_leaf_key(final(node_to)@, k)
                == spec_leaf_key(old(node_to)@, k),
        forall|k: int|
            0 <= k < LEAF_NODE_MAX_CELLS && k != to_cell_num ==> spec_leaf_value(final(node_to)@, k)
                == spec_leaf_value(old(node_to)@, k),
        forall|i: int|
            0 <= i < PAGE_SIZE && !(leaf_cell_off(to_cell_num as int) <= i < leaf_cell_off(to_cell_num as int)
                + LEAF_NODE_CELL_SIZE) ==> final(node_to)@[i] == old(node_to)@[i],
{
    let from_offset: usize = LEAF_NODE_HEADER_SIZE + from_cell_num * LEAF_NODE_CELL_SIZE;
    let to_offset: usize = LEAF_NODE_HEADER_SIZE + to_cell_num * LEAF_NODE_CELL_SIZE;
    let mut i: usize = 0;
    while i < LEAF_NODE_CELL_SIZE
        invariant
            node_from@.len() == PAGE_SIZE,
            node_to@.len() == PAGE_SIZE,
            from_cell_num < LEAF_NODE_MAX_CELLS,
            to_cell_num < LEAF_NODE_MAX_CELLS,
            from_offset == leaf_cell_off(from_cell_num as int),
            to_offset == leaf_cell_off(to_cell_num as int),
            i <= LEAF_NODE_CELL_SIZE,
            forall|j: int|
                0 <= j < PAGE_SIZE && !(to_offset <= j < to_offset + i) ==> node_to@[j] == old(
                    node_to,
                )@[j],
            forall|j: int|
                0 <= j < i ==> #[trigger] node_to@[to_offset + j] == node_from@[from_offset
                    + j],
        decreases LEAF_NODE_CELL_SIZE - i,
    {
        node_to.set(to_offset + i, node_from[from_offset + i]);
        i = i + 1;
    }
    proof {
        lemma_le32_frame_shifted(node_to@, node_from@, to_offset as int, from_offset as int);
        assert forall|j: int|
            0 <= j < LEAF_NODE_VALUE_SIZE implies #[trigger] node_to@[to_offset
            + LEAF_NODE_KEY_SIZE + j] == node_from@[from_offset + LEAF_NODE_KEY_SIZE + j] by {
            assert(node_to@[to_offset + (LEAF_NODE_KEY_SIZE + j)] == node_from@[from_offset + (
            LEAF_NODE_KEY_SIZE + j)]);
        }
        lemma_subrange_eq_shifted(
            node_to@,
            node_from@,
            to_offset + LEAF_NODE_KEY_SIZE,
            from_offset + LEAF_NODE_KEY_SIZE,
            LEAF_NODE_VALUE_SIZE as int,
        );
        lemma_leaf_frame(
            node_to@,
            old(node_to)@,
            to_offset as int,
            to_offset + LEAF_NODE_CELL_SIZE,
        );
    }
}

/// Two buffers that agree on four bytes at possibly different offsets store
/// the same u32 there.
proof fn lemma_le32_frame_shifted(p: Seq<u8>, q: Seq<u8>, a: int, b: int)
    requires
        0 <= a,
        a + 4 <= p.len(),
        0 <= b,
        b + 4 <= q.len(),
        forall|j: int| 0 <= j < 4 ==> #[trigger] p[a + j] == q[b + j],
    ensures
        le32(p, a) == le32(q, b),
{
    let ps = p.subrange(a, a + 4);
    let qs = q.subrange(b, b + 4);
    assert forall|j: int| 0 <= j < 4 implies ps[j] == qs[j] by {
        assert(p[a + j] == q[b + j]);
    }
    assert(ps =~= qs);
}

proof fn lemma_subrange_eq_shifted(p: Seq<u8>, q: Seq<u8>, a: int, b: int, n: int)
    requires
        0 <= n,
        0 <= a,
        a + n <= p.len(),
        0 <= b,
        b + n <= q.len(),
        forall|j: int| 0 <= j < n ==> #[trigger] p[a + j] == q[b + j],
    ensures
        p.subrange(a, a + n) == q.subrange(b, b + n),
{
    let ps = p.subrange(a, a + n);
    let qs = q.subrange(b, b + n);
    assert forall|j: int| 0 <= j < n implies ps[j] == qs[j] by {
        assert(p[a + j] == q[b + j]);
    }
    assert(ps =~= qs);
}

/// Overwrites `node_to` with the whole contents of `node_from`.
pub fn copy_page(node_from: &Vec<u8>, node_to: &mut Vec<u8>)
    requires
        node_from@.len() == PAGE_SIZE,
        old(node_to)@.len() == PAGE_SIZE,
    ensures
        final(node_to)@ == node_from@,
{
    let mut i: usize = 0;
    while i < PAGE_SIZE
        invariant
            node_from@.len() == PAGE_SIZE,
            node_to@.len() == PAGE_SIZE,
            i <= PAGE_SIZE,
            forall|j: int| 0 <= j < i ==> node_to@[j] == node_from@[j],
        decreases PAGE_SIZE - i,
    {
        node_to.set(i, node_from[i]);
        i = i + 1;
    }
    proof {
        assert(node_to@ =~= node_from@);
    }
}

/// A fresh all-zero page.
pub fn zero_page() -> (r: Vec<u8>)
    ensures
        r@.len() == PAGE_SIZE,
        forall|i: int| 0 <= i < PAGE_SIZE ==> r@[i] == 0u8,
{
    let r: Vec<u8> = vec![0u8; PAGE_SIZE];
    r
}

} // verus!
