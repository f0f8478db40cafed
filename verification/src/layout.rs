//! On-disk layout: the sizes and offsets of every field of a page, and the
//! specification-level readers for those fields over a page's byte sequence.
//! A page is exactly one node of the B-tree; a one-byte tag at offset 0
//! distinguishes leaf nodes from internal nodes.

use vstd::prelude::*;
use vstd::bytes::spec_u32_from_le_bytes;

verus! {

pub const ID_SIZE: usize = 4;
// String fields keep one extra byte so a value at full capacity is still
// followed by a terminator slot in the next field's absence.
pub const USERNAME_SIZE: usize = 32 + 1;
pub const EMAIL_SIZE: usize = 255 + 1;
pub const USERNAME_OFFSET: usize = ID_SIZE;
pub const EMAIL_OFFSET: usize = USERNAME_OFFSET + USERNAME_SIZE;
pub const ROW_SIZE: usize = ID_SIZE + USERNAME_SIZE + EMAIL_SIZE;

pub const USERNAME_MAX_BYTES: usize = 32;
pub const EMAIL_MAX_BYTES: usize = 255;

pub const PAGE_SIZE: usize = 4096;
pub const TABLE_MAX_PAGES: usize = 100;

// Common node header: node type (u8), is-root flag (u8), parent pointer
// (u32, reserved space that the split protocol never consults).
pub const NODE_TYPE_SIZE: usize = 1;
pub const NODE_TYPE_OFFSET: usize = 0;
pub const IS_ROOT_SIZE: usize = 1;
pub const IS_ROOT_OFFSET: usize = NODE_TYPE_SIZE;
pub const PARENT_POINTER_SIZE: usize = 4;
pub const PARENT_POINTER_OFFSET: usize = IS_ROOT_OFFSET + IS_ROOT_SIZE;
pub const COMMON_NODE_HEADER_SIZE: usize = NODE_TYPE_SIZE + IS_ROOT_SIZE + PARENT_POINTER_SIZE;

// Leaf node header: common header, then the cell count (u32).
pub const LEAF_NODE_NUM_CELLS_SIZE: usize = 4;
pub const LEAF_NODE_NUM_CELLS_OFFSET: usize = COMMON_NODE_HEADER_SIZE;
pub const LEAF_NODE_HEADER_SIZE: usize = COMMON_NODE_HEADER_SIZE + LEAF_NODE_NUM_CELLS_SIZE;

// Leaf node body: an array of cells, each a u32 key followed by a row image.
pub const LEAF_NODE_KEY_SIZE: usize = 4;
pub const LEAF_NODE_VALUE_SIZE: usize = ROW_SIZE;
// Key plus row image; written as its value so that cell offsets stay linear.
pub const LEAF_NODE_CELL_SIZE: usize = 297;
pub const LEAF_NODE_SPACE_FOR_CELLS: usize = PAGE_SIZE - LEAF_NODE_HEADER_SIZE;
pub const LEAF_NODE_MAX_CELLS: usize = LEAF_NODE_SPACE_FOR_CELLS / LEAF_NODE_CELL_SIZE;

// On overflow the old cells plus the new one are parted between the old
// (left) leaf and a fresh right leaf.
pub const LEAF_NODE_RIGHT_SPLIT_COUNT: usize = (LEAF_NODE_MAX_CELLS + 1) / 2;
pub const LEAF_NODE_LEFT_SPLIT_COUNT: usize = (LEAF_NODE_MAX_CELLS + 1) - LEAF_NODE_RIGHT_SPLIT_COUNT;

// Internal node header: common header, then the key count (u32) and the page
// number of the rightmost child (u32).
pub const INTERNAL_NODE_NUM_KEYS_SIZE: usize = 4;
pub const INTERNAL_NODE_NUM_KEYS_OFFSET: usize = COMMON_NODE_HEADER_SIZE;
pub const INTERNAL_NODE_RIGHT_CHILD_SIZE: usize = 4;
pub const INTERNAL_NODE_RIGHT_CHILD_OFFSET: usize = INTERNAL_NODE_NUM_KEYS_OFFSET
    + INTERNAL_NODE_NUM_KEYS_SIZE;
pub const INTERNAL_NODE_HEADER_SIZE: usize = COMMON_NODE_HEADER_SIZE + INTERNAL_NODE_NUM_KEYS_SIZE
    + INTERNAL_NODE_RIGHT_CHILD_SIZE;

// Internal node body: an array of cells, each a u32 child page number
// followed by the u32 separator key (the greatest key of that child).
pub const INTERNAL_NODE_KEY_SIZE: usize = 4;
pub const INTERNAL_NODE_CHILD_SIZE: usize = 4;
// Child pointer plus separator key; written as its value so that cell offsets stay linear.
pub const INTERNAL_NODE_CELL_SIZE: usize = 8;
pub const INTERNAL_NODE_MAX_CELLS: usize = (PAGE_SIZE - INTERNAL_NODE_HEADER_SIZE)
    / INTERNAL_NODE_CELL_SIZE;

pub const NODE_TYPE_LEAF: u8 = 0;
pub const NODE_TYPE_INTERNAL: u8 = 1;

/// The u32 stored little-endian in the four bytes of `p` starting at `off`.
pub open spec fn le32(p: Seq<u8>, off: int) -> u32
    recommends
        0 <= off,
        off + 4 <= p.len(),
{
    spec_u32_from_le_bytes(p.subrange(off, off + 4))
}

pub open spec fn spec_node_type(p: Seq<u8>) -> u8
    recommends
        p.len() == PAGE_SIZE,
{
    p[NODE_TYPE_OFFSET as int]
}

pub open spec fn spec_is_root(p: Seq<u8>) -> bool
    recommends
        p.len() == PAGE_SIZE,
{
    p[IS_ROOT_OFFSET as int] != 0
}

pub open spec fn spec_leaf_num_cells(p: Seq<u8>) -> u32
    recommends
        p.len() == PAGE_SIZE,
{
    le32(p, LEAF_NODE_NUM_CELLS_OFFSET as int)
}

/// Byte offset of leaf cell `i` within its page.
pub open spec fn leaf_cell_off(i: int) -> int {
    LEAF_NODE_HEADER_SIZE + i * LEAF_NODE_CELL_SIZE
}

pub open spec fn spec_leaf_key(p: Seq<u8>, i: int) -> u32
    recommends
        p.len() == PAGE_SIZE,
        0 <= i < LEAF_NODE_MAX_CELLS,
{
    le32(p, leaf_cell_off(i))
}

pub open spec fn spec_leaf_value(p: Seq<u8>, i: int) -> Seq<u8>
    recommends
        p.len() == PAGE_SIZE,
        0 <= i < LEAF_NODE_MAX_CELLS,
{
    p.subrange(leaf_cell_off(i) + LEAF_NODE_KEY_SIZE, leaf_cell_off(i) + LEAF_NODE_CELL_SIZE)
}

/// The keys of a leaf, in cell order.
pub open spec fn spec_leaf_keys(p: Seq<u8>) -> Seq<u32>
    recommends
        p.len() == PAGE_SIZE,
        spec_leaf_num_cells(p) <= LEAF_NODE_MAX_CELLS,
{
    Seq::new(spec_leaf_num_cells(p) as nat, |i: int| spec_leaf_key(p, i))
}

pub open spec fn leaf_keys_sorted(p: Seq<u8>) -> bool {
    forall|i: int, j: int|
        0 <= i < j < spec_leaf_num_cells(p) ==> spec_leaf_key(p, i) < spec_leaf_key(p, j)
}

pub open spec fn spec_internal_num_keys(p: Seq<u8>) -> u32
    recommends
        p.len() == PAGE_SIZE,
{
    le32(p, INTERNAL_NODE_NUM_KEYS_OFFSET as int)
}

pub open spec fn spec_internal_right_child(p: Seq<u8>) -> u32
    recommends
        p.len() == PAGE_SIZE,
{
    le32(p, INTERNAL_NODE_RIGHT_CHILD_OFFSET as int)
}

/// Byte offset of internal cell `i` within its page.
pub open spec fn internal_cell_off(i: int) -> int {
    INTERNAL_NODE_HEADER_SIZE + i * INTERNAL_NODE_CELL_SIZE
}

pub open spec fn spec_internal_child(p: Seq<u8>, i: int) -> u32
    recommends
        p.len() == PAGE_SIZE,
{
    le32(p, internal_cell_off(i))
}

pub open spec fn spec_internal_key(p: Seq<u8>, i: int) -> u32
    recommends
        p.len() == PAGE_SIZE,
{
    le32(p, internal_cell_off(i) + INTERNAL_NODE_CHILD_SIZE)
}

/// Framing: two pages that agree byte for byte on a four-byte field store the
/// same u32 there.
pub proof fn lemma_le32_frame(p: Seq<u8>, q: Seq<u8>, off: int)
    requires
        0 <= off,
        off + 4 <= p.len(),
        off + 4 <= q.len(),
        forall|i: int| off <= i < off + 4 ==> p[i] == q[i],
    ensures
        le32(p, off) == le32(q, off),
{
    assert(p.subrange(off, off + 4) =~= q.subrange(off, off + 4));
}

/// Framing for a whole byte range.
pub proof fn lemma_subrange_frame(p: Seq<u8>, q: Seq<u8>, a: int, b: int)
    requires
        0 <= a <= b,
        b <= p.len(),
        b <= q.len(),
        forall|i: int| a <= i < b ==> p[i] == q[i],
    ensures
        p.subrange(a, b) == q.subrange(a, b),
{
    assert(p.subrange(a, b) =~= q.subrange(a, b));
}

} // verus!
