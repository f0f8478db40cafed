//! The table: the pager plus the root page number, which is always zero.
//! Page 0 is either a leaf holding every row, or — after the root has been
//! split — an internal node whose children are leaves. The well-formedness
//! predicate `tree_wf` is checked when a database file is opened and is
//! preserved by every operation.

use vstd::prelude::*;
use crate::layout::{
    PAGE_SIZE, TABLE_MAX_PAGES, NODE_TYPE_OFFSET, NODE_TYPE_LEAF, NODE_TYPE_INTERNAL,
    LEAF_NODE_MAX_CELLS, INTERNAL_NODE_MAX_CELLS, spec_node_type, spec_leaf_num_cells,
    spec_leaf_key, spec_leaf_value, leaf_keys_sorted, spec_internal_num_keys,
    spec_internal_right_child, spec_internal_child, spec_internal_key,
};
use crate::node::{
    leaf_node_num_cells, leaf_node_key, leaf_node_value, internal_node_num_keys,
    internal_node_key, internal_node_child_pointer, internal_node_right_child_pointer,
    initialize_leaf_node, set_node_root, zero_page, write_leaf_node_key_cell,
    write_leaf_node_num_cells, write_internal_node_num_keys, write_internal_node_key,
    write_internal_node_right_child_pointer,
};
use crate::pager::{Pager, DbError};
use crate::row::{Row, row_image_valid};
use crate::cursor::Cursor;

verus! {

/// A well-formed leaf page: tagged as a leaf, within capacity, keys
/// strictly ascending, and every stored row image decodable.
pub open spec fn leaf_wf(p: Seq<u8>) -> bool {
    &&& p.len() == PAGE_SIZE
    &&& spec_node_type(p) == NODE_TYPE_LEAF
    &&& spec_leaf_num_cells(p) <= LEAF_NODE_MAX_CELLS
    &&& leaf_keys_sorted(p)
    &&& forall|i: int|
        0 <= i < spec_leaf_num_cells(p) ==> row_image_valid(#[trigger] spec_leaf_value(p, i))
}

/// Child page number in slot `j` of an internal node: the rightmost child
/// when `j` equals the key count, the cell's child pointer otherwise.
pub open spec fn child_of(p: Seq<u8>, j: int) -> u32 {
    if j == spec_internal_num_keys(p) {
        spec_internal_right_child(p)
    } else {
        spec_internal_child(p, j)
    }
}

pub open spec fn leaf_first_key(p: Seq<u8>) -> u32 {
    spec_leaf_key(p, 0)
}

pub open spec fn leaf_last_key(p: Seq<u8>) -> u32 {
    spec_leaf_key(p, spec_leaf_num_cells(p) - 1)
}

/// A well-formed internal root over the page array: at least one key, all
/// children distinct well-formed nonempty leaves off page 0, each key the
/// greatest key of its child, and each child's keys above the previous key.
pub open spec fn internal_root_wf(pages: Seq<Seq<u8>>) -> bool {
    let p = pages[0];
    let nk = spec_internal_num_keys(p) as int;
    &&& spec_node_type(p) == NODE_TYPE_INTERNAL
    &&& 1 <= nk
    &&& nk + 2 <= pages.len()
    &&& forall|j: int| 0 <= j <= nk ==> 0 < (#[trigger] child_of(p, j)) < pages.len()
    &&& forall|j1: int, j2: int| 0 <= j1 < j2 <= nk ==> child_of(p, j1) != child_of(p, j2)
    &&& forall|j: int| 0 <= j <= nk ==> leaf_wf(#[trigger] pages[child_of(p, j) as int])
    &&& forall|j: int|
        0 <= j <= nk ==> spec_leaf_num_cells(#[trigger] pages[child_of(p, j) as int]) >= 1
    &&& forall|j: int|
        0 <= j < nk ==> (#[trigger] spec_internal_key(p, j)) == leaf_last_key(
            pages[child_of(p, j) as int],
        )
    &&& forall|j: int|
        1 <= j <= nk ==> leaf_first_key(#[trigger] pages[child_of(p, j) as int])
            > spec_internal_key(p, j - 1)
}

/// A well-formed tree over the page array.
pub open spec fn tree_wf(pages: Seq<Seq<u8>>) -> bool {
    &&& 1 <= pages.len() <= TABLE_MAX_PAGES
    &&& forall|i: int| 0 <= i < pages.len() ==> (#[trigger] pages[i]).len() == PAGE_SIZE
    &&& (spec_node_type(pages[0]) == NODE_TYPE_LEAF ==> leaf_wf(pages[0]))
    &&& (spec_node_type(pages[0]) == NODE_TYPE_INTERNAL ==> internal_root_wf(pages))
    &&& (spec_node_type(pages[0]) == NODE_TYPE_LEAF || spec_node_type(pages[0])
        == NODE_TYPE_INTERNAL)
}

/// The cells of one leaf, in cell order.
pub open spec fn leaf_cells_seq(p: Seq<u8>) -> Seq<(u32, Seq<u8>)> {
    Seq::new(
        spec_leaf_num_cells(p) as nat,
        |i: int| (spec_leaf_key(p, i), spec_leaf_value(p, i)),
    )
}

/// The database file's bytes split into pages.
pub open spec fn spec_file_pages(bytes: Seq<u8>) -> Seq<Seq<u8>> {
    Seq::new(
        bytes.len() / (PAGE_SIZE as nat),
        |i: int| bytes.subrange(i * PAGE_SIZE, (i + 1) * PAGE_SIZE),
    )
}

pub struct Table {
    pub pager: Pager,
    pub root_page_num: usize,
}

impl Table {
    /// The images of the resident pages, in page order.
    pub open spec fn pages_view(&self) -> Seq<Seq<u8>> {
        Seq::new(self.pager.num_pages as nat, |i: int| self.pager.page_at(i))
    }

    pub open spec fn root(&self) -> Seq<u8> {
        self.pager.page_at(0)
    }

    pub open spec fn wf(&self) -> bool {
        &&& self.pager.wf()
        &&& self.root_page_num == 0
        &&& 1 <= self.pager.num_pages
        &&& tree_wf(self.pages_view())
    }

    /// The cells of the children in slots `j .. m`, concatenated.
    pub open spec fn cells_range(&self, j: int, m: int) -> Seq<(u32, Seq<u8>)>
        decreases m - j,
    {
        if j >= m {
            Seq::empty()
        } else {
            leaf_cells_seq(self.pager.page_at(child_of(self.root(), j) as int)) + self.cells_range(
                j + 1,
                m,
            )
        }
    }

    /// Every cell of the table in tree order: the root leaf's cells, or the
    /// cells of all children left to right.
    pub open spec fn table_cells(&self) -> Seq<(u32, Seq<u8>)> {
        if spec_node_type(self.root()) == NODE_TYPE_LEAF {
            leaf_cells_seq(self.root())
        } else {
            self.cells_range(0, spec_internal_num_keys(self.root()) + 1)
        }
    }

    pub open spec fn table_keys(&self) -> Seq<u32> {
        self.table_cells().map_values(|c: (u32, Seq<u8>)| c.0)
    }

    pub open spec fn contains_key(&self, k: u32) -> bool {
        exists|i: int| 0 <= i < self.table_cells().len() && (#[trigger] self.table_cells()[i]).0 == k
    }

    /// Opens a table over the database file's bytes. An empty file gets a
    /// fresh root leaf; any other file must already hold a well-formed
    /// tree, and the errors say which way a file fails.
    pub fn new(file_bytes: &Vec<u8>) -> (r: Result<Table, DbError>)
        ensures
            match r {
                Ok(t) => {
                    &&& t.wf()
                    &&& (file_bytes@.len() == 0 ==> t.pager.num_pages == 1 && spec_node_type(
                        t.root(),
                    ) == NODE_TYPE_LEAF && spec_leaf_num_cells(t.root()) == 0
                        && crate::layout::spec_is_root(t.root()) && t.table_cells()
                        =~= Seq::<(u32, Seq<u8>)>::empty())
                    &&& (file_bytes@.len() > 0 ==> t.pages_view() == spec_file_pages(file_bytes@))
                },
                Err(e) => {
                    &&& (e is CorruptFile ==> file_bytes@.len() % (PAGE_SIZE as nat) != 0
                        || file_bytes@.len() / (PAGE_SIZE as nat) > TABLE_MAX_PAGES)
                    &&& (e is InvalidNode ==> file_bytes@.len() % (PAGE_SIZE as nat) == 0 && 0
                        < file_bytes@.len() / (PAGE_SIZE as nat) <= TABLE_MAX_PAGES && !tree_wf(
                        spec_file_pages(file_bytes@),
                    ))
                },
            },
    {
        let pager = match Pager::new(file_bytes) {
            Ok(p) => p,
            Err(e) => {
                return Err(e);
            },
        };
        let mut table = Table { pager, root_page_num: 0 };
        if table.pager.num_pages == 0 {
            // New database file. Initialize page 0 as an empty leaf, the root.
            let mut root_node = zero_page();
            initialize_leaf_node(&mut root_node);
            set_node_root(&mut root_node, true);
            table.pager.write_page(0, root_node);
            proof {
                assert(leaf_wf(table.pages_view()[0]));
                assert(leaf_cells_seq(table.root()) =~= Seq::<(u32, Seq<u8>)>::empty());
            }
            Ok(table)
        } else {
            proof {
                assert(table.pages_view() =~= spec_file_pages(file_bytes@));
            }
            let root_node = table.pager.flush_page(0);
            let tag = root_node[NODE_TYPE_OFFSET];
            if tag == NODE_TYPE_LEAF {
                if validate_leaf_page(&root_node) {
                    Ok(table)
                } else {
                    Err(DbError::InvalidNode)
                }
            } else if tag == NODE_TYPE_INTERNAL {
                if validate_internal_root(&table) {
                    Ok(table)
                } else {
                    Err(DbError::InvalidNode)
                }
            } else {
                Err(DbError::InvalidNode)
            }
        }
    }

    /// The image of every resident page, in page order, for the caller to
    /// write back to the file.
    pub fn flush_all(&self) -> (r: Vec<Vec<u8>>)
        requires
            self.pager.wf(),
        ensures
            r@.len() == self.pager.num_pages,
            forall|i: int| 0 <= i < r@.len() ==> (#[trigger] r@[i])@ == self.pager.page_at(i),
    {
        let mut out: Vec<Vec<u8>> = Vec::new();
        let mut i: usize = 0;
        while i < self.pager.num_pages
            invariant
                self.pager.wf(),
                i <= self.pager.num_pages,
                out@.len() == i,
                forall|k: int| 0 <= k < i ==> (#[trigger] out@[k])@ == self.pager.page_at(k),
            decreases self.pager.num_pages - i,
        {
            out.push(self.pager.flush_page(i));
            i = i + 1;
        }
        out
    }
}

/// Checks that a page is a well-formed leaf: leaf tag, cell count within
/// capacity, keys strictly ascending, every row image decodable.
pub fn validate_leaf_page(page: &Vec<u8>) -> (r: bool)
    requires
        page@.len() == PAGE_SIZE,
    ensures
        r == leaf_wf(page@),
{
    if page[NODE_TYPE_OFFSET] != NODE_TYPE_LEAF {
        return false;
    }
    let num = leaf_node_num_cells(page);
    if num > LEAF_NODE_MAX_CELLS as u32 {
        return false;
    }
    let mut i: u32 = 1;
    while i < num
        invariant
            page@.len() == PAGE_SIZE,
            num == spec_leaf_num_cells(page@),
            num <= LEAF_NODE_MAX_CELLS,
            1 <= i,
            i <= num || num <= 1,
            forall|k: int|
                1 <= k < i ==> spec_leaf_key(page@, k - 1) < #[trigger] spec_leaf_key(page@, k),
        decreases num - i,
    {
        if leaf_node_key(page, i - 1) >= leaf_node_key(page, i) {
            assert(!leaf_keys_sorted(page@));
            return false;
        }
        i = i + 1;
    }
    proof {
        lemma_sorted_from_adjacent(page@);
    }
    let mut c: u32 = 0;
    while c < num
        invariant
            page@.len() == PAGE_SIZE,
            num == spec_leaf_num_cells(page@),
            num <= LEAF_NODE_MAX_CELLS,
            c <= num,
            forall|k: int| 0 <= k < c ==> row_image_valid(#[trigger] spec_leaf_value(page@, k)),
        decreases num - c,
    {
        let v = leaf_node_value(page, c as usize);
        match Row::deserialize(&v, 0) {
            Some(_) => {},
            None => {
                return false;
            },
        }
        c = c + 1;
    }
    true
}

/// Adjacent ascending keys make the whole leaf ascending.
proof fn lemma_key_chain(p: Seq<u8>, i: int, j: int)
    requires
        p.len() == PAGE_SIZE,
        forall|k: int|
            1 <= k < spec_leaf_num_cells(p) ==> spec_leaf_key(p, k - 1) < #[trigger] spec_leaf_key(
                p,
                k,
            ),
        0 <= i < j < spec_leaf_num_cells(p),
    ensures
        spec_leaf_key(p, i) < spec_leaf_key(p, j),
    decreases j - i,
{
    if i + 1 < j {
        lemma_key_chain(p, i, j - 1);
    }
}

proof fn lemma_sorted_from_adjacent(p: Seq<u8>)
    requires
        p.len() == PAGE_SIZE,
        forall|k: int|
            1 <= k < spec_leaf_num_cells(p) ==> spec_leaf_key(p, k - 1) < #[trigger] spec_leaf_key(
                p,
                k,
            ),
    ensures
        leaf_keys_sorted(p),
{
    assert forall|i: int, j: int|
        0 <= i < j < spec_leaf_num_cells(p) implies spec_leaf_key(p, i) < spec_leaf_key(
        p,
        j,
    ) by {
        lemma_key_chain(p, i, j);
    }
}

/// The child pointer in slot `j`, the rightmost one included.
pub fn internal_child_at(root: &Vec<u8>, j: u32) -> (r: u32)
    requires
        root@.len() == PAGE_SIZE,
        j <= spec_internal_num_keys(root@),
        spec_internal_num_keys(root@) < INTERNAL_NODE_MAX_CELLS,
    ensures
        r == child_of(root@, j as int),
{
    let nk = internal_node_num_keys(root);
    if j == nk {
        internal_node_right_child_pointer(root)
    } else {
        internal_node_child_pointer(root, j)
    }
}

/// Checks the whole internal-root shape of `internal_root_wf` against the
/// table's resident pages.
pub fn validate_internal_root(table: &Table) -> (r: bool)
    requires
        table.pager.wf(),
        table.pager.num_pages >= 1,
        spec_node_type(table.pager.page_at(0)) == NODE_TYPE_INTERNAL,
    ensures
        r == internal_root_wf(table.pages_view()),
{
    let root = table.pager.flush_page(0);
    let nk = internal_node_num_keys(&root);
    if nk < 1 {
        return false;
    }
    if nk as usize > table.pager.num_pages || nk as usize + 2 > table.pager.num_pages {
        return false;
    }
    let mut j: u32 = 0;
    while j <= nk
        invariant
            table.pager.wf(),
            root@ == table.pager.page_at(0),
            root@.len() == PAGE_SIZE,
            nk == spec_internal_num_keys(root@),
            1 <= nk,
            nk + 2 <= table.pager.num_pages,
            j <= nk + 1,
            forall|k: int|
                0 <= k < j ==> 0 < (#[trigger] child_of(root@, k)) < table.pager.num_pages,
            forall|k: int|
                0 <= k < j ==> leaf_wf(#[trigger] table.pages_view()[child_of(root@, k) as int]),
            forall|k: int|
                0 <= k < j ==> spec_leaf_num_cells(
                    #[trigger] table.pages_view()[child_of(root@, k) as int],
                ) >= 1,
            forall|k: int|
                0 <= k < j && k < nk ==> (#[trigger] spec_internal_key(root@, k)) == leaf_last_key(
                    table.pages_view()[child_of(root@, k) as int],
                ),
            forall|k: int|
                1 <= k < j ==> leaf_first_key(
                    #[trigger] table.pages_view()[child_of(root@, k) as int],
                ) > spec_internal_key(root@, k - 1),
        decreases nk + 1 - j,
    {
        let child = internal_child_at(&root, j);
        if child == 0 || child as usize >= table.pager.num_pages {
            proof {
                assert(table.pages_view().len() == table.pager.num_pages);
                assert(!(0 < child_of(root@, j as int) < table.pages_view().len()));
            }
            return false;
        }
        let cpage = table.pager.flush_page(child as usize);
        proof {
            assert(table.pages_view()[child as int] == table.pager.page_at(child as int));
        }
        if !validate_leaf_page(&cpage) {
            proof {
                assert(!leaf_wf(table.pages_view()[child_of(root@, j as int) as int]));
            }
            return false;
        }
        let ccells = leaf_node_num_cells(&cpage);
        if ccells == 0 {
            return false;
        }
        if j < nk {
            if internal_node_key(&root, j) != leaf_node_key(&cpage, ccells - 1) {
                return false;
            }
        }
        if j > 0 {
            if leaf_node_key(&cpage, 0) <= internal_node_key(&root, j - 1) {
                return false;
            }
        }
        j = j + 1;
    }
    // children pairwise distinct
    let mut a: u32 = 0;
    while a <= nk
        invariant
            table.pager.wf(),
            root@ == table.pager.page_at(0),
            root@.len() == PAGE_SIZE,
            nk == spec_internal_num_keys(root@),
            1 <= nk,
            nk + 2 <= table.pager.num_pages,
            a <= nk + 1,
            forall|k1: int, k2: int|
                0 <= k1 < a && k1 < k2 <= nk ==> child_of(root@, k1) != child_of(root@, k2),
        decreases nk + 1 - a,
    {
        let ca = internal_child_at(&root, a);
        let mut b: u32 = a + 1;
        while b <= nk
            invariant
                table.pager.wf(),
                root@ == table.pager.page_at(0),
                root@.len() == PAGE_SIZE,
                nk == spec_internal_num_keys(root@),
                nk + 2 <= table.pager.num_pages,
                a < b,
                a <= nk,
                b <= nk + 1,
                ca == child_of(root@, a as int),
                forall|k2: int| a < k2 < b ==> child_of(root@, a as int) != child_of(root@, k2),
            decreases nk + 1 - b,
        {
            if ca == internal_child_at(&root, b) {
                return false;
            }
            b = b + 1;
        }
        a = a + 1;
    }
    true
}

/// The separator keys of a well-formed internal root ascend strictly.
proof fn lemma_sep_chain(pages: Seq<Seq<u8>>, i: int, j: int)
    requires
        internal_root_wf(pages),
        0 <= i < j < spec_internal_num_keys(pages[0]),
    ensures
        spec_internal_key(pages[0], i) < spec_internal_key(pages[0], j),
    decreases j - i,
{
    let p = pages[0];
    if i + 1 < j {
        lemma_sep_chain(pages, i, j - 1);
    }
    let c = pages[child_of(p, j) as int];
    assert(leaf_first_key(c) > spec_internal_key(p, j - 1));
    assert(spec_internal_key(p, j) == leaf_last_key(c));
    if spec_leaf_num_cells(c) > 1 {
        assert(spec_leaf_key(c, 0) < spec_leaf_key(c, spec_leaf_num_cells(c) - 1));
    }
}

pub proof fn lemma_internal_seps_sorted(pages: Seq<Seq<u8>>)
    requires
        internal_root_wf(pages),
    ensures
        forall|i: int, j: int|
            0 <= i < j < spec_internal_num_keys(pages[0]) ==> spec_internal_key(pages[0], i)
                < spec_internal_key(pages[0], j),
{
    assert forall|i: int, j: int|
        0 <= i < j < spec_internal_num_keys(pages[0]) implies spec_internal_key(pages[0], i)
        < spec_internal_key(pages[0], j) by {
        lemma_sep_chain(pages, i, j);
    }
}

/// The slot whose child is responsible for `key`: the first slot whose
/// separator is at least `key`, or the rightmost slot if none is.
pub open spec fn spec_child_slot_from(p: Seq<u8>, key: u32, j: int) -> int
    decreases spec_internal_num_keys(p) - j,
{
    if j >= spec_internal_num_keys(p) {
        j
    } else if key <= spec_internal_key(p, j) {
        j
    } else {
        spec_child_slot_from(p, key, j + 1)
    }
}

pub open spec fn spec_child_slot(p: Seq<u8>, key: u32) -> int {
    spec_child_slot_from(p, key, 0)
}

proof fn lemma_child_slot_from_props(p: Seq<u8>, key: u32, j: int)
    requires
        0 <= j <= spec_internal_num_keys(p),
    ensures
        ({
            let s = spec_child_slot_from(p, key, j);
            &&& j <= s <= spec_internal_num_keys(p)
            &&& forall|i: int| j <= i < s ==> #[trigger] spec_internal_key(p, i) < key
            &&& (s < spec_internal_num_keys(p) ==> key <= spec_internal_key(p, s))
        }),
    decreases spec_internal_num_keys(p) - j,
{
    if j < spec_internal_num_keys(p) && key > spec_internal_key(p, j) {
        lemma_child_slot_from_props(p, key, j + 1);
    }
}

pub proof fn lemma_child_slot_props(p: Seq<u8>, key: u32)
    ensures
        ({
            let s = spec_child_slot(p, key);
            &&& 0 <= s <= spec_internal_num_keys(p)
            &&& forall|i: int| 0 <= i < s ==> #[trigger] spec_internal_key(p, i) < key
            &&& (s < spec_internal_num_keys(p) ==> key <= spec_internal_key(p, s))
        }),
{
    lemma_child_slot_from_props(p, key, 0);
}

proof fn lemma_child_slot_unique_from(p: Seq<u8>, key: u32, j: int, s: int)
    requires
        0 <= j <= s <= spec_internal_num_keys(p),
        forall|i: int| j <= i < s ==> #[trigger] spec_internal_key(p, i) < key,
        s < spec_internal_num_keys(p) ==> key <= spec_internal_key(p, s),
    ensures
        spec_child_slot_from(p, key, j) == s,
    decreases s - j,
{
    if j < s {
        lemma_child_slot_unique_from(p, key, j + 1, s);
    }
}

/// A slot meeting the characterization is the routing slot.
pub proof fn lemma_child_slot_unique(p: Seq<u8>, key: u32, s: int)
    requires
        0 <= s <= spec_internal_num_keys(p),
        forall|i: int| 0 <= i < s ==> #[trigger] spec_internal_key(p, i) < key,
        s < spec_internal_num_keys(p) ==> key <= spec_internal_key(p, s),
    ensures
        spec_child_slot(p, key) == s,
{
    lemma_child_slot_unique_from(p, key, 0, s);
}

/// Binary search over an internal node's separators for the routing slot.
fn internal_find_slot(root: &Vec<u8>, key: u32) -> (r: u32)
    requires
        root@.len() == PAGE_SIZE,
        spec_internal_num_keys(root@) < INTERNAL_NODE_MAX_CELLS,
        forall|i: int, j: int|
            0 <= i < j < spec_internal_num_keys(root@) ==> spec_internal_key(root@, i)
                < spec_internal_key(root@, j),
    ensures
        r == spec_child_slot(root@, key),
{
    let nk = internal_node_num_keys(root);
    let mut min_index: u32 = 0;
    let mut max_index: u32 = nk;
    while min_index != max_index
        invariant
            root@.len() == PAGE_SIZE,
            nk == spec_internal_num_keys(root@),
            nk < INTERNAL_NODE_MAX_CELLS,
            min_index <= max_index <= nk,
            forall|i: int, j: int|
                0 <= i < j < nk ==> spec_internal_key(root@, i) < spec_internal_key(root@, j),
            forall|i: int| 0 <= i < min_index ==> #[trigger] spec_internal_key(root@, i) < key,
            forall|i: int| max_index <= i < nk ==> key <= #[trigger] spec_internal_key(root@, i),
        decreases max_index - min_index,
    {
        let index = min_index + (max_index - min_index) / 2;
        let key_at_index = internal_node_key(root, index);
        if key_at_index >= key {
            max_index = index;
        } else {
            min_index = index + 1;
        }
    }
    proof {
        lemma_child_slot_unique(root@, key, min_index as int);
    }
    min_index
}

impl Table {
    /// Binary search within one leaf: the returned cursor sits on `key`'s
    /// cell if present, else on the slot where `key` would be inserted.
    pub fn leaf_node_find(&self, page_num: u32, key: u32) -> (c: Cursor)
        requires
            self.pager.wf(),
            page_num < self.pager.num_pages,
            leaf_wf(self.pager.page_at(page_num as int)),
        ensures
            ({
                let p = self.pager.page_at(page_num as int);
                let n = spec_leaf_num_cells(p) as int;
                &&& c.page_num == page_num
                &&& !c.end_of_table
                &&& c.cell_num <= n
                &&& forall|i: int| 0 <= i < c.cell_num ==> #[trigger] spec_leaf_key(p, i) < key
                &&& (c.cell_num < n ==> spec_leaf_key(p, c.cell_num as int) >= key)
            }),
    {
        let node = self.pager.flush_page(page_num as usize);
        let num_cells = leaf_node_num_cells(&node);
        let mut min_index: u32 = 0;
        let mut one_past_max_index: u32 = num_cells;
        while one_past_max_index != min_index
            invariant
                self.pager.wf(),
                page_num < self.pager.num_pages,
                node@ == self.pager.page_at(page_num as int),
                leaf_wf(node@),
                num_cells == spec_leaf_num_cells(node@),
                min_index <= one_past_max_index <= num_cells,
                forall|i: int| 0 <= i < min_index ==> #[trigger] spec_leaf_key(node@, i) < key,
                forall|i: int|
                    one_past_max_index <= i < num_cells ==> #[trigger] spec_leaf_key(node@, i)
                        > key,
            decreases one_past_max_index - min_index,
        {
            let index = min_index + (one_past_max_index - min_index) / 2;
            let key_at_index = leaf_node_key(&node, index);
            if key == key_at_index {
                return Cursor {
                    page_num: page_num as usize,
                    cell_num: index as usize,
                    end_of_table: false,
                };
            }
            if key < key_at_index {
                one_past_max_index = index;
            } else {
                min_index = index + 1;
            }
        }
        Cursor { page_num: page_num as usize, cell_num: min_index as usize, end_of_table: false }
    }

    /// The cursor for `key`: in the root leaf, or — under an internal root —
    /// in the child leaf the separators route `key` to.
    pub fn find_node(&self, key: u32) -> (c: Cursor)
        requires
            self.wf(),
        ensures
            ({
                let leaf = self.pager.page_at(c.page_num as int);
                let n = spec_leaf_num_cells(leaf) as int;
                &&& c.page_num < self.pager.num_pages
                &&& leaf_wf(leaf)
                &&& !c.end_of_table
                &&& c.cell_num <= n
                &&& forall|i: int| 0 <= i < c.cell_num ==> #[trigger] spec_leaf_key(leaf, i) < key
                &&& (c.cell_num < n ==> spec_leaf_key(leaf, c.cell_num as int) >= key)
                &&& (spec_node_type(self.root()) == NODE_TYPE_LEAF ==> c.page_num == 0)
                &&& (spec_node_type(self.root()) == NODE_TYPE_INTERNAL ==> c.page_num == child_of(
                    self.root(),
                    spec_child_slot(self.root(), key),
                ))
            }),
    {
        let root_node = self.pager.flush_page(0);
        match crate::node::get_node_type(&root_node) {
            crate::node::NodeType::Leaf => self.leaf_node_find(0, key),
            crate::node::NodeType::Internal => {
                proof {
                    assert(self.pages_view()[0] == self.root());
                    lemma_internal_seps_sorted(self.pages_view());
                    lemma_child_slot_props(self.root(), key);
                    let slot_g = spec_child_slot(self.root(), key);
                    assert(0 < child_of(self.root(), slot_g) < self.pager.num_pages);
                    assert(self.pages_view()[child_of(self.root(), slot_g) as int]
                        == self.pager.page_at(child_of(self.root(), slot_g) as int));
                    assert(leaf_wf(self.pages_view()[child_of(self.root(), slot_g) as int]));
                }
                let slot = internal_find_slot(&root_node, key);
                let child = internal_child_at(&root_node, slot);
                self.leaf_node_find(child, key)
            },
        }
    }

    /// A cursor at the first cell of the table, flagged end-of-table when
    /// the table is empty.
    pub fn start(&self) -> (c: Cursor)
        requires
            self.wf(),
        ensures
            c.cell_num == 0,
            spec_node_type(self.root()) == NODE_TYPE_LEAF ==> c.page_num == 0 && (c.end_of_table
                <==> spec_leaf_num_cells(self.root()) == 0),
            spec_node_type(self.root()) == NODE_TYPE_INTERNAL ==> c.page_num == child_of(
                self.root(),
                0,
            ) && !c.end_of_table,
            !c.end_of_table ==> c.page_num < self.pager.num_pages && leaf_wf(
                self.pager.page_at(c.page_num as int),
            ) && spec_leaf_num_cells(self.pager.page_at(c.page_num as int)) > 0,
    {
        let root_node = self.pager.flush_page(0);
        match crate::node::get_node_type(&root_node) {
            crate::node::NodeType::Leaf => {
                let num_cells = leaf_node_num_cells(&root_node);
                Cursor { page_num: 0, cell_num: 0, end_of_table: num_cells == 0 }
            },
            crate::node::NodeType::Internal => {
                proof {
                    assert(self.pages_view()[0] == self.root());
                    assert(0 < child_of(self.root(), 0) < self.pager.num_pages);
                    assert(self.pages_view()[child_of(self.root(), 0) as int]
                        == self.pager.page_at(child_of(self.root(), 0) as int));
                    assert(leaf_wf(self.pages_view()[child_of(self.root(), 0) as int]));
                    assert(spec_leaf_num_cells(self.pages_view()[child_of(self.root(), 0) as int])
                        >= 1);
                }
                let child = internal_child_at(&root_node, 0);
                Cursor { page_num: child as usize, cell_num: 0, end_of_table: false }
            },
        }
    }
}

proof fn lemma_cells_range_split(t: Table, j: int, k: int, m: int)
    requires
        j <= k <= m,
    ensures
        t.cells_range(j, m) == t.cells_range(j, k) + t.cells_range(k, m),
    decreases k - j,
{
    if j < k {
        lemma_cells_range_split(t, j + 1, k, m);
        assert(t.cells_range(j, m) =~= t.cells_range(j, k) + t.cells_range(k, m));
    } else {
        assert(t.cells_range(j, m) =~= t.cells_range(j, k) + t.cells_range(k, m));
    }
}

/// Two tables with the same root page and the same child pages over a slot
/// range have the same cells there.
proof fn lemma_cells_range_frame(t1: Table, t2: Table, j: int, m: int)
    requires
        t1.root() == t2.root(),
        forall|s: int|
            j <= s < m ==> t1.pager.page_at(#[trigger] child_of(t1.root(), s) as int)
                == t2.pager.page_at(child_of(t2.root(), s) as int),
    ensures
        t1.cells_range(j, m) == t2.cells_range(j, m),
    decreases m - j,
{
    if j < m {
        lemma_cells_range_frame(t1, t2, j + 1, m);
    }
}

/// The table's cells split around the child in slot `s`.
proof fn lemma_cells_decompose(t: Table, s: int)
    requires
        0 <= s <= spec_internal_num_keys(t.root()),
    ensures
        ({
            let nk = spec_internal_num_keys(t.root()) as int;
            t.cells_range(0, nk + 1) == t.cells_range(0, s) + leaf_cells_seq(
                t.pager.page_at(child_of(t.root(), s) as int),
            ) + t.cells_range(s + 1, nk + 1)
        }),
{
    let nk = spec_internal_num_keys(t.root()) as int;
    lemma_cells_range_split(t, 0, s, nk + 1);
    lemma_cells_range_split(t, s, s + 1, nk + 1);
    assert(t.cells_range(s, s + 1) =~= leaf_cells_seq(
        t.pager.page_at(child_of(t.root(), s) as int),
    ));
    assert(t.cells_range(0, s) + (t.cells_range(s, s + 1) + t.cells_range(s + 1, nk + 1)) =~= t
        .cells_range(0, s) + t.cells_range(s, s + 1) + t.cells_range(s + 1, nk + 1));
}

/// Inserts a cell at `cell_num` of a leaf that has room, shifting the cells
/// after it one slot right.
fn leaf_page_insert(node: &mut Vec<u8>, cell_num: u32, key: u32, value: Vec<u8>)
    requires
        old(node)@.len() == PAGE_SIZE,
        spec_leaf_num_cells(old(node)@) < LEAF_NODE_MAX_CELLS,
        cell_num <= spec_leaf_num_cells(old(node)@),
        value@.len() == crate::layout::LEAF_NODE_VALUE_SIZE,
    ensures
        final(node)@.len() == PAGE_SIZE,
        spec_node_type(final(node)@) == spec_node_type(old(node)@),
        crate::layout::spec_is_root(final(node)@) == crate::layout::spec_is_root(old(node)@),
        spec_leaf_num_cells(final(node)@) == spec_leaf_num_cells(old(node)@) + 1,
        forall|i: int|
            0 <= i < cell_num ==> #[trigger] spec_leaf_key(final(node)@, i) == spec_leaf_key(
                old(node)@,
                i,
            ),
        forall|i: int|
            0 <= i < cell_num ==> #[trigger] spec_leaf_value(final(node)@, i) == spec_leaf_value(
                old(node)@,
                i,
            ),
        spec_leaf_key(final(node)@, cell_num as int) == key,
        spec_leaf_value(final(node)@, cell_num as int) == value@,
        forall|i: int|
            cell_num < i <= spec_leaf_num_cells(old(node)@) ==> #[trigger] spec_leaf_key(
                final(node)@,
                i,
            ) == spec_leaf_key(old(node)@, i - 1),
        forall|i: int|
            cell_num < i <= spec_leaf_num_cells(old(node)@) ==> #[trigger] spec_leaf_value(
                final(node)@,
                i,
            ) == spec_leaf_value(old(node)@, i - 1),
        leaf_cells_seq(final(node)@) == leaf_cells_seq(old(node)@).insert(
            cell_num as int,
            (key, value@),
        ),
{
    let num_cells = leaf_node_num_cells(node);
    let mut snapshot = zero_page();
    crate::node::copy_page(node, &mut snapshot);
    let mut i: u32 = cell_num + 1;
    while i <= num_cells
        invariant
            snapshot@ == old(node)@,
            node@.len() == PAGE_SIZE,
            snapshot@.len() == PAGE_SIZE,
            num_cells == spec_leaf_num_cells(old(node)@),
            num_cells < LEAF_NODE_MAX_CELLS,
            cell_num + 1 <= i <= num_cells + 1,
            spec_node_type(node@) == spec_node_type(old(node)@),
            crate::layout::spec_is_root(node@) == crate::layout::spec_is_root(old(node)@),
            spec_leaf_num_cells(node@) == num_cells,
            forall|k: int|
                0 <= k <= cell_num && k < LEAF_NODE_MAX_CELLS ==> #[trigger] spec_leaf_key(
                    node@,
                    k,
                ) == spec_leaf_key(old(node)@, k),
            forall|k: int|
                0 <= k <= cell_num && k < LEAF_NODE_MAX_CELLS ==> #[trigger] spec_leaf_value(
                    node@,
                    k,
                ) == spec_leaf_value(old(node)@, k),
            forall|k: int|
                cell_num < k < i ==> #[trigger] spec_leaf_key(node@, k) == spec_leaf_key(
                    old(node)@,
                    k - 1,
                ),
            forall|k: int|
                cell_num < k < i ==> #[trigger] spec_leaf_value(node@, k) == spec_leaf_value(
                    old(node)@,
                    k - 1,
                ),
        decreases num_cells + 1 - i,
    {
        crate::node::copy_leaf_node_cell(&snapshot, (i - 1) as usize, node, i as usize);
        i = i + 1;
    }
    write_leaf_node_key_cell(node, cell_num, key);
    crate::node::write_leaf_node_value(node, cell_num as usize, value);
    write_leaf_node_num_cells(node, num_cells + 1);
    proof {
        assert(leaf_cells_seq(node@) =~= leaf_cells_seq(old(node)@).insert(
            cell_num as int,
            (key, value@),
        ));
    }
}

/// Inserting a cell at the search slot keeps the leaf well-formed, and the
/// leaf's greatest and least keys move in the expected way.
proof fn lemma_inserted_leaf_wf(p1: Seq<u8>, p2: Seq<u8>, cell_num: int, key: u32, v: Seq<u8>)
    requires
        leaf_wf(p1),
        spec_leaf_num_cells(p1) < LEAF_NODE_MAX_CELLS,
        0 <= cell_num <= spec_leaf_num_cells(p1),
        forall|i: int| 0 <= i < cell_num ==> #[trigger] spec_leaf_key(p1, i) < key,
        cell_num < spec_leaf_num_cells(p1) ==> spec_leaf_key(p1, cell_num) > key,
        p2.len() == PAGE_SIZE,
        spec_node_type(p2) == spec_node_type(p1),
        spec_leaf_num_cells(p2) == spec_leaf_num_cells(p1) + 1,
        forall|i: int|
            0 <= i < cell_num ==> #[trigger] spec_leaf_key(p2, i) == spec_leaf_key(p1, i),
        forall|i: int|
            0 <= i < cell_num ==> #[trigger] spec_leaf_value(p2, i) == spec_leaf_value(p1, i),
        spec_leaf_key(p2, cell_num) == key,
        spec_leaf_value(p2, cell_num) == v,
        forall|i: int|
            cell_num < i <= spec_leaf_num_cells(p1) ==> #[trigger] spec_leaf_key(p2, i)
                == spec_leaf_key(p1, i - 1),
        forall|i: int|
            cell_num < i <= spec_leaf_num_cells(p1) ==> #[trigger] spec_leaf_value(p2, i)
                == spec_leaf_value(p1, i - 1),
        row_image_valid(v),
    ensures
        leaf_wf(p2),
        cell_num < spec_leaf_num_cells(p1) ==> leaf_last_key(p2) == leaf_last_key(p1),
        cell_num == spec_leaf_num_cells(p1) ==> leaf_last_key(p2) == key,
        leaf_first_key(p2) == if cell_num == 0 {
            key
        } else {
            leaf_first_key(p1)
        },
{
    let n1 = spec_leaf_num_cells(p1) as int;
    assert forall|i: int, j: int|
        0 <= i < j < spec_leaf_num_cells(p2) implies spec_leaf_key(p2, i) < spec_leaf_key(
        p2,
        j,
    ) by {
        if j < cell_num {
        } else if j == cell_num {
            assert(spec_leaf_key(p2, i) == spec_leaf_key(p1, i));
        } else if i == cell_num {
            assert(spec_leaf_key(p2, j) == spec_leaf_key(p1, j - 1));
            assert(cell_num < n1);
            if j - 1 > cell_num {
                assert(spec_leaf_key(p1, cell_num) < spec_leaf_key(p1, j - 1));
            }
        } else if i < cell_num {
            assert(spec_leaf_key(p2, i) == spec_leaf_key(p1, i));
            assert(spec_leaf_key(p2, j) == spec_leaf_key(p1, j - 1));
            if i < j - 1 {
                assert(spec_leaf_key(p1, i) < spec_leaf_key(p1, j - 1));
            }
        } else {
            assert(spec_leaf_key(p2, i) == spec_leaf_key(p1, i - 1));
            assert(spec_leaf_key(p2, j) == spec_leaf_key(p1, j - 1));
        }
    }
    assert forall|i: int|
        0 <= i < spec_leaf_num_cells(p2) implies row_image_valid(
        #[trigger] spec_leaf_value(p2, i),
    ) by {
        if i < cell_num {
            assert(spec_leaf_value(p2, i) == spec_leaf_value(p1, i));
        } else if i > cell_num {
            assert(spec_leaf_value(p2, i) == spec_leaf_value(p1, i - 1));
        }
    }
    if cell_num < n1 {
        assert(spec_leaf_key(p2, n1) == spec_leaf_key(p1, n1 - 1));
    }
}

impl Table {
    /// Inserts `(key, row)` at the cursor slot of a leaf that has room. The
    /// slot must be the one `find_node` returns, so that the leaf's order
    /// and the root's separators survive.
    pub(crate) fn leaf_insert_nonfull(
        &mut self,
        page_num: usize,
        cell_num: usize,
        key: u32,
        row: &Row,
    )
        requires
            old(self).wf(),
            crate::row::row_fits(row.username@, row.email@),
            page_num < old(self).pager.num_pages,
            leaf_wf(old(self).pager.page_at(page_num as int)),
            spec_leaf_num_cells(old(self).pager.page_at(page_num as int)) < LEAF_NODE_MAX_CELLS,
            cell_num <= spec_leaf_num_cells(old(self).pager.page_at(page_num as int)),
            forall|i: int|
                0 <= i < cell_num ==> #[trigger] spec_leaf_key(
                    old(self).pager.page_at(page_num as int),
                    i,
                ) < key,
            cell_num < spec_leaf_num_cells(old(self).pager.page_at(page_num as int))
                ==> spec_leaf_key(old(self).pager.page_at(page_num as int), cell_num as int) > key,
            spec_node_type(old(self).root()) == NODE_TYPE_LEAF ==> page_num == 0,
            spec_node_type(old(self).root()) == NODE_TYPE_INTERNAL ==> page_num == child_of(
                old(self).root(),
                spec_child_slot(old(self).root(), key),
            ),
        ensures
            final(self).wf(),
            final(self).pager.num_pages == old(self).pager.num_pages,
            spec_node_type(final(self).root()) == spec_node_type(old(self).root()),
            final(self).table_cells().to_multiset() == old(
                self,
            ).table_cells().to_multiset().insert(
                (key, crate::row::spec_row_bytes(row.id, row.username@, row.email@)),
            ),
            leaf_cells_seq(final(self).pager.page_at(page_num as int)) == leaf_cells_seq(
                old(self).pager.page_at(page_num as int),
            ).insert(
                cell_num as int,
                (key, crate::row::spec_row_bytes(row.id, row.username@, row.email@)),
            ),
            forall|i: int|
                0 <= i < old(self).pager.num_pages && i != page_num
                    ==> #[trigger] final(self).pager.page_at(i) == old(self).pager.page_at(i),
    {
        let ghost t1 = *old(self);
        let ghost p1 = old(self).pager.page_at(page_num as int);
        let ghost n1 = spec_leaf_num_cells(p1) as int;
        let ghost cellv = (key, crate::row::spec_row_bytes(row.id, row.username@, row.email@));
        let value = Row::serialize(row);
        let mut node = self.pager.flush_page(page_num);
        leaf_page_insert(&mut node, cell_num as u32, key, value);
        let ghost p2 = node@;
        proof {
            crate::row::lemma_row_bytes_image_valid(row.id, row.username@, row.email@);
            lemma_inserted_leaf_wf(p1, p2, cell_num as int, key, cellv.1);
        }
        self.pager.write_page(page_num, node);
        proof {
            let t2 = *self;
            assert(t2.pager.page_at(page_num as int) == p2);
            assert forall|i: int|
                0 <= i < t2.pager.num_pages && i != page_num implies #[trigger] t2.pager.page_at(i)
                == t1.pager.page_at(i) by {}
            if spec_node_type(t1.root()) == NODE_TYPE_LEAF {
                assert(t2.root() == p2);
                assert(tree_wf(t2.pages_view()));
                assert(t2.table_cells() == leaf_cells_seq(p2));
                vstd::seq_lib::to_multiset_insert(leaf_cells_seq(p1), cell_num as int, cellv);
            } else {
                let root = t1.root();
                let nk = spec_internal_num_keys(root) as int;
                let slot = spec_child_slot(root, key);
                lemma_child_slot_props(root, key);
                assert(t1.pages_view()[0] == root);
                assert(internal_root_wf(t1.pages_view()));
                assert(0 < child_of(root, slot) < t1.pager.num_pages);
                assert(page_num == child_of(root, slot));
                assert(t2.root() == root);
                assert(t1.pages_view()[child_of(root, slot) as int] == p1);
                assert(spec_leaf_num_cells(p1) >= 1);
                // the touched child is the routed one; every other child page
                // is untouched
                assert forall|j: int|
                    0 <= j <= nk && j != slot implies child_of(root, j) != child_of(
                    root,
                    slot,
                ) by {
                    if j < slot {
                        assert(child_of(root, j) != child_of(root, slot));
                    } else {
                        assert(child_of(root, slot) != child_of(root, j));
                    }
                }
                if slot < nk {
                    assert(spec_internal_key(root, slot) == leaf_last_key(
                        t1.pages_view()[child_of(root, slot) as int],
                    ));
                    assert(key <= spec_internal_key(root, slot));
                    if cell_num == n1 {
                        assert(spec_leaf_key(p1, n1 - 1) < key);
                        assert(false);
                    }
                }
                assert forall|j: int|
                    0 <= j <= nk implies #[trigger] t2.pages_view()[child_of(root, j) as int] == (
                    if j == slot {
                        p2
                    } else {
                        t1.pages_view()[child_of(root, j) as int]
                    }) by {
                    assert(0 < child_of(root, j) < t1.pager.num_pages);
                }
                assert(internal_root_wf(t2.pages_view())) by {
                    assert forall|j: int|
                        1 <= j <= nk implies leaf_first_key(
                        #[trigger] t2.pages_view()[child_of(root, j) as int],
                    ) > spec_internal_key(root, j - 1) by {
                        if j == slot {
                            assert(spec_internal_key(root, slot - 1) < key);
                            if cell_num != 0 {
                                assert(leaf_first_key(p2) == leaf_first_key(p1));
                            }
                        }
                    }
                }
                assert(tree_wf(t2.pages_view()));
                // cells: the routed child gained exactly the new cell
                lemma_cells_decompose(t1, slot);
                lemma_cells_decompose(t2, slot);
                assert forall|s: int|
                    0 <= s < slot implies t1.pager.page_at(
                    #[trigger] child_of(t1.root(), s) as int,
                ) == t2.pager.page_at(child_of(t2.root(), s) as int) by {
                    assert(0 < child_of(root, s) < t1.pager.num_pages);
                }
                lemma_cells_range_frame(t1, t2, 0, slot);
                assert forall|s: int|
                    slot + 1 <= s < nk + 1 implies t1.pager.page_at(
                    #[trigger] child_of(t1.root(), s) as int,
                ) == t2.pager.page_at(child_of(t2.root(), s) as int) by {
                    assert(0 < child_of(root, s) < t1.pager.num_pages);
                }
                lemma_cells_range_frame(t1, t2, slot + 1, nk + 1);
                let aa = t1.cells_range(0, slot);
                let bb = t1.cells_range(slot + 1, nk + 1);
                let l1 = leaf_cells_seq(p1);
                let l2 = leaf_cells_seq(p2);
                assert(t1.table_cells() == aa + l1 + bb);
                assert(t2.table_cells() == aa + l2 + bb);
                assert(l2 == l1.insert(cell_num as int, cellv));
                vstd::seq_lib::to_multiset_insert(l1, cell_num as int, cellv);
                vstd::seq_lib::lemma_multiset_commutative(aa + l1, bb);
                vstd::seq_lib::lemma_multiset_commutative(aa, l1);
                vstd::seq_lib::lemma_multiset_commutative(aa + l2, bb);
                vstd::seq_lib::lemma_multiset_commutative(aa, l2);
                assert(t2.table_cells().to_multiset() =~= t1.table_cells().to_multiset().insert(
                    cellv,
                ));
            }
        }
    }
}
/// Keys of a cell sequence ascend strictly.
pub open spec fn cells_sorted(s: Seq<(u32, Seq<u8>)>) -> bool {
    forall|i: int, j: int| 0 <= i < j < s.len() ==> (#[trigger] s[i]).0 < (#[trigger] s[j]).0
}

pub open spec fn cells_valid(s: Seq<(u32, Seq<u8>)>) -> bool {
    forall|i: int| 0 <= i < s.len() ==> row_image_valid((#[trigger] s[i]).1)
}

/// A full leaf's cells with one more cell at the search slot are sorted and
/// their row images stay decodable.
proof fn lemma_merged_cells(p1: Seq<u8>, cell_num: int, c: (u32, Seq<u8>))
    requires
        leaf_wf(p1),
        0 <= cell_num <= spec_leaf_num_cells(p1),
        forall|i: int| 0 <= i < cell_num ==> #[trigger] spec_leaf_key(p1, i) < c.0,
        cell_num < spec_leaf_num_cells(p1) ==> spec_leaf_key(p1, cell_num) > c.0,
        row_image_valid(c.1),
    ensures
        ({
            let merged = leaf_cells_seq(p1).insert(cell_num, c);
            &&& merged.len() == spec_leaf_num_cells(p1) + 1
            &&& cells_sorted(merged)
            &&& cells_valid(merged)
            &&& merged[cell_num] == c
            &&& (forall|i: int|
                0 <= i < cell_num ==> #[trigger] merged[i] == leaf_cells_seq(p1)[i])
            &&& (forall|i: int|
                cell_num < i <= spec_leaf_num_cells(p1) ==> #[trigger] merged[i]
                    == leaf_cells_seq(p1)[i - 1])
        }),
{
    let cells = leaf_cells_seq(p1);
    let merged = cells.insert(cell_num, c);
    cells.insert_ensures(cell_num, c);
    assert forall|i: int|
        cell_num < i <= spec_leaf_num_cells(p1) implies #[trigger] merged[i] == cells[i - 1] by {
        assert(merged[(i - 1) + 1] == cells[i - 1]);
    }
    assert forall|i: int, j: int|
        0 <= i < j < merged.len() implies (#[trigger] merged[i]).0 < (#[trigger] merged[j]).0 by {
        let n1 = spec_leaf_num_cells(p1) as int;
        if j < cell_num {
            assert(merged[i] == cells[i] && merged[j] == cells[j]);
        } else if j == cell_num {
            assert(merged[i] == cells[i]);
            assert(spec_leaf_key(p1, i) < c.0);
        } else if i == cell_num {
            assert(merged[j] == cells[j - 1]);
            assert(cell_num < n1);
            if j - 1 > cell_num {
                assert(spec_leaf_key(p1, cell_num) < spec_leaf_key(p1, j - 1));
            }
        } else if i < cell_num {
            assert(merged[i] == cells[i] && merged[j] == cells[j - 1]);
            if i < j - 1 {
                assert(spec_leaf_key(p1, i) < spec_leaf_key(p1, j - 1));
            }
        } else {
            assert(merged[i] == cells[i - 1] && merged[j] == cells[j - 1]);
        }
    }
    assert forall|i: int| 0 <= i < merged.len() implies row_image_valid(
        (#[trigger] merged[i]).1,
    ) by {
        if i < cell_num {
            assert(merged[i] == cells[i]);
        } else if i > cell_num {
            assert(merged[i] == cells[i - 1]);
        }
    }
}

/// Parts a full leaf plus one new cell between the old page and a fresh
/// right leaf: the left page keeps the first half of the merged cells, the
/// right page gets the rest.
fn leaf_split_pages(snapshot: &Vec<u8>, cell_num: u32, key: u32, value: &Vec<u8>) -> (r: (
    Vec<u8>,
    Vec<u8>,
))
    requires
        snapshot@.len() == PAGE_SIZE,
        spec_leaf_num_cells(snapshot@) == LEAF_NODE_MAX_CELLS,
        cell_num <= LEAF_NODE_MAX_CELLS,
        value@.len() == crate::layout::LEAF_NODE_VALUE_SIZE,
    ensures
        ({
            let merged = leaf_cells_seq(snapshot@).insert(cell_num as int, (key, value@));
            let left = r.0;
            let right = r.1;
            &&& left@.len() == PAGE_SIZE
            &&& right@.len() == PAGE_SIZE
            &&& spec_node_type(left@) == spec_node_type(snapshot@)
            &&& crate::layout::spec_is_root(left@) == crate::layout::spec_is_root(snapshot@)
            &&& spec_node_type(right@) == NODE_TYPE_LEAF
            &&& !crate::layout::spec_is_root(right@)
            &&& spec_leaf_num_cells(left@) == crate::layout::LEAF_NODE_LEFT_SPLIT_COUNT
            &&& spec_leaf_num_cells(right@) == crate::layout::LEAF_NODE_RIGHT_SPLIT_COUNT
            &&& leaf_cells_seq(left@) == merged.take(
                crate::layout::LEAF_NODE_LEFT_SPLIT_COUNT as int,
            )
            &&& leaf_cells_seq(right@) == merged.skip(
                crate::layout::LEAF_NODE_LEFT_SPLIT_COUNT as int,
            )
        }),
{
    let ghost cells = leaf_cells_seq(snapshot@);
    let ghost merged = cells.insert(cell_num as int, (key, value@));
    proof {
        cells.insert_ensures(cell_num as int, (key, value@));
        assert forall|i: int|
            cell_num < i <= LEAF_NODE_MAX_CELLS implies #[trigger] merged[i] == cells[i - 1] by {
            assert(merged[(i - 1) + 1] == cells[i - 1]);
        }
    }
    let left_count: usize = crate::layout::LEAF_NODE_LEFT_SPLIT_COUNT;
    let mut left = zero_page();
    crate::node::copy_page(snapshot, &mut left);
    let mut right = zero_page();
    initialize_leaf_node(&mut right);
    let mut i: usize = 0;
    while i < LEAF_NODE_MAX_CELLS + 1
        invariant
            snapshot@.len() == PAGE_SIZE,
            spec_leaf_num_cells(snapshot@) == LEAF_NODE_MAX_CELLS,
            cell_num <= LEAF_NODE_MAX_CELLS,
            value@.len() == crate::layout::LEAF_NODE_VALUE_SIZE,
            left_count == crate::layout::LEAF_NODE_LEFT_SPLIT_COUNT,
            cells == leaf_cells_seq(snapshot@),
            merged == cells.insert(cell_num as int, (key, value@)),
            merged.len() == LEAF_NODE_MAX_CELLS + 1,
            merged[cell_num as int] == (key, value@),
            forall|k: int| 0 <= k < cell_num ==> #[trigger] merged[k] == cells[k],
            forall|k: int|
                cell_num < k <= LEAF_NODE_MAX_CELLS ==> #[trigger] merged[k] == cells[k - 1],
            i <= LEAF_NODE_MAX_CELLS + 1,
            left@.len() == PAGE_SIZE,
            right@.len() == PAGE_SIZE,
            spec_node_type(left@) == spec_node_type(snapshot@),
            crate::layout::spec_is_root(left@) == crate::layout::spec_is_root(snapshot@),
            spec_leaf_num_cells(left@) == LEAF_NODE_MAX_CELLS,
            spec_node_type(right@) == NODE_TYPE_LEAF,
            !crate::layout::spec_is_root(right@),
            spec_leaf_num_cells(right@) == 0,
            forall|k: int|
                0 <= k < i && k < left_count ==> #[trigger] spec_leaf_key(left@, k) == merged[k].0,
            forall|k: int|
                0 <= k < i && k < left_count ==> #[trigger] spec_leaf_value(left@, k)
                    == merged[k].1,
            forall|k: int|
                left_count <= k < i ==> #[trigger] spec_leaf_key(right@, k - left_count)
                    == merged[k].0,
            forall|k: int|
                left_count <= k < i ==> #[trigger] spec_leaf_value(right@, k - left_count)
                    == merged[k].1,
        decreases LEAF_NODE_MAX_CELLS + 1 - i,
    {
        let dst_idx: usize = if i >= left_count {
            i - left_count
        } else {
            i
        };
        if i >= left_count {
            if i == cell_num as usize {
                write_leaf_node_key_cell(&mut right, dst_idx as u32, key);
                crate::node::write_leaf_node_value(&mut right, dst_idx, clone_value(value));
            } else if i > cell_num as usize {
                crate::node::copy_leaf_node_cell(snapshot, i - 1, &mut right, dst_idx);
            } else {
                crate::node::copy_leaf_node_cell(snapshot, i, &mut right, dst_idx);
            }
        } else {
            if i == cell_num as usize {
                write_leaf_node_key_cell(&mut left, dst_idx as u32, key);
                crate::node::write_leaf_node_value(&mut left, dst_idx, clone_value(value));
            } else if i > cell_num as usize {
                crate::node::copy_leaf_node_cell(snapshot, i - 1, &mut left, dst_idx);
            } else {
                crate::node::copy_leaf_node_cell(snapshot, i, &mut left, dst_idx);
            }
        }
        i = i + 1;
    }
    write_leaf_node_num_cells(&mut left, left_count as u32);
    write_leaf_node_num_cells(&mut right, (LEAF_NODE_MAX_CELLS + 1 - left_count) as u32);
    proof {
        assert(leaf_cells_seq(left@) =~= merged.take(
            crate::layout::LEAF_NODE_LEFT_SPLIT_COUNT as int,
        ));
        assert forall|m: int|
            0 <= m < crate::layout::LEAF_NODE_RIGHT_SPLIT_COUNT implies spec_leaf_key(right@, m)
            == merged[m + left_count].0 && spec_leaf_value(right@, m) == merged[m
            + left_count].1 by {
            assert(spec_leaf_key(right@, (m + left_count) - left_count) == merged[m
                + left_count].0);
            assert(spec_leaf_value(right@, (m + left_count) - left_count) == merged[m
                + left_count].1);
        }
        assert(leaf_cells_seq(right@) =~= merged.skip(
            crate::layout::LEAF_NODE_LEFT_SPLIT_COUNT as int,
        ));
    }
    (left, right)
}

/// A byte-for-byte copy of a value buffer.
fn clone_value(v: &Vec<u8>) -> (r: Vec<u8>)
    ensures
        r@ == v@,
{
    let n: usize = v.len();
    let mut r: Vec<u8> = Vec::new();
    let mut i: usize = 0;
    while i < n
        invariant
            n == v@.len(),
            i <= n,
            r@.len() == i,
            forall|j: int| 0 <= j < i ==> r@[j] == v@[j],
        decreases n - i,
    {
        r.push(v[i]);
        i = i + 1;
    }
    proof {
        assert(r@ =~= v@);
    }
    r
}

impl Table {
    /// Handles the split of the root: the old root's contents move to a new
    /// page that becomes the left child, and page 0 becomes an internal
    /// node with one key over the two halves.
    pub(crate) fn create_new_root(&mut self, right_child_page_num: u32)
        requires
            old(self).pager.wf(),
            old(self).root_page_num == 0,
            1 <= old(self).pager.num_pages < TABLE_MAX_PAGES,
            right_child_page_num < old(self).pager.num_pages,
            spec_node_type(old(self).root()) == NODE_TYPE_LEAF,
            1 <= spec_leaf_num_cells(old(self).root()) <= LEAF_NODE_MAX_CELLS,
        ensures
            final(self).pager.wf(),
            final(self).root_page_num == old(self).root_page_num,
            final(self).pager.num_pages == old(self).pager.num_pages + 1,
            spec_node_type(final(self).root()) == NODE_TYPE_INTERNAL,
            crate::layout::spec_is_root(final(self).root()),
            spec_internal_num_keys(final(self).root()) == 1,
            spec_internal_child(final(self).root(), 0) == old(self).pager.num_pages,
            spec_internal_key(final(self).root(), 0) == leaf_last_key(old(self).root()),
            spec_internal_right_child(final(self).root()) == right_child_page_num,
            ({
                let lp = final(self).pager.page_at(old(self).pager.num_pages as int);
                &&& spec_node_type(lp) == NODE_TYPE_LEAF
                &&& !crate::layout::spec_is_root(lp)
                &&& spec_leaf_num_cells(lp) == spec_leaf_num_cells(old(self).root())
                &&& (forall|i: int|
                    0 <= i < LEAF_NODE_MAX_CELLS ==> #[trigger] spec_leaf_key(lp, i)
                        == spec_leaf_key(old(self).root(), i))
                &&& (forall|i: int|
                    0 <= i < LEAF_NODE_MAX_CELLS ==> #[trigger] spec_leaf_value(lp, i)
                        == spec_leaf_value(old(self).root(), i))
                &&& leaf_cells_seq(lp) == leaf_cells_seq(old(self).root())
            }),
            forall|i: int|
                1 <= i < old(self).pager.num_pages ==> #[trigger] final(self).pager.page_at(i)
                    == old(self).pager.page_at(i),
    {
        let left_child_page_num = self.pager.get_unused_page_num();
        let old_root = self.pager.flush_page(0);
        let mut left_child = zero_page();
        crate::node::copy_page(&old_root, &mut left_child);
        set_node_root(&mut left_child, false);
        let left_child_max_key = crate::node::get_node_max_key(&old_root);
        self.pager.write_page(left_child_page_num as usize, left_child);
        let mut root = zero_page();
        crate::node::initialize_internal_node(&mut root);
        set_node_root(&mut root, true);
        write_internal_node_num_keys(&mut root, 1);
        crate::node::write_internal_node_child(&mut root, 0, left_child_page_num);
        write_internal_node_key(&mut root, 0, left_child_max_key);
        write_internal_node_right_child_pointer(&mut root, right_child_page_num);
        self.pager.write_page(0, root);
        proof {
            let lp = self.pager.page_at(old(self).pager.num_pages as int);
            assert(leaf_cells_seq(lp) =~= leaf_cells_seq(old(self).root()));
        }
    }
}

/// Writes the outcome of a child split into the root: the split child keeps
/// its slot under its new (smaller) greatest key, and the new right leaf is
/// spliced in just after it under the old separator.
fn internal_insert_after_split(root: &mut Vec<u8>, slot: u32, left_max: u32, right_page: u32)
    requires
        old(root)@.len() == PAGE_SIZE,
        1 <= spec_internal_num_keys(old(root)@),
        spec_internal_num_keys(old(root)@) + 1 < INTERNAL_NODE_MAX_CELLS,
        slot <= spec_internal_num_keys(old(root)@),
    ensures
        final(root)@.len() == PAGE_SIZE,
        spec_node_type(final(root)@) == spec_node_type(old(root)@),
        crate::layout::spec_is_root(final(root)@) == crate::layout::spec_is_root(old(root)@),
        spec_internal_num_keys(final(root)@) == spec_internal_num_keys(old(root)@) + 1,
        forall|j: int|
            0 <= j < slot ==> #[trigger] spec_internal_key(final(root)@, j) == spec_internal_key(
                old(root)@,
                j,
            ),
        spec_internal_key(final(root)@, slot as int) == left_max,
        slot < spec_internal_num_keys(old(root)@) ==> spec_internal_key(
            final(root)@,
            slot + 1,
        ) == spec_internal_key(old(root)@, slot as int),
        forall|j: int|
            slot + 2 <= j <= spec_internal_num_keys(old(root)@) ==> #[trigger] spec_internal_key(
                final(root)@,
                j,
            ) == spec_internal_key(old(root)@, j - 1),
        forall|j: int|
            0 <= j <= slot ==> #[trigger] child_of(final(root)@, j) == child_of(old(root)@, j),
        child_of(final(root)@, slot + 1) == right_page,
        forall|j: int|
            slot + 2 <= j <= spec_internal_num_keys(old(root)@) + 1 ==> #[trigger] child_of(
                final(root)@,
                j,
            ) == child_of(old(root)@, j - 1),
    {
    let nk = internal_node_num_keys(root);
    let mut snapshot = zero_page();
    crate::node::copy_page(root, &mut snapshot);
    if slot == nk {
        let old_right = internal_node_right_child_pointer(&snapshot);
        write_internal_node_num_keys(root, nk + 1);
        crate::node::write_internal_node_child_pointer(root, nk, old_right);
        write_internal_node_key(root, nk, left_max);
        write_internal_node_right_child_pointer(root, right_page);
    } else {
        let mut j: u32 = slot + 1;
        while j < nk
            invariant
                snapshot@ == old(root)@,
                root@.len() == PAGE_SIZE,
                snapshot@.len() == PAGE_SIZE,
                nk == spec_internal_num_keys(old(root)@),
                nk + 1 < INTERNAL_NODE_MAX_CELLS,
                slot < nk,
                slot + 1 <= j <= nk,
                spec_node_type(root@) == spec_node_type(old(root)@),
                crate::layout::spec_is_root(root@) == crate::layout::spec_is_root(old(root)@),
                spec_internal_num_keys(root@) == nk,
                spec_internal_right_child(root@) == spec_internal_right_child(old(root)@),
                forall|k: int|
                    0 <= k <= slot + 1 ==> #[trigger] spec_internal_child(root@, k)
                        == spec_internal_child(old(root)@, k),
                forall|k: int|
                    0 <= k <= slot + 1 ==> #[trigger] spec_internal_key(root@, k)
                        == spec_internal_key(old(root)@, k),
                forall|k: int|
                    slot + 2 <= k <= j ==> #[trigger] spec_internal_child(root@, k)
                        == spec_internal_child(old(root)@, k - 1),
                forall|k: int|
                    slot + 2 <= k <= j ==> #[trigger] spec_internal_key(root@, k)
                        == spec_internal_key(old(root)@, k - 1),
                forall|k: int|
                    j < k < INTERNAL_NODE_MAX_CELLS ==> #[trigger] spec_internal_child(root@, k)
                        == spec_internal_child(old(root)@, k),
                forall|k: int|
                    j < k < INTERNAL_NODE_MAX_CELLS ==> #[trigger] spec_internal_key(root@, k)
                        == spec_internal_key(old(root)@, k),
            decreases nk - j,
        {
            crate::node::write_internal_node_child_pointer(
                root,
                j + 1,
                internal_node_child_pointer(&snapshot, j),
            );
            write_internal_node_key(root, j + 1, internal_node_key(&snapshot, j));
            j = j + 1;
        }
        crate::node::write_internal_node_child_pointer(root, slot + 1, right_page);
        write_internal_node_key(root, slot + 1, internal_node_key(&snapshot, slot));
        write_internal_node_key(root, slot, left_max);
        write_internal_node_num_keys(root, nk + 1);
    }
}

/// Slot ranges whose child pages agree cell for cell hold the same cells,
/// whatever their slot offsets are.
proof fn lemma_cells_range_equal(t1: Table, t2: Table, j1: int, j2: int, len: int)
    requires
        0 <= len,
        forall|k: int|
            0 <= k < len ==> t2.pager.page_at(#[trigger] child_of(t2.root(), j2 + k) as int)
                == t1.pager.page_at(child_of(t1.root(), j1 + k) as int),
    ensures
        t2.cells_range(j2, j2 + len) == t1.cells_range(j1, j1 + len),
    decreases len,
{
    if len > 0 {
        assert(t2.pager.page_at(child_of(t2.root(), j2 + 0) as int) == t1.pager.page_at(
            child_of(t1.root(), j1 + 0) as int,
        ));
        assert forall|k: int|
            0 <= k < len - 1 implies t2.pager.page_at(
            #[trigger] child_of(t2.root(), (j2 + 1) + k) as int,
        ) == t1.pager.page_at(child_of(t1.root(), (j1 + 1) + k) as int) by {
            assert(t2.pager.page_at(child_of(t2.root(), j2 + (k + 1)) as int) == t1.pager.page_at(
                child_of(t1.root(), j1 + (k + 1)) as int,
            ));
        }
        lemma_cells_range_equal(t1, t2, j1 + 1, j2 + 1, len - 1);
        assert(t2.cells_range(j2, j2 + len) =~= t1.cells_range(j1, j1 + len));
    } else {
        assert(t2.cells_range(j2, j2 + len) =~= t1.cells_range(j1, j1 + len));
    }
}

impl Table {
    /// Splits the full leaf under the cursor, moving half the merged cells
    /// to a new right leaf, then roots the two halves: a fresh internal
    /// root when the split leaf was the root, one more separator in the
    /// root otherwise.
    #[verifier::rlimit(100)]
    pub(crate) fn leaf_node_split_and_insert(&mut self, cursor: &Cursor, key: u32, row: &Row)
        requires
            old(self).wf(),
            crate::row::row_fits(row.username@, row.email@),
            cursor.page_num < old(self).pager.num_pages,
            leaf_wf(old(self).pager.page_at(cursor.page_num as int)),
            spec_leaf_num_cells(old(self).pager.page_at(cursor.page_num as int))
                == LEAF_NODE_MAX_CELLS,
            cursor.cell_num <= LEAF_NODE_MAX_CELLS,
            forall|i: int|
                0 <= i < cursor.cell_num ==> #[trigger] spec_leaf_key(
                    old(self).pager.page_at(cursor.page_num as int),
                    i,
                ) < key,
            cursor.cell_num < LEAF_NODE_MAX_CELLS ==> spec_leaf_key(
                old(self).pager.page_at(cursor.page_num as int),
                cursor.cell_num as int,
            ) > key,
            spec_node_type(old(self).root()) == NODE_TYPE_LEAF ==> cursor.page_num == 0 && old(
                self,
            ).pager.num_pages + 2 <= TABLE_MAX_PAGES,
            spec_node_type(old(self).root()) == NODE_TYPE_INTERNAL ==> cursor.page_num == child_of(
                old(self).root(),
                spec_child_slot(old(self).root(), key),
            ) && old(self).pager.num_pages + 1 <= TABLE_MAX_PAGES,
        ensures
            final(self).wf(),
            spec_node_type(final(self).root()) == NODE_TYPE_INTERNAL,
            final(self).table_cells().to_multiset() == old(
                self,
            ).table_cells().to_multiset().insert(
                (key, crate::row::spec_row_bytes(row.id, row.username@, row.email@)),
            ),
            final(self).pager.num_pages <= old(self).pager.num_pages + 2,
            ({
                let p1 = old(self).pager.page_at(cursor.page_num as int);
                let merged = leaf_cells_seq(p1).insert(
                    cursor.cell_num as int,
                    (key, crate::row::spec_row_bytes(row.id, row.username@, row.email@)),
                );
                let lc = crate::layout::LEAF_NODE_LEFT_SPLIT_COUNT as int;
                let n0 = old(self).pager.num_pages as int;
                &&& leaf_cells_seq(final(self).pager.page_at(n0)) == merged.skip(lc)
                &&& (spec_node_type(old(self).root()) == NODE_TYPE_LEAF ==> {
                    &&& final(self).pager.num_pages == n0 + 2
                    &&& crate::layout::spec_is_root(final(self).root())
                    &&& spec_internal_num_keys(final(self).root()) == 1
                    &&& spec_internal_child(final(self).root(), 0) == n0 + 1
                    &&& spec_internal_right_child(final(self).root()) == n0
                    &&& spec_internal_key(final(self).root(), 0) == merged[lc - 1].0
                    &&& leaf_cells_seq(final(self).pager.page_at(n0 + 1)) == merged.take(lc)
                    &&& (forall|i: int|
                        1 <= i < n0
                            ==> #[trigger] final(self).pager.page_at(i) == old(self).pager.page_at(
                            i,
                        ))
                })
                &&& (spec_node_type(old(self).root()) == NODE_TYPE_INTERNAL ==> {
                    let root1 = old(self).root();
                    let slot = spec_child_slot(root1, key);
                    let nk = spec_internal_num_keys(root1) as int;
                    let root2 = final(self).root();
                    &&& final(self).pager.num_pages == n0 + 1
                    &&& leaf_cells_seq(final(self).pager.page_at(cursor.page_num as int))
                        == merged.take(lc)
                    &&& spec_internal_num_keys(root2) == nk + 1
                    &&& spec_internal_key(root2, slot) == merged[lc - 1].0
                    &&& (slot < nk ==> spec_internal_key(root2, slot + 1) == spec_internal_key(
                        root1,
                        slot,
                    ))
                    &&& (forall|j: int|
                        0 <= j < slot ==> #[trigger] spec_internal_key(root2, j)
                            == spec_internal_key(root1, j))
                    &&& (forall|j: int|
                        slot + 2 <= j <= nk ==> #[trigger] spec_internal_key(root2, j)
                            == spec_internal_key(root1, j - 1))
                    &&& (forall|j: int|
                        0 <= j <= slot ==> #[trigger] child_of(root2, j) == child_of(root1, j))
                    &&& child_of(root2, slot + 1) == n0
                    &&& (forall|j: int|
                        slot + 2 <= j <= nk + 1 ==> #[trigger] child_of(root2, j) == child_of(
                            root1,
                            j - 1,
                        ))
                    &&& (forall|i: int|
                        0 < i < n0 && i != cursor.page_num
                            ==> #[trigger] final(self).pager.page_at(i) == old(self).pager.page_at(
                            i,
                        ))
                })
            }),
    {
        let ghost t1 = *old(self);
        let ghost p1 = t1.pager.page_at(cursor.page_num as int);
        let ghost cellv = (key, crate::row::spec_row_bytes(row.id, row.username@, row.email@));
        let ghost merged = leaf_cells_seq(p1).insert(cursor.cell_num as int, cellv);
        let ghost lcount = crate::layout::LEAF_NODE_LEFT_SPLIT_COUNT as int;
        let snapshot = self.pager.flush_page(cursor.page_num);
        let value = Row::serialize(row);
        let (left, right) = leaf_split_pages(&snapshot, cursor.cell_num as u32, key, &value);
        proof {
            crate::row::lemma_row_bytes_image_valid(row.id, row.username@, row.email@);
            lemma_merged_cells(p1, cursor.cell_num as int, cellv);
            assert forall|i: int, j: int|
                0 <= i < j < spec_leaf_num_cells(left@) implies spec_leaf_key(left@, i)
                < spec_leaf_key(left@, j) by {
                assert(spec_leaf_key(left@, i) == merged.take(lcount)[i].0);
                assert(merged.take(lcount)[i].0 == merged[i].0);
                assert(spec_leaf_key(left@, j) == merged.take(lcount)[j].0);
                assert(merged.take(lcount)[j].0 == merged[j].0);
            }
            assert forall|i: int|
                0 <= i < spec_leaf_num_cells(left@) implies row_image_valid(
                #[trigger] spec_leaf_value(left@, i),
            ) by {
                assert(spec_leaf_value(left@, i) == merged.take(lcount)[i].1);
                assert(merged.take(lcount)[i].1 == merged[i].1);
            }
            assert(leaf_wf(left@));
            assert forall|i: int, j: int|
                0 <= i < j < spec_leaf_num_cells(right@) implies spec_leaf_key(right@, i)
                < spec_leaf_key(right@, j) by {
                assert(spec_leaf_key(right@, i) == merged.skip(lcount)[i].0);
                assert(merged.skip(lcount)[i].0 == merged[i + lcount].0);
                assert(spec_leaf_key(right@, j) == merged.skip(lcount)[j].0);
                assert(merged.skip(lcount)[j].0 == merged[j + lcount].0);
            }
            assert forall|i: int|
                0 <= i < spec_leaf_num_cells(right@) implies row_image_valid(
                #[trigger] spec_leaf_value(right@, i),
            ) by {
                assert(spec_leaf_value(right@, i) == merged.skip(lcount)[i].1);
                assert(merged.skip(lcount)[i].1 == merged[i + lcount].1);
            }
            assert(leaf_wf(right@));
            assert(spec_leaf_key(left@, lcount - 1) == merged.take(lcount)[lcount - 1].0);
            assert(merged.take(lcount)[lcount - 1] == merged[lcount - 1]);
            assert(leaf_last_key(left@) == merged[lcount - 1].0);
            assert(spec_leaf_key(left@, 0) == merged.take(lcount)[0].0);
            assert(merged.take(lcount)[0] == merged[0]);
            assert(leaf_first_key(left@) == merged[0].0);
            assert(spec_leaf_key(right@, 0) == merged.skip(lcount)[0].0);
            assert(merged.skip(lcount)[0] == merged[lcount]);
            assert(leaf_first_key(right@) == merged[lcount].0);
            assert(spec_leaf_key(right@, crate::layout::LEAF_NODE_RIGHT_SPLIT_COUNT - 1)
                == merged.skip(lcount)[crate::layout::LEAF_NODE_RIGHT_SPLIT_COUNT - 1].0);
            assert(merged.skip(lcount)[crate::layout::LEAF_NODE_RIGHT_SPLIT_COUNT - 1]
                == merged[LEAF_NODE_MAX_CELLS as int]);
            assert(leaf_last_key(right@) == merged[LEAF_NODE_MAX_CELLS as int].0);
        }
        let new_page_num = self.pager.get_unused_page_num();
        self.pager.write_page(new_page_num as usize, right);
        self.pager.write_page(cursor.page_num, left);
        let ghost rp = t1.pager.num_pages as int;
        if cursor.page_num == self.root_page_num {
            self.create_new_root(new_page_num);
            proof {
                let t3 = *self;
                let root2 = t3.root();
                let lc = rp + 1;
                assert(t3.pager.page_at(rp) == right@);
                assert(child_of(root2, 0) == lc);
                assert(child_of(root2, 1) == rp);
                let lp = t3.pager.page_at(lc);
                assert(leaf_cells_seq(lp) == leaf_cells_seq(left@));
                assert forall|i: int, j: int|
                    0 <= i < j < spec_leaf_num_cells(lp) implies spec_leaf_key(lp, i)
                    < spec_leaf_key(lp, j) by {
                    assert(spec_leaf_key(lp, i) == spec_leaf_key(left@, i));
                    assert(spec_leaf_key(lp, j) == spec_leaf_key(left@, j));
                }
                assert forall|i: int|
                    0 <= i < spec_leaf_num_cells(lp) implies row_image_valid(
                    #[trigger] spec_leaf_value(lp, i),
                ) by {
                    assert(spec_leaf_value(lp, i) == spec_leaf_value(left@, i));
                }
                assert(leaf_wf(lp));
                assert(leaf_wf(t3.pager.page_at(rp)));
                // the one separator sits between the two halves
                assert(spec_internal_key(root2, 0) == leaf_last_key(left@));
                assert(leaf_last_key(left@) == merged[lcount - 1].0);
                assert(leaf_last_key(lp) == merged[lcount - 1].0);
                assert(leaf_first_key(t3.pager.page_at(rp)) == merged[lcount].0);
                assert(internal_root_wf(t3.pages_view())) by {
                    assert forall|j: int|
                        0 <= j <= 1 implies 0 < (#[trigger] child_of(root2, j))
                        < t3.pages_view().len() by {}
                    assert forall|j: int|
                        0 <= j <= 1 implies leaf_wf(
                        #[trigger] t3.pages_view()[child_of(root2, j) as int],
                    ) by {
                        assert(t3.pages_view()[child_of(root2, j) as int] == t3.pager.page_at(
                            child_of(root2, j) as int,
                        ));
                    }
                }
                assert(tree_wf(t3.pages_view()));
                // cells: left half then right half is the merged sequence
                assert(t3.cells_range(2, 2) =~= Seq::<(u32, Seq<u8>)>::empty());
                assert(t3.cells_range(1, 2) == leaf_cells_seq(
                    t3.pager.page_at(child_of(root2, 1) as int),
                ) + t3.cells_range(2, 2));
                assert(t3.cells_range(0, 2) == leaf_cells_seq(
                    t3.pager.page_at(child_of(root2, 0) as int),
                ) + t3.cells_range(1, 2));
                assert(t3.table_cells() =~= leaf_cells_seq(lp) + leaf_cells_seq(
                    t3.pager.page_at(rp),
                ));
                assert(merged.take(lcount) + merged.skip(lcount) =~= merged);
                assert(t3.table_cells() == merged);
                assert(t1.table_cells() == leaf_cells_seq(p1));
                vstd::seq_lib::to_multiset_insert(leaf_cells_seq(p1), cursor.cell_num as int, cellv);
            }
        } else {
            proof {
                assert(t1.pages_view()[0] == t1.root());
                assert(internal_root_wf(t1.pages_view()));
                lemma_internal_seps_sorted(t1.pages_view());
                lemma_child_slot_props(t1.root(), key);
                let slot_g = spec_child_slot(t1.root(), key);
                assert(0 < child_of(t1.root(), slot_g) < t1.pager.num_pages);
                assert(self.pager.page_at(0) == t1.root());
            }
            let mut root_node = self.pager.flush_page(0);
            let slot = internal_find_slot(&root_node, key);
            let left_page = self.pager.flush_page(cursor.page_num);
            let left_max = crate::node::get_node_max_key(&left_page);
            proof {
                assert(left_page@ == left@);
                assert(left_max == merged[lcount - 1].0);
            }
            internal_insert_after_split(&mut root_node, slot, left_max, new_page_num);
            self.pager.write_page(0, root_node);
            proof {
                let t3 = *self;
                let root1 = t1.root();
                let root2 = t3.root();
                let nk = spec_internal_num_keys(root1) as int;
                let slot_g = slot as int;
                // children of the new root: the old ones up to the slot, the
                // new right leaf just after it, the old ones shifted past it
                assert(t3.pager.page_at(cursor.page_num as int) == left@);
                assert(t3.pager.page_at(rp) == right@);
                assert forall|j: int|
                    0 <= j <= nk && j != slot_g implies child_of(root1, j) != child_of(
                    root1,
                    slot_g,
                ) by {
                    if j < slot_g {
                        assert(child_of(root1, j) != child_of(root1, slot_g));
                    } else {
                        assert(child_of(root1, slot_g) != child_of(root1, j));
                    }
                }
                assert forall|j: int|
                    0 <= j <= nk && j != slot_g implies t3.pager.page_at(
                    #[trigger] child_of(root1, j) as int,
                ) == t1.pager.page_at(child_of(root1, j) as int) by {
                    assert(0 < child_of(root1, j) < t1.pager.num_pages);
                }
                // cell_num lies strictly inside the leaf when a separator
                // bounds it above
                if slot_g < nk {
                    assert(spec_internal_key(root1, slot_g) == leaf_last_key(
                        t1.pages_view()[child_of(root1, slot_g) as int],
                    ));
                    assert(key <= spec_internal_key(root1, slot_g));
                    if cursor.cell_num == LEAF_NODE_MAX_CELLS {
                        assert(spec_leaf_key(p1, LEAF_NODE_MAX_CELLS - 1) < key);
                        assert(false);
                    }
                    assert(merged[LEAF_NODE_MAX_CELLS as int].0 == leaf_last_key(p1));
                }
                assert(internal_root_wf(t3.pages_view())) by {
                    let nk2 = spec_internal_num_keys(root2) as int;
                    assert(nk2 == nk + 1);
                    assert forall|j: int|
                        0 <= j <= nk2 implies 0 < (#[trigger] child_of(root2, j))
                        < t3.pages_view().len() by {
                        if j <= slot_g {
                            assert(child_of(root2, j) == child_of(root1, j));
                        } else if j == slot_g + 1 {
                            assert(child_of(root2, j) == rp);
                        } else {
                            assert(child_of(root2, j) == child_of(root1, j - 1));
                        }
                    }
                    assert forall|j1: int, j2: int|
                        0 <= j1 < j2 <= nk2 implies child_of(root2, j1) != child_of(
                        root2,
                        j2,
                    ) by {
                        if j1 <= slot_g {
                            assert(child_of(root2, j1) == child_of(root1, j1));
                        } else if j1 == slot_g + 1 {
                            assert(child_of(root2, j1) == rp);
                        } else {
                            assert(child_of(root2, j1) == child_of(root1, j1 - 1));
                        }
                        if j2 <= slot_g {
                            assert(child_of(root2, j2) == child_of(root1, j2));
                        } else if j2 == slot_g + 1 {
                            assert(child_of(root2, j2) == rp);
                        } else {
                            assert(child_of(root2, j2) == child_of(root1, j2 - 1));
                        }
                        assert(forall|j: int|
                            0 <= j <= nk ==> (#[trigger] child_of(root1, j)) < rp);
                    }
                    assert forall|j: int|
                        0 <= j <= nk2 implies leaf_wf(
                        #[trigger] t3.pages_view()[child_of(root2, j) as int],
                    ) && spec_leaf_num_cells(t3.pages_view()[child_of(root2, j) as int]) >= 1 by {
                        if j == slot_g {
                            assert(child_of(root2, j) == child_of(root1, slot_g));
                            assert(t3.pages_view()[child_of(root2, j) as int] == left@);
                        } else if j == slot_g + 1 {
                            assert(t3.pages_view()[child_of(root2, j) as int] == right@);
                        } else if j < slot_g {
                            assert(child_of(root2, j) == child_of(root1, j));
                            assert(t3.pages_view()[child_of(root2, j) as int]
                                == t1.pages_view()[child_of(root1, j) as int]);
                        } else {
                            assert(child_of(root2, j) == child_of(root1, j - 1));
                            assert(t3.pages_view()[child_of(root2, j) as int]
                                == t1.pages_view()[child_of(root1, j - 1) as int]);
                        }
                    }
                    assert forall|j: int|
                        0 <= j < nk2 implies (#[trigger] spec_internal_key(root2, j))
                        == leaf_last_key(t3.pages_view()[child_of(root2, j) as int]) by {
                        if j < slot_g {
                            assert(spec_internal_key(root2, j) == spec_internal_key(root1, j));
                            assert(t3.pages_view()[child_of(root2, j) as int]
                                == t1.pages_view()[child_of(root1, j) as int]);
                        } else if j == slot_g {
                            assert(spec_internal_key(root2, j) == merged[lcount - 1].0);
                            assert(t3.pages_view()[child_of(root2, j) as int] == left@);
                            assert(leaf_last_key(left@) == merged[lcount - 1].0);
                        } else if j == slot_g + 1 {
                            assert(spec_internal_key(root2, j) == spec_internal_key(
                                root1,
                                slot_g,
                            ));
                            assert(t3.pages_view()[child_of(root2, j) as int] == right@);
                            assert(leaf_last_key(right@) == merged[LEAF_NODE_MAX_CELLS as int].0);
                        } else {
                            assert(spec_internal_key(root2, j) == spec_internal_key(
                                root1,
                                j - 1,
                            ));
                            assert(t3.pages_view()[child_of(root2, j) as int]
                                == t1.pages_view()[child_of(root1, j - 1) as int]);
                        }
                    }
                    assert forall|j: int|
                        1 <= j <= nk2 implies leaf_first_key(
                        #[trigger] t3.pages_view()[child_of(root2, j) as int],
                    ) > spec_internal_key(root2, j - 1) by {
                        if j < slot_g {
                            assert(t3.pages_view()[child_of(root2, j) as int]
                                == t1.pages_view()[child_of(root1, j) as int]);
                            assert(spec_internal_key(root2, j - 1) == spec_internal_key(
                                root1,
                                j - 1,
                            ));
                        } else if j == slot_g {
                            assert(t3.pages_view()[child_of(root2, j) as int] == left@);
                            assert(spec_internal_key(root2, j - 1) == spec_internal_key(
                                root1,
                                j - 1,
                            ));
                            assert(leaf_first_key(left@) == merged[0].0);
                            if cursor.cell_num == 0 {
                                assert(merged[0].0 == key);
                                assert(spec_internal_key(root1, slot_g - 1) < key);
                            } else {
                                assert(merged[0] == leaf_cells_seq(p1)[0]);
                                assert(leaf_first_key(
                                    t1.pages_view()[child_of(root1, slot_g) as int],
                                ) > spec_internal_key(root1, slot_g - 1));
                            }
                        } else if j == slot_g + 1 {
                            assert(t3.pages_view()[child_of(root2, j) as int] == right@);
                            assert(spec_internal_key(root2, j - 1) == merged[lcount - 1].0);
                            assert(leaf_first_key(right@) == merged[lcount].0);
                        } else if j == slot_g + 2 {
                            assert(t3.pages_view()[child_of(root2, j) as int]
                                == t1.pages_view()[child_of(root1, slot_g + 1) as int]);
                            assert(spec_internal_key(root2, j - 1) == spec_internal_key(
                                root1,
                                slot_g,
                            ));
                            assert(leaf_first_key(
                                t1.pages_view()[child_of(root1, slot_g + 1) as int],
                            ) > spec_internal_key(root1, slot_g));
                        } else {
                            assert(t3.pages_view()[child_of(root2, j) as int]
                                == t1.pages_view()[child_of(root1, j - 1) as int]);
                            assert(spec_internal_key(root2, j - 1) == spec_internal_key(
                                root1,
                                j - 2,
                            ));
                            assert(leaf_first_key(
                                t1.pages_view()[child_of(root1, j - 1) as int],
                            ) > spec_internal_key(root1, j - 2));
                        }
                    }
                }
                assert(tree_wf(t3.pages_view()));
                // cells: prefix, the two halves, then the shifted suffix
                let nk2 = nk + 1;
                assert forall|k: int|
                    0 <= k < slot_g implies t3.pager.page_at(
                    #[trigger] child_of(t3.root(), 0 + k) as int,
                ) == t1.pager.page_at(child_of(t1.root(), 0 + k) as int) by {
                    assert(child_of(root2, k) == child_of(root1, k));
                }
                lemma_cells_range_equal(t1, t3, 0, 0, slot_g);
                assert forall|k: int|
                    0 <= k < nk - slot_g implies t3.pager.page_at(
                    #[trigger] child_of(t3.root(), (slot_g + 2) + k) as int,
                ) == t1.pager.page_at(child_of(t1.root(), (slot_g + 1) + k) as int) by {
                    assert(child_of(root2, slot_g + 2 + k) == child_of(root1, slot_g + 1 + k));
                }
                lemma_cells_range_equal(t1, t3, slot_g + 1, slot_g + 2, nk - slot_g);
                lemma_cells_range_split(t3, 0, slot_g, nk2 + 1);
                lemma_cells_range_split(t3, slot_g, slot_g + 1, nk2 + 1);
                lemma_cells_range_split(t3, slot_g + 1, slot_g + 2, nk2 + 1);
                lemma_cells_range_split(t1, 0, slot_g, nk + 1);
                lemma_cells_range_split(t1, slot_g, slot_g + 1, nk + 1);
                assert(t3.cells_range(slot_g, slot_g + 1) =~= leaf_cells_seq(left@));
                assert(t3.cells_range(slot_g + 1, slot_g + 2) =~= leaf_cells_seq(right@));
                assert(t1.cells_range(slot_g, slot_g + 1) =~= leaf_cells_seq(p1));
                let aa = t1.cells_range(0, slot_g);
                let bb = t1.cells_range(slot_g + 1, nk + 1);
                let ll = leaf_cells_seq(left@);
                let rr = leaf_cells_seq(right@);
                let pp = leaf_cells_seq(p1);
                assert(t3.cells_range(0, slot_g) == aa);
                assert(t3.cells_range(slot_g + 2, nk2 + 1) == bb) by {
                    assert(t3.cells_range(slot_g + 2, (slot_g + 2) + (nk - slot_g)) == t1
                        .cells_range(slot_g + 1, (slot_g + 1) + (nk - slot_g)));
                }
                assert(t1.table_cells() == aa + pp + bb) by {
                    assert(t1.table_cells() == t1.cells_range(0, nk + 1));
                    assert(t1.cells_range(0, nk + 1) == aa + t1.cells_range(slot_g, nk + 1));
                    assert(t1.cells_range(slot_g, nk + 1) == t1.cells_range(slot_g, slot_g + 1)
                        + bb);
                    assert(aa + (pp + bb) =~= aa + pp + bb);
                }
                assert(t3.table_cells() == aa + ll + rr + bb) by {
                    assert(t3.table_cells() == t3.cells_range(0, nk2 + 1));
                    assert(t3.cells_range(0, nk2 + 1) == aa + t3.cells_range(slot_g, nk2 + 1));
                    assert(t3.cells_range(slot_g, nk2 + 1) == ll + t3.cells_range(
                        slot_g + 1,
                        nk2 + 1,
                    ));
                    assert(t3.cells_range(slot_g + 1, nk2 + 1) == rr + t3.cells_range(
                        slot_g + 2,
                        nk2 + 1,
                    ));
                    assert(aa + (ll + (rr + bb)) =~= aa + ll + rr + bb);
                }
                assert(ll + rr =~= merged);
                vstd::seq_lib::to_multiset_insert(pp, cursor.cell_num as int, cellv);
                let m_aa = aa.to_multiset();
                let m_bb = bb.to_multiset();
                let m_ll = ll.to_multiset();
                let m_rr = rr.to_multiset();
                let m_pp = pp.to_multiset();
                assert(merged.to_multiset() == m_pp.insert(cellv));
                assert(m_ll.add(m_rr) == merged.to_multiset()) by {
                    vstd::seq_lib::lemma_multiset_commutative(ll, rr);
                }
                assert(t3.table_cells().to_multiset() == m_aa.add(m_ll).add(m_rr).add(m_bb)) by {
                    vstd::seq_lib::lemma_multiset_commutative(aa + ll + rr, bb);
                    vstd::seq_lib::lemma_multiset_commutative(aa + ll, rr);
                    vstd::seq_lib::lemma_multiset_commutative(aa, ll);
                }
                assert(t1.table_cells().to_multiset() == m_aa.add(m_pp).add(m_bb)) by {
                    vstd::seq_lib::lemma_multiset_commutative(aa + pp, bb);
                    vstd::seq_lib::lemma_multiset_commutative(aa, pp);
                }
                assert(m_aa.add(m_ll).add(m_rr).add(m_bb) =~= m_aa.add(m_pp).add(m_bb).insert(
                    cellv,
                )) by {
                    assert(m_aa.add(m_ll).add(m_rr) =~= m_aa.add(m_ll.add(m_rr)));
                    assert(m_ll.add(m_rr) == m_pp.insert(cellv));
                }
                assert(t3.table_cells().to_multiset() == t1.table_cells().to_multiset().insert(
                    cellv,
                ));
            }
        }
    }
}

/// Some cell of the leaf holds `key`.
pub open spec fn leaf_has_key(p: Seq<u8>, key: u32) -> bool {
    exists|i: int| 0 <= i < spec_leaf_num_cells(p) && #[trigger] spec_leaf_key(p, i) == key
}

/// The leaf that `find_node` inspects for `key`: the root itself, or the
/// child its separators route `key` to.
pub open spec fn spec_target_leaf(t: Table, key: u32) -> Seq<u8> {
    if spec_node_type(t.root()) == NODE_TYPE_LEAF {
        t.root()
    } else {
        t.pager.page_at(child_of(t.root(), spec_child_slot(t.root(), key)) as int)
    }
}

spec fn range_has_key(t: Table, j: int, m: int, key: u32) -> bool {
    exists|i: int|
        0 <= i < t.cells_range(j, m).len() && (#[trigger] t.cells_range(j, m)[i]).0 == key
}

proof fn lemma_range_has_key(t: Table, j: int, m: int, key: u32)
    ensures
        range_has_key(t, j, m, key) <==> exists|jj: int|
            j <= jj < m && leaf_has_key(
                t.pager.page_at(#[trigger] child_of(t.root(), jj) as int),
                key,
            ),
    decreases m - j,
{
    if j >= m {
        assert(t.cells_range(j, m).len() == 0);
        assert(!range_has_key(t, j, m, key));
    } else {
        let p = t.pager.page_at(child_of(t.root(), j) as int);
        let head = leaf_cells_seq(p);
        let tail = t.cells_range(j + 1, m);
        lemma_range_has_key(t, j + 1, m, key);
        assert(t.cells_range(j, m) == head + tail);
        if range_has_key(t, j, m, key) {
            let i = choose|i: int|
                0 <= i < t.cells_range(j, m).len() && (#[trigger] t.cells_range(j, m)[i]).0
                    == key;
            if i < head.len() {
                assert(spec_leaf_key(p, i) == key);
                assert(leaf_has_key(p, key));
                assert(child_of(t.root(), j) == child_of(t.root(), j));
            } else {
                assert(tail[i - head.len()].0 == key);
                assert(range_has_key(t, j + 1, m, key));
            }
        }
        if exists|jj: int|
            j <= jj < m && leaf_has_key(
                t.pager.page_at(#[trigger] child_of(t.root(), jj) as int),
                key,
            ) {
            let jj = choose|jj: int|
                j <= jj < m && leaf_has_key(
                    t.pager.page_at(#[trigger] child_of(t.root(), jj) as int),
                    key,
                );
            if jj == j {
                let i = choose|i: int|
                    0 <= i < spec_leaf_num_cells(p) && #[trigger] spec_leaf_key(p, i) == key;
                assert(t.cells_range(j, m)[i] == head[i]);
                assert(range_has_key(t, j, m, key));
            } else {
                assert(range_has_key(t, j + 1, m, key));
                let i = choose|i: int|
                    0 <= i < tail.len() && (#[trigger] tail[i]).0 == key;
                assert(t.cells_range(j, m)[head.len() + i] == tail[i]);
                assert(range_has_key(t, j, m, key));
            }
        }
    }
}

/// A key is in the table exactly when it is in the leaf the separators
/// route it to.
pub proof fn lemma_contains_key_routed(t: Table, key: u32)
    requires
        t.wf(),
    ensures
        t.contains_key(key) <==> leaf_has_key(spec_target_leaf(t, key), key),
{
    if spec_node_type(t.root()) == NODE_TYPE_LEAF {
        let p = t.root();
        if t.contains_key(key) {
            let i = choose|i: int|
                0 <= i < t.table_cells().len() && (#[trigger] t.table_cells()[i]).0 == key;
            assert(spec_leaf_key(p, i) == key);
        }
        if leaf_has_key(p, key) {
            let i = choose|i: int|
                0 <= i < spec_leaf_num_cells(p) && #[trigger] spec_leaf_key(p, i) == key;
            assert(t.table_cells()[i].0 == key);
        }
    } else {
        let root = t.root();
        let nk = spec_internal_num_keys(root) as int;
        let slot = spec_child_slot(root, key);
        lemma_child_slot_props(root, key);
        assert(t.pages_view()[0] == root);
        assert(internal_root_wf(t.pages_view()));
        lemma_internal_seps_sorted(t.pages_view());
        lemma_range_has_key(t, 0, nk + 1, key);
        assert(t.contains_key(key) <==> range_has_key(t, 0, nk + 1, key));
        let target = spec_target_leaf(t, key);
        assert(target == t.pager.page_at(child_of(root, slot) as int));
        if t.contains_key(key) {
            let jj = choose|jj: int|
                0 <= jj < nk + 1 && leaf_has_key(
                    t.pager.page_at(#[trigger] child_of(t.root(), jj) as int),
                    key,
                );
            let pj = t.pager.page_at(child_of(root, jj) as int);
            assert(t.pages_view()[child_of(root, jj) as int] == pj);
            let i = choose|i: int|
                0 <= i < spec_leaf_num_cells(pj) && #[trigger] spec_leaf_key(pj, i) == key;
            if jj < slot {
                assert(spec_internal_key(root, jj) < key);
                assert(spec_internal_key(root, jj) == leaf_last_key(pj));
                if i < spec_leaf_num_cells(pj) - 1 {
                    assert(spec_leaf_key(pj, i) < spec_leaf_key(
                        pj,
                        spec_leaf_num_cells(pj) - 1,
                    ));
                }
                assert(false);
            } else if jj > slot {
                assert(slot < nk);
                assert(key <= spec_internal_key(root, slot));
                assert(leaf_first_key(pj) > spec_internal_key(root, jj - 1));
                if slot < jj - 1 {
                    assert(spec_internal_key(root, slot) < spec_internal_key(root, jj - 1));
                }
                assert(spec_leaf_key(pj, 0) > key);
                if i > 0 {
                    assert(spec_leaf_key(pj, 0) < spec_leaf_key(pj, i));
                }
                assert(false);
            }
            assert(leaf_has_key(target, key));
        }
        if leaf_has_key(target, key) {
            assert(0 <= slot < nk + 1);
            assert(leaf_has_key(
                t.pager.page_at(child_of(t.root(), slot) as int),
                key,
            ));
            assert(range_has_key(t, 0, nk + 1, key));
        }
    }
}

/// One more slot extends the cells by the cells of that slot's child.
pub proof fn lemma_cells_range_snoc(t: Table, j: int)
    requires
        0 <= j,
    ensures
        t.cells_range(0, j + 1) == t.cells_range(0, j) + leaf_cells_seq(
            t.pager.page_at(child_of(t.root(), j) as int),
        ),
{
    lemma_cells_range_split(t, 0, j, j + 1);
    assert(t.cells_range(j + 1, j + 1) =~= Seq::<(u32, Seq<u8>)>::empty());
    assert(t.cells_range(j, j + 1) =~= leaf_cells_seq(
        t.pager.page_at(child_of(t.root(), j) as int),
    ));
}

/// Ordered keys within capacity: every leaf of a well-formed table keeps
/// its keys strictly ascending and holds at most `LEAF_NODE_MAX_CELLS`
/// cells. Every operation of this crate preserves `wf`, so this holds at
/// every observable moment.
pub proof fn lemma_every_leaf_ordered_and_within_capacity(t: Table)
    requires
        t.wf(),
    ensures
        spec_node_type(t.root()) == NODE_TYPE_LEAF ==> leaf_keys_sorted(t.root())
            && spec_leaf_num_cells(t.root()) <= LEAF_NODE_MAX_CELLS,
        spec_node_type(t.root()) == NODE_TYPE_INTERNAL ==> forall|j: int|
            0 <= j <= spec_internal_num_keys(t.root()) ==> leaf_keys_sorted(
                t.pager.page_at(#[trigger] child_of(t.root(), j) as int),
            ) && spec_leaf_num_cells(t.pager.page_at(child_of(t.root(), j) as int))
                <= LEAF_NODE_MAX_CELLS,
{
    assert(t.pages_view()[0] == t.root());
    if spec_node_type(t.root()) == NODE_TYPE_INTERNAL {
        assert forall|j: int|
            0 <= j <= spec_internal_num_keys(t.root()) implies leaf_keys_sorted(
            t.pager.page_at(#[trigger] child_of(t.root(), j) as int),
        ) && spec_leaf_num_cells(t.pager.page_at(child_of(t.root(), j) as int))
            <= LEAF_NODE_MAX_CELLS by {
            assert(0 < child_of(t.root(), j) < t.pager.num_pages);
            assert(t.pages_view()[child_of(t.root(), j) as int] == t.pager.page_at(
                child_of(t.root(), j) as int,
            ));
            assert(leaf_wf(t.pages_view()[child_of(t.root(), j) as int]));
        }
    }
}

/// Split preservation: the two halves of a split hold exactly the old
/// cells plus the inserted one — the same multiset — with the agreed
/// counts, and every key of the left half sits below every key of the
/// right half.
pub proof fn lemma_split_preservation(p1: Seq<u8>, cell_num: int, c: (u32, Seq<u8>))
    requires
        leaf_wf(p1),
        spec_leaf_num_cells(p1) == LEAF_NODE_MAX_CELLS,
        0 <= cell_num <= LEAF_NODE_MAX_CELLS,
        forall|i: int| 0 <= i < cell_num ==> #[trigger] spec_leaf_key(p1, i) < c.0,
        cell_num < LEAF_NODE_MAX_CELLS ==> spec_leaf_key(p1, cell_num) > c.0,
        row_image_valid(c.1),
    ensures
        ({
            let merged = leaf_cells_seq(p1).insert(cell_num, c);
            let l = merged.take(crate::layout::LEAF_NODE_LEFT_SPLIT_COUNT as int);
            let r = merged.skip(crate::layout::LEAF_NODE_LEFT_SPLIT_COUNT as int);
            &&& l.len() == crate::layout::LEAF_NODE_LEFT_SPLIT_COUNT
            &&& r.len() == crate::layout::LEAF_NODE_RIGHT_SPLIT_COUNT
            &&& l.to_multiset().add(r.to_multiset()) == leaf_cells_seq(
                p1,
            ).to_multiset().insert(c)
            &&& (forall|i: int, j: int|
                0 <= i < l.len() && 0 <= j < r.len() ==> (#[trigger] l[i]).0 < (
                #[trigger] r[j]).0)
        }),
{
    lemma_merged_cells(p1, cell_num, c);
    let merged = leaf_cells_seq(p1).insert(cell_num, c);
    let lc = crate::layout::LEAF_NODE_LEFT_SPLIT_COUNT as int;
    let l = merged.take(lc);
    let r = merged.skip(lc);
    assert(l + r =~= merged);
    vstd::seq_lib::lemma_multiset_commutative(l, r);
    vstd::seq_lib::to_multiset_insert(leaf_cells_seq(p1), cell_num, c);
    assert forall|i: int, j: int|
        0 <= i < l.len() && 0 <= j < r.len() implies (#[trigger] l[i]).0 < (
    #[trigger] r[j]).0 by {
        assert(l[i] == merged[i]);
        assert(r[j] == merged[lc + j]);
    }
}

/// The database file's bytes: the resident pages concatenated in page
/// order.
pub open spec fn concat_pages(pages: Seq<Seq<u8>>) -> Seq<u8>
    decreases pages.len(),
{
    if pages.len() == 0 {
        Seq::empty()
    } else {
        pages[0] + concat_pages(pages.drop_first())
    }
}

/// Persistence: the flushed pages, written in page order, split back into
/// exactly those pages, so reopening the file restores the table.
pub proof fn lemma_flush_reopen(pages: Seq<Seq<u8>>)
    requires
        forall|i: int| 0 <= i < pages.len() ==> (#[trigger] pages[i]).len() == PAGE_SIZE,
    ensures
        concat_pages(pages).len() == pages.len() * PAGE_SIZE,
        spec_file_pages(concat_pages(pages)) == pages,
    decreases pages.len(),
{
    if pages.len() == 0 {
        assert(spec_file_pages(concat_pages(pages)) =~= pages);
    } else {
        let rest = pages.drop_first();
        lemma_flush_reopen(rest);
        let bytes = concat_pages(pages);
        assert(bytes.len() == pages.len() * PAGE_SIZE);
        assert forall|i: int|
            0 <= i < pages.len() implies bytes.subrange(i * PAGE_SIZE, (i + 1) * PAGE_SIZE)
            == pages[i] by {
            if i == 0 {
                assert(bytes.subrange(0, PAGE_SIZE as int) =~= pages[0]);
            } else {
                assert(concat_pages(rest).subrange((i - 1) * PAGE_SIZE, i * PAGE_SIZE) == rest[i
                    - 1]);
                assert(bytes.subrange(i * PAGE_SIZE, (i + 1) * PAGE_SIZE) =~= concat_pages(
                    rest,
                ).subrange((i - 1) * PAGE_SIZE, i * PAGE_SIZE));
            }
        }
        assert(spec_file_pages(bytes) =~= pages);
    }
}

proof fn lemma_cells_range_sorted_upto(t: Table, m: int)
    requires
        t.wf(),
        spec_node_type(t.root()) == NODE_TYPE_INTERNAL,
        0 <= m <= spec_internal_num_keys(t.root()) + 1,
    ensures
        cells_sorted(t.cells_range(0, m)),
        m <= spec_internal_num_keys(t.root()) ==> forall|i: int|
            0 <= i < t.cells_range(0, m).len() ==> (#[trigger] t.cells_range(0, m)[i]).0
                < leaf_first_key(t.pager.page_at(child_of(t.root(), m) as int)),
    decreases m,
{
    let root = t.root();
    let nk = spec_internal_num_keys(root) as int;
    assert(t.pages_view()[0] == root);
    assert(internal_root_wf(t.pages_view()));
    if m == 0 {
        assert(t.cells_range(0, 0).len() == 0);
    } else {
        lemma_cells_range_sorted_upto(t, m - 1);
        lemma_cells_range_snoc(t, m - 1);
        let prev = t.cells_range(0, m - 1);
        let p = t.pager.page_at(child_of(root, m - 1) as int);
        assert(0 < child_of(root, m - 1) < t.pager.num_pages);
        assert(t.pages_view()[child_of(root, m - 1) as int] == p);
        assert(leaf_wf(p));
        assert(spec_leaf_num_cells(p) >= 1);
        let cur = t.cells_range(0, m);
        assert(cur == prev + leaf_cells_seq(p));
        assert forall|i: int, j: int|
            0 <= i < j < cur.len() implies (#[trigger] cur[i]).0 < (#[trigger] cur[j]).0 by {
            if j < prev.len() {
                assert(cur[i] == prev[i] && cur[j] == prev[j]);
            } else if i >= prev.len() {
                assert(cur[i] == leaf_cells_seq(p)[i - prev.len()]);
                assert(cur[j] == leaf_cells_seq(p)[j - prev.len()]);
                assert(spec_leaf_key(p, i - prev.len()) < spec_leaf_key(p, j - prev.len()));
            } else {
                assert(cur[i] == prev[i]);
                assert(cur[j] == leaf_cells_seq(p)[j - prev.len()]);
                assert(prev[i].0 < leaf_first_key(p));
                if j - prev.len() > 0 {
                    assert(spec_leaf_key(p, 0) < spec_leaf_key(p, j - prev.len()));
                }
            }
        }
        if m <= nk {
            let q = t.pager.page_at(child_of(root, m) as int);
            assert(0 < child_of(root, m) < t.pager.num_pages);
            assert(t.pages_view()[child_of(root, m) as int] == q);
            assert(leaf_first_key(q) > spec_internal_key(root, m - 1));
            assert(spec_internal_key(root, m - 1) == leaf_last_key(p));
            assert forall|i: int|
                0 <= i < cur.len() implies (#[trigger] cur[i]).0 < leaf_first_key(q) by {
                if i < prev.len() {
                    assert(cur[i] == prev[i]);
                    assert(prev[i].0 < leaf_first_key(p));
                    if spec_leaf_num_cells(p) > 1 {
                        assert(spec_leaf_key(p, 0) < spec_leaf_key(
                            p,
                            spec_leaf_num_cells(p) - 1,
                        ));
                    }
                } else {
                    assert(cur[i] == leaf_cells_seq(p)[i - prev.len()]);
                    if i - prev.len() < spec_leaf_num_cells(p) - 1 {
                        assert(spec_leaf_key(p, i - prev.len()) < spec_leaf_key(
                            p,
                            spec_leaf_num_cells(p) - 1,
                        ));
                    }
                }
            }
        }
    }
}

/// The table's cells are strictly ascending by key: a full scan meets the
/// rows in ascending key order.
pub proof fn lemma_table_cells_sorted(t: Table)
    requires
        t.wf(),
    ensures
        cells_sorted(t.table_cells()),
{
    if spec_node_type(t.root()) == NODE_TYPE_LEAF {
        assert forall|i: int, j: int|
            0 <= i < j < t.table_cells().len() implies (#[trigger] t.table_cells()[i]).0 < (
        #[trigger] t.table_cells()[j]).0 by {
            assert(spec_leaf_key(t.root(), i) < spec_leaf_key(t.root(), j));
        }
    } else {
        lemma_cells_range_sorted_upto(t, spec_internal_num_keys(t.root()) + 1);
    }
}

} // verus!
