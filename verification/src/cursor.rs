//! The cursor: a transient `(page, cell)` position in the tree, plain data
//! borrowed against no one. Operations that read or move it take the table
//! alongside; positioned insertion lives here too and is implemented by the
//! table's split machinery when the leaf is full.

use vstd::prelude::*;
use crate::layout::{PAGE_SIZE, spec_leaf_num_cells, spec_leaf_key, spec_leaf_value};
use crate::row::{Row, spec_row_of, row_image_valid};
use crate::table::{Table, leaf_wf};
use crate::node::{leaf_node_num_cells, leaf_node_value};

verus! {

pub struct Cursor {
    pub page_num: usize,
    pub cell_num: usize,
    pub end_of_table: bool,
}

impl Cursor {
    /// The cursor addresses a well-formed leaf of the table.
    pub open spec fn in_leaf(&self, table: Table) -> bool {
        &&& self.page_num < table.pager.num_pages
        &&& leaf_wf(table.pager.page_at(self.page_num as int))
    }

    /// The cursor addresses an existing cell of that leaf.
    pub open spec fn at_cell(&self, table: Table) -> bool {
        &&& self.in_leaf(table)
        &&& self.cell_num < spec_leaf_num_cells(table.pager.page_at(self.page_num as int))
    }

    /// A copy of the cell's value bytes.
    pub fn value(&self, table: &Table) -> (r: Vec<u8>)
        requires
            table.wf(),
            self.at_cell(*table),
        ensures
            r@ == spec_leaf_value(table.pager.page_at(self.page_num as int), self.cell_num as int),
    {
        let node = table.pager.flush_page(self.page_num);
        leaf_node_value(&node, self.cell_num)
    }

    /// The row stored at the cursor's cell.
    pub fn get_row(&self, table: &Table) -> (r: Row)
        requires
            table.wf(),
            self.at_cell(*table),
        ensures
            ({
                let v = spec_leaf_value(
                    table.pager.page_at(self.page_num as int),
                    self.cell_num as int,
                );
                &&& r.id == spec_row_of(v).0
                &&& r.username@ == spec_row_of(v).1
                &&& r.email@ == spec_row_of(v).2
            }),
    {
        let value = self.value(table);
        match Row::deserialize(&value, 0) {
            Some(row) => row,
            // the table invariant keeps every stored row image decodable
            None => vstd::pervasive::unreached(),
        }
    }

    /// Moves to the next cell of the leaf; past the last cell only the
    /// end-of-table flag is raised.
    pub fn advance(&mut self, table: &Table)
        requires
            table.wf(),
            old(self).at_cell(*table),
        ensures
            final(self).page_num == old(self).page_num,
            final(self).cell_num == old(self).cell_num + 1,
            final(self).end_of_table == (old(self).cell_num + 1 >= spec_leaf_num_cells(
                table.pager.page_at(old(self).page_num as int),
            )),
    {
        let page_num = self.page_num;
        let node = table.pager.flush_page(page_num);
        self.cell_num = self.cell_num + 1;
        let num_cells = leaf_node_num_cells(&node);
        if self.cell_num >= num_cells as usize {
            self.end_of_table = true;
        } else {
            self.end_of_table = false;
        }
    }
}

impl Cursor {
    /// Positioned insert of `(key, row)` at the cursor's slot, splitting the
    /// leaf first when it is full. The cursor must be the one `find_node`
    /// returned for `key`, and `key` must not already be in the leaf.
    pub fn leaf_node_insert(&self, table: &mut Table, key: u32, row: &Row)
        requires
            old(table).wf(),
            crate::row::row_fits(row.username@, row.email@),
            self.page_num < old(table).pager.num_pages,
            leaf_wf(old(table).pager.page_at(self.page_num as int)),
            self.cell_num <= spec_leaf_num_cells(old(table).pager.page_at(self.page_num as int)),
            forall|i: int|
                0 <= i < self.cell_num ==> #[trigger] spec_leaf_key(
                    old(table).pager.page_at(self.page_num as int),
                    i,
                ) < key,
            self.cell_num < spec_leaf_num_cells(old(table).pager.page_at(self.page_num as int))
                ==> spec_leaf_key(
                old(table).pager.page_at(self.page_num as int),
                self.cell_num as int,
            ) > key,
            crate::layout::spec_node_type(old(table).root()) == crate::layout::NODE_TYPE_LEAF
                ==> self.page_num == 0,
            crate::layout::spec_node_type(old(table).root()) == crate::layout::NODE_TYPE_INTERNAL
                ==> self.page_num == crate::table::child_of(
                old(table).root(),
                crate::table::spec_child_slot(old(table).root(), key),
            ),
            spec_leaf_num_cells(old(table).pager.page_at(self.page_num as int))
                == crate::layout::LEAF_NODE_MAX_CELLS ==> old(table).pager.num_pages + (
            if crate::layout::spec_node_type(old(table).root()) == crate::layout::NODE_TYPE_LEAF {
                2int
            } else {
                1int
            }) <= crate::layout::TABLE_MAX_PAGES,
        ensures
            final(table).wf(),
            final(table).pager.num_pages <= old(table).pager.num_pages + 2,
            final(table).table_cells().to_multiset() == old(
                table,
            ).table_cells().to_multiset().insert(
                (key, crate::row::spec_row_bytes(row.id, row.username@, row.email@)),
            ),
            // a leaf with room takes the cell in place: same pages, same
            // root type, only this leaf's cells change
            spec_leaf_num_cells(old(table).pager.page_at(self.page_num as int))
                < crate::layout::LEAF_NODE_MAX_CELLS ==> {
                &&& final(table).pager.num_pages == old(table).pager.num_pages
                &&& crate::layout::spec_node_type(final(table).root())
                    == crate::layout::spec_node_type(old(table).root())
                &&& crate::table::leaf_cells_seq(
                    final(table).pager.page_at(self.page_num as int),
                ) == crate::table::leaf_cells_seq(
                    old(table).pager.page_at(self.page_num as int),
                ).insert(
                    self.cell_num as int,
                    (key, crate::row::spec_row_bytes(row.id, row.username@, row.email@)),
                )
                &&& (forall|i: int|
                    0 <= i < old(table).pager.num_pages && i != self.page_num
                        ==> #[trigger] final(table).pager.page_at(i) == old(
                        table,
                    ).pager.page_at(i))
            },
            // a full leaf is split: the halves of the merged cells land as
            // `Table::leaf_node_split_and_insert` lays them out
            spec_leaf_num_cells(old(table).pager.page_at(self.page_num as int))
                == crate::layout::LEAF_NODE_MAX_CELLS ==> {
                let p1 = old(table).pager.page_at(self.page_num as int);
                let merged = crate::table::leaf_cells_seq(p1).insert(
                    self.cell_num as int,
                    (key, crate::row::spec_row_bytes(row.id, row.username@, row.email@)),
                );
                let lc = crate::layout::LEAF_NODE_LEFT_SPLIT_COUNT as int;
                let n0 = old(table).pager.num_pages as int;
                &&& crate::layout::spec_node_type(final(table).root())
                    == crate::layout::NODE_TYPE_INTERNAL
                &&& crate::table::leaf_cells_seq(final(table).pager.page_at(n0))
                    == merged.skip(lc)
                &&& (crate::layout::spec_node_type(old(table).root())
                    == crate::layout::NODE_TYPE_LEAF ==> {
                    &&& final(table).pager.num_pages == n0 + 2
                    &&& crate::layout::spec_is_root(final(table).root())
                    &&& crate::layout::spec_internal_num_keys(final(table).root()) == 1
                    &&& crate::layout::spec_internal_child(final(table).root(), 0) == n0 + 1
                    &&& crate::layout::spec_internal_right_child(final(table).root()) == n0
                    &&& crate::layout::spec_internal_key(final(table).root(), 0) == merged[lc
                        - 1].0
                    &&& crate::table::leaf_cells_seq(final(table).pager.page_at(n0 + 1))
                        == merged.take(lc)
                    &&& (forall|i: int|
                        1 <= i < n0
                            ==> #[trigger] final(table).pager.page_at(i) == old(
                            table,
                        ).pager.page_at(i))
                })
                &&& (crate::layout::spec_node_type(old(table).root())
                    == crate::layout::NODE_TYPE_INTERNAL ==> {
                    let root1 = old(table).root();
                    let slot = crate::table::spec_child_slot(root1, key);
                    let nk = crate::layout::spec_internal_num_keys(root1) as int;
                    let root2 = final(table).root();
                    &&& final(table).pager.num_pages == n0 + 1
                    &&& crate::table::leaf_cells_seq(
                        final(table).pager.page_at(self.page_num as int),
                    ) == merged.take(lc)
                    &&& crate::layout::spec_internal_num_keys(root2) == nk + 1
                    &&& crate::layout::spec_internal_key(root2, slot) == merged[lc - 1].0
                    &&& (slot < nk ==> crate::layout::spec_internal_key(root2, slot + 1)
                        == crate::layout::spec_internal_key(root1, slot))
                    &&& (forall|j: int|
                        0 <= j < slot ==> #[trigger] crate::layout::spec_internal_key(root2, j)
                            == crate::layout::spec_internal_key(root1, j))
                    &&& (forall|j: int|
                        slot + 2 <= j <= nk ==> #[trigger] crate::layout::spec_internal_key(
                            root2,
                            j,
                        ) == crate::layout::spec_internal_key(root1, j - 1))
                    &&& (forall|j: int|
                        0 <= j <= slot ==> #[trigger] crate::table::child_of(root2, j)
                            == crate::table::child_of(root1, j))
                    &&& crate::table::child_of(root2, slot + 1) == n0
                    &&& (forall|j: int|
                        slot + 2 <= j <= nk + 1 ==> #[trigger] crate::table::child_of(root2, j)
                            == crate::table::child_of(root1, j - 1))
                    &&& (forall|i: int|
                        0 < i < n0 && i != self.page_num
                            ==> #[trigger] final(table).pager.page_at(i) == old(
                            table,
                        ).pager.page_at(i))
                })
            },
    {
        let node = table.pager.flush_page(self.page_num);
        let num_cells = leaf_node_num_cells(&node);
        if num_cells as usize >= crate::layout::LEAF_NODE_MAX_CELLS {
            table.leaf_node_split_and_insert(self, key, row);
        } else {
            table.leaf_insert_nonfull(self.page_num, self.cell_num, key, row);
        }
    }
}

} // verus!
