//! Statement execution against an open table: ordered insertion with
//! duplicate rejection, and the full scan that backs `select`.

use vstd::prelude::*;
use crate::layout::{
    TABLE_MAX_PAGES, NODE_TYPE_LEAF, NODE_TYPE_INTERNAL, LEAF_NODE_MAX_CELLS, spec_node_type,
    spec_leaf_num_cells, spec_leaf_key, spec_leaf_value, spec_internal_num_keys,
};
use crate::node::{
    leaf_node_num_cells, leaf_node_key, internal_node_num_keys, get_node_type, NodeType,
};
use crate::row::{Row, row_fits, spec_row_bytes, spec_row_of};
use crate::table::{
    Table, leaf_wf, child_of, spec_target_leaf, leaf_has_key, lemma_contains_key_routed,
    internal_child_at, leaf_cells_seq,
};
use crate::cursor::Cursor;

verus! {

pub enum ExecuteResult {
    Success,
    DuplicateKey,
    TableFull,
}

/// The insert fits: either its leaf has room, or the pager still has the
/// pages a split of that leaf needs.
pub open spec fn spec_insert_fits(t: Table, key: u32) -> bool {
    ||| spec_leaf_num_cells(spec_target_leaf(t, key)) < LEAF_NODE_MAX_CELLS
    ||| t.pager.num_pages + (
    if spec_node_type(t.root()) == NODE_TYPE_LEAF {
        2int
    } else {
        1int
    }) <= TABLE_MAX_PAGES
}

/// Inserts the row under its id. The table is unchanged unless the result
/// is `Success`, and then it holds exactly one more cell: the row's image
/// under its id.
pub fn execute_insert(table: &mut Table, row: Row) -> (r: ExecuteResult)
    requires
        old(table).wf(),
        row_fits(row.username@, row.email@),
    ensures
        final(table).wf(),
        match r {
            ExecuteResult::DuplicateKey => *final(table) == *old(table) && old(
                table,
            ).contains_key(row.id),
            ExecuteResult::TableFull => *final(table) == *old(table) && !old(table).contains_key(
                row.id,
            ) && !spec_insert_fits(*old(table), row.id),
            ExecuteResult::Success => !old(table).contains_key(row.id) && spec_insert_fits(
                *old(table),
                row.id,
            ) && final(table).contains_key(row.id)
                && final(table).table_cells().to_multiset() == old(
                table,
            ).table_cells().to_multiset().insert(
                (row.id, spec_row_bytes(row.id, row.username@, row.email@)),
            ),
        },
{
    let key_to_insert = row.id;
    let cursor = table.find_node(key_to_insert);
    proof {
        lemma_contains_key_routed(*table, key_to_insert);
        if spec_node_type(table.root()) == NODE_TYPE_INTERNAL {
            assert(spec_target_leaf(*table, key_to_insert) == table.pager.page_at(
                cursor.page_num as int,
            ));
        }
    }
    let ghost target = table.pager.page_at(cursor.page_num as int);
    let node = table.pager.flush_page(cursor.page_num);
    let num_cells = leaf_node_num_cells(&node);
    if cursor.cell_num < num_cells as usize {
        let key_at_index = leaf_node_key(&node, cursor.cell_num as u32);
        if key_at_index == key_to_insert {
            proof {
                assert(spec_leaf_key(target, cursor.cell_num as int) == key_to_insert);
                assert(leaf_has_key(target, key_to_insert));
            }
            return ExecuteResult::DuplicateKey;
        }
    }
    proof {
        assert(!leaf_has_key(target, key_to_insert)) by {
            assert forall|i: int|
                0 <= i < spec_leaf_num_cells(target) implies #[trigger] spec_leaf_key(target, i)
                != key_to_insert by {
                if i < cursor.cell_num {
                } else if i == cursor.cell_num {
                } else {
                    assert(spec_leaf_key(target, cursor.cell_num as int) < spec_leaf_key(
                        target,
                        i,
                    ));
                }
            }
        }
    }
    if num_cells as usize >= LEAF_NODE_MAX_CELLS {
        let root_node = table.pager.flush_page(0);
        let needed: usize = match get_node_type(&root_node) {
            NodeType::Leaf => 2,
            NodeType::Internal => 1,
        };
        if table.pager.num_pages + needed > TABLE_MAX_PAGES {
            return ExecuteResult::TableFull;
        }
    }
    let ghost cellv = (row.id, spec_row_bytes(row.id, row.username@, row.email@));
    cursor.leaf_node_insert(table, key_to_insert, &row);
    proof {
        let cells2 = table.table_cells();
        cells2.to_multiset_ensures();
        assert(cells2.to_multiset().count(cellv) > 0);
        assert(cells2.contains(cellv));
        let w = choose|i: int| 0 <= i < cells2.len() && cells2[i] == cellv;
        assert(cells2[w].0 == row.id);
    }
    ExecuteResult::Success
}

/// Appends one row per cell of the leaf, in cell order.
fn collect_leaf_rows(table: &Table, page_num: usize, rows: &mut Vec<Row>)
    requires
        table.wf(),
        page_num < table.pager.num_pages,
        leaf_wf(table.pager.page_at(page_num as int)),
    ensures
        ({
            let p = table.pager.page_at(page_num as int);
            let n = spec_leaf_num_cells(p) as int;
            &&& final(rows)@.len() == old(rows)@.len() + n
            &&& (forall|i: int|
                0 <= i < old(rows)@.len() ==> #[trigger] final(rows)@[i] == old(rows)@[i])
            &&& (forall|i: int|
                old(rows)@.len() <= i < final(rows)@.len() ==> {
                    let v = spec_leaf_value(p, i - old(rows)@.len());
                    &&& (#[trigger] final(rows)@[i]).id == spec_row_of(v).0
                    &&& final(rows)@[i].username@ == spec_row_of(v).1
                    &&& final(rows)@[i].email@ == spec_row_of(v).2
                })
        }),
{
    let node = table.pager.flush_page(page_num);
    let num_cells = leaf_node_num_cells(&node);
    let mut cursor = Cursor {
        page_num,
        cell_num: 0,
        end_of_table: num_cells == 0,
    };
    while !cursor.end_of_table
        invariant
            table.wf(),
            page_num < table.pager.num_pages,
            leaf_wf(table.pager.page_at(page_num as int)),
            num_cells == spec_leaf_num_cells(table.pager.page_at(page_num as int)),
            cursor.page_num == page_num,
            cursor.cell_num <= num_cells,
            cursor.end_of_table <==> cursor.cell_num >= num_cells,
            rows@.len() == old(rows)@.len() + cursor.cell_num,
            forall|i: int| 0 <= i < old(rows)@.len() ==> #[trigger] rows@[i] == old(rows)@[i],
            forall|i: int|
                old(rows)@.len() <= i < rows@.len() ==> {
                    let v = spec_leaf_value(
                        table.pager.page_at(page_num as int),
                        i - old(rows)@.len(),
                    );
                    &&& (#[trigger] rows@[i]).id == spec_row_of(v).0
                    &&& rows@[i].username@ == spec_row_of(v).1
                    &&& rows@[i].email@ == spec_row_of(v).2
                },
        decreases num_cells - cursor.cell_num,
    {
        let row = cursor.get_row(table);
        rows.push(row);
        cursor.advance(table);
    }
}

/// Every row of the table, in ascending key order: the element at `i`
/// decodes the value bytes of the table's cell at `i`.
pub fn execute_select(table: &Table) -> (rows: Vec<Row>)
    requires
        table.wf(),
    ensures
        rows@.len() == table.table_cells().len(),
        forall|i: int|
            0 <= i < rows@.len() ==> {
                let v = table.table_cells()[i].1;
                &&& (#[trigger] rows@[i]).id == spec_row_of(v).0
                &&& rows@[i].username@ == spec_row_of(v).1
                &&& rows@[i].email@ == spec_row_of(v).2
            },
{
    let mut rows: Vec<Row> = Vec::new();
    let root_node = table.pager.flush_page(0);
    match get_node_type(&root_node) {
        NodeType::Leaf => {
            collect_leaf_rows(table, 0, &mut rows);
            proof {
                assert(table.table_cells() == leaf_cells_seq(table.root()));
                assert forall|i: int|
                    0 <= i < rows@.len() implies (#[trigger] table.table_cells()[i]).1
                    == spec_leaf_value(table.root(), i) by {}
            }
        },
        NodeType::Internal => {
            let nk = internal_node_num_keys(&root_node);
            proof {
                assert(table.pages_view()[0] == table.root());
                assert(crate::table::internal_root_wf(table.pages_view()));
            }
            let mut j: u32 = 0;
            while j <= nk
        invariant
            table.wf(),
            spec_node_type(table.root()) == NODE_TYPE_INTERNAL,
            root_node@ == table.root(),
            nk == spec_internal_num_keys(table.root()),
            nk + 2 <= table.pager.num_pages,
            crate::table::internal_root_wf(table.pages_view()),
            j <= nk + 1,
            rows@.len() == table.cells_range(0, j as int).len(),
            forall|i: int|
                0 <= i < rows@.len() ==> {
                    let v = table.cells_range(0, j as int)[i].1;
                    &&& (#[trigger] rows@[i]).id == spec_row_of(v).0
                    &&& rows@[i].username@ == spec_row_of(v).1
                    &&& rows@[i].email@ == spec_row_of(v).2
                },
        decreases nk + 1 - j,
            {
                let child = internal_child_at(&root_node, j);
                proof {
                    assert(0 < child_of(table.root(), j as int) < table.pager.num_pages);
                    assert(table.pages_view()[child_of(table.root(), j as int) as int]
                        == table.pager.page_at(child as int));
                }
                let ghost rows_before = rows@;
                let ghost prev = table.cells_range(0, j as int);
                collect_leaf_rows(table, child as usize, &mut rows);
                proof {
                    crate::table::lemma_cells_range_snoc(*table, j as int);
                    let p = table.pager.page_at(child_of(table.root(), j as int) as int);
                    let cur = table.cells_range(0, j as int + 1);
                    assert(cur == prev + leaf_cells_seq(p));
                    assert forall|i: int|
                        0 <= i < rows@.len() implies {
                        let v = (#[trigger] cur[i]).1;
                        &&& rows@[i].id == spec_row_of(v).0
                        &&& rows@[i].username@ == spec_row_of(v).1
                        &&& rows@[i].email@ == spec_row_of(v).2
                    } by {
                        if i < prev.len() {
                            assert(cur[i] == prev[i]);
                            assert(rows@[i] == rows_before[i]);
                        } else {
                            let k = i - prev.len();
                            assert(cur[i] == leaf_cells_seq(p)[k]);
                            assert(leaf_cells_seq(p)[k].1 == spec_leaf_value(p, k));
                            assert(rows@[i].id == spec_row_of(spec_leaf_value(p, k)).0);
                        }
                    }
                }
                j = j + 1;
            }
            proof {
                assert(table.table_cells() == table.cells_range(0, nk + 1));
            }
        },
    }
    rows
}

} // verus!
