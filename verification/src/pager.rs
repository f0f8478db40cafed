//! The pager: a fixed array of optional page buffers, indexed by page
//! number. It is loaded from the database file's bytes at open; pages past
//! the end of the file materialize zero-filled; the table hands every
//! resident page back for writing at close. Page numbers grow one at a time
//! and are never recycled.

use vstd::prelude::*;
use crate::layout::{PAGE_SIZE, TABLE_MAX_PAGES};
use crate::node::{initialize_leaf_node, zero_page};
use crate::layout::{spec_node_type, spec_is_root, spec_leaf_num_cells, NODE_TYPE_LEAF};

verus! {

/// A condition the storage layer treats as fatal: the caller reports it and
/// stops, as nothing sensible can be done with such a file.
#[derive(Debug)]
pub enum DbError {
    /// The file's length is not a whole number of pages, or holds more
    /// pages than the pager can ever address.
    CorruptFile,
    /// The root page is not a well-formed node.
    InvalidNode,
}

pub struct Pager {
    pub pages: Vec<Option<Vec<u8>>>,
    pub num_pages: usize,
}

impl Pager {
    /// The slot array has its fixed size, exactly the first `num_pages`
    /// slots are filled, and every resident page is page-sized.
    pub open spec fn wf(&self) -> bool {
        &&& self.pages@.len() == TABLE_MAX_PAGES
        &&& self.num_pages <= TABLE_MAX_PAGES
        &&& forall|i: int|
            0 <= i < TABLE_MAX_PAGES ==> ((#[trigger] self.pages@[i]) is Some <==> i
                < self.num_pages)
        &&& forall|i: int|
            0 <= i < self.num_pages ==> (#[trigger] self.pages@[i]).unwrap()@.len() == PAGE_SIZE
    }

    /// The bytes of resident page `i`.
    pub open spec fn page_at(&self, i: int) -> Seq<u8>
        recommends
            self.wf(),
            0 <= i < self.num_pages,
    {
        self.pages@[i].unwrap()@
    }

    /// Builds the pager from the database file's bytes. Fails exactly when
    /// the length is not a whole number of pages or the file holds more
    /// pages than the pager addresses.
    pub fn new(file_bytes: &Vec<u8>) -> (r: Result<Pager, DbError>)
        ensures
            match r {
                Ok(p) => {
                    &&& file_bytes@.len() % (PAGE_SIZE as nat) == 0
                    &&& p.wf()
                    &&& p.num_pages == file_bytes@.len() / (PAGE_SIZE as nat)
                    &&& forall|i: int|
                        0 <= i < p.num_pages ==> p.page_at(i) == file_bytes@.subrange(
                            i * PAGE_SIZE,
                            (i + 1) * PAGE_SIZE,
                        )
                },
                Err(e) => {
                    &&& e is CorruptFile
                    &&& (file_bytes@.len() % (PAGE_SIZE as nat) != 0 || file_bytes@.len() / (
                    PAGE_SIZE as nat) > TABLE_MAX_PAGES)
                },
            },
    {
        let file_length: usize = file_bytes.len();
        if file_length % PAGE_SIZE != 0 {
            return Err(DbError::CorruptFile);
        }
        let num_pages: usize = file_length / PAGE_SIZE;
        if num_pages > TABLE_MAX_PAGES {
            return Err(DbError::CorruptFile);
        }
        let mut pages: Vec<Option<Vec<u8>>> = Vec::new();
        let mut i: usize = 0;
        while i < num_pages
            invariant
                num_pages <= TABLE_MAX_PAGES,
                num_pages * PAGE_SIZE == file_bytes@.len(),
                i <= num_pages,
                pages@.len() == i,
                forall|k: int| 0 <= k < i ==> (#[trigger] pages@[k]) is Some,
                forall|k: int|
                    0 <= k < i ==> (#[trigger] pages@[k]).unwrap()@ == file_bytes@.subrange(
                        k * PAGE_SIZE,
                        (k + 1) * PAGE_SIZE,
                    ),
            decreases num_pages - i,
        {
            let mut page: Vec<u8> = Vec::new();
            let start: usize = i * PAGE_SIZE;
            let mut j: usize = 0;
            while j < PAGE_SIZE
                invariant
                    start == i * PAGE_SIZE,
                    i < num_pages,
                    num_pages * PAGE_SIZE == file_bytes@.len(),
                    j <= PAGE_SIZE,
                    page@.len() == j,
                    forall|k: int| 0 <= k < j ==> page@[k] == file_bytes@[start + k],
                decreases PAGE_SIZE - j,
            {
                proof {
                    assert(start + j < (i + 1) * PAGE_SIZE <= num_pages * PAGE_SIZE);
                }
                page.push(file_bytes[start + j]);
                j = j + 1;
            }
            proof {
                assert(page@ =~= file_bytes@.subrange(i * PAGE_SIZE, (i + 1) * PAGE_SIZE));
            }
            pages.push(Some(page));
            i = i + 1;
        }
        while i < TABLE_MAX_PAGES
            invariant
                num_pages <= i <= TABLE_MAX_PAGES,
                pages@.len() == i,
                forall|k: int| 0 <= k < pages@.len() ==> ((#[trigger] pages@[k]) is Some <==> k < num_pages),
                forall|k: int|
                    0 <= k < num_pages ==> (#[trigger] pages@[k]).unwrap()@ == file_bytes@.subrange(
                        k * PAGE_SIZE,
                        (k + 1) * PAGE_SIZE,
                    ),
            decreases TABLE_MAX_PAGES - i,
        {
            pages.push(None);
            i = i + 1;
        }
        proof {
            assert(num_pages * PAGE_SIZE == file_bytes@.len());
            assert(forall|k: int|
                0 <= k < num_pages ==> (#[trigger] pages@[k]).unwrap()@.len() == PAGE_SIZE);
        }
        Ok(Pager { pages, num_pages })
    }

    /// A copy of a resident page, or — for the page one past the end — a
    /// fresh zero-filled page that becomes resident.
    pub fn get_page(&mut self, page_num: usize) -> (r: Vec<u8>)
        requires
            old(self).wf(),
            page_num <= old(self).num_pages,
            page_num < TABLE_MAX_PAGES,
        ensures
            final(self).wf(),
            r@.len() == PAGE_SIZE,
            r@ == final(self).page_at(page_num as int),
            page_num < old(self).num_pages ==> *final(self) == *old(self) && r@ == old(
                self,
            ).page_at(page_num as int),
            page_num == old(self).num_pages ==> {
                &&& final(self).num_pages == old(self).num_pages + 1
                &&& (forall|j: int| 0 <= j < PAGE_SIZE ==> r@[j] == 0u8)
                &&& (forall|i: int|
                    0 <= i < old(self).num_pages ==> final(self).page_at(i) == old(
                        self,
                    ).page_at(i))
            },
    {
        if page_num == self.num_pages {
            self.pages.set(page_num, Some(zero_page()));
            self.num_pages = self.num_pages + 1;
        }
        let r = match &self.pages[page_num] {
            Some(p) => clone_page(p),
            None => zero_page(),  // unreachable: the slot is resident
        };
        r
    }

    /// Stores a page image, either over a resident page or as the next new
    /// page.
    pub fn write_page(&mut self, page_num: usize, page: Vec<u8>)
        requires
            old(self).wf(),
            page@.len() == PAGE_SIZE,
            page_num <= old(self).num_pages,
            page_num < TABLE_MAX_PAGES,
        ensures
            final(self).wf(),
            final(self).num_pages == if page_num == old(self).num_pages {
                old(self).num_pages + 1
            } else {
                old(self).num_pages as int
            },
            final(self).page_at(page_num as int) == page@,
            forall|i: int|
                0 <= i < old(self).num_pages && i != page_num ==> final(self).page_at(i) == old(
                    self,
                ).page_at(i),
    {
        if page_num == self.num_pages {
            self.num_pages = self.num_pages + 1;
        }
        self.pages.set(page_num, Some(page));
    }

    /// The page number the next allocation will use.
    pub fn get_unused_page_num(&self) -> (r: u32)
        requires
            self.wf(),
        ensures
            r == self.num_pages,
    {
        self.num_pages as u32
    }

    /// Allocates the next page and initializes it as an empty leaf.
    pub fn new_leaf_node(&mut self) -> (r: u32)
        requires
            old(self).wf(),
            old(self).num_pages < TABLE_MAX_PAGES,
        ensures
            final(self).wf(),
            r == old(self).num_pages,
            final(self).num_pages == old(self).num_pages + 1,
            spec_node_type(final(self).page_at(r as int)) == NODE_TYPE_LEAF,
            !spec_is_root(final(self).page_at(r as int)),
            spec_leaf_num_cells(final(self).page_at(r as int)) == 0,
            forall|i: int|
                0 <= i < old(self).num_pages ==> final(self).page_at(i) == old(self).page_at(i),
    {
        let new_page_num = self.num_pages;
        let mut node = zero_page();
        initialize_leaf_node(&mut node);
        self.write_page(new_page_num, node);
        new_page_num as u32
    }

    /// A copy of the page if it is resident, `None` otherwise.
    pub fn get_immutable_page(&self, page_num: usize) -> (r: Option<Vec<u8>>)
        requires
            self.wf(),
            page_num < TABLE_MAX_PAGES,
        ensures
            r is Some <==> page_num < self.num_pages,
            r matches Some(p) ==> p@ == self.page_at(page_num as int),
    {
        match &self.pages[page_num] {
            Some(p) => Some(clone_page(p)),
            None => None,
        }
    }

    /// The image of a resident page, for the caller to write back to the
    /// file at `page_num * PAGE_SIZE`.
    pub fn flush_page(&self, page_num: usize) -> (r: Vec<u8>)
        requires
            self.wf(),
            page_num < self.num_pages,
        ensures
            r@ == self.page_at(page_num as int),
    {
        match &self.pages[page_num] {
            Some(p) => clone_page(p),
            None => zero_page(),  // unreachable: the page is resident
        }
    }
}

/// A byte-for-byte copy of a page buffer.
fn clone_page(p: &Vec<u8>) -> (r: Vec<u8>)
    ensures
        r@ == p@,
{
    let n: usize = p.len();
    let mut r: Vec<u8> = Vec::new();
    let mut i: usize = 0;
    while i < n
        invariant
            n == p@.len(),
            i <= n,
            r@.len() == i,
            forall|j: int| 0 <= j < i ==> r@[j] == p@[j],
        decreases n - i,
    {
        r.push(p[i]);
        i = i + 1;
    }
    proof {
        assert(r@ =~= p@);
    }
    r
}

} // verus!
