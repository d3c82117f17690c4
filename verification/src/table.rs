//! A table: a name, a schema, and one B+tree of rows served by a pager.

use crate::cell::CellModel;
use crate::columns::Columns;
use crate::cursor::DBCursor;
use crate::page::PageError;
use crate::pager::{Pager, PagerError};
use crate::row::{spec_row_bytes, spec_row_encodable, Row};
use crate::INVALID_PAGE_NUM;
use vstd::prelude::*;

verus! {

/// Errors surfaced by table operations.
#[derive(Debug, PartialEq)]
pub enum TableError {
    /// Every page number is in use; the row cannot be stored.
    TableFull,
    /// The pager failed while inserting.
    RowInsertError(PagerError),
    /// The row could not be serialized into a cell payload.
    RowSerializeError,
    /// The pager failed while flushing to the backing image.
    FlushError(PagerError),
    /// A page operation failed.
    PageError(PageError),
}

/// A named tree of rows with its schema.
#[derive(Debug)]
pub struct Table {
    /// The table's name.
    pub name: String,
    /// The table's column schema.
    pub columns: Columns,
    /// The pager serving this table's tree.
    pub pager: Pager,
    /// Page number of the tree's root.
    pub root_page_num: u32,
}

impl Table {
    /// The pager is well formed and serves this table's root.
    pub open spec fn inv(self) -> bool {
        &&& self.pager.inv()
        &&& self.root_page_num == self.pager.root_page_num
    }

    /// A fresh table: an empty leaf at root page zero over a blank image.
    pub fn new(name: &str, columns: Columns) -> (r: Table)
        ensures
            r.inv(),
            r.name@ == name@,
            r.columns == columns,
            r.root_page_num == 0,
            r.pager.spec_scan() =~= Seq::<crate::cell::CellModel>::empty(),
            r.pager.num_pages == 1,
            r.pager.pages_cache@[0] matches Some(p) && p@.len() == 0 && p.page_type
                == crate::page::PageType::Leaf && p.cells_start == crate::PAGE_SIZE
                && p.right_pointer == crate::INVALID_PAGE_NUM,
            forall|i: int|
                1 <= i < crate::TABLE_MAX_PAGES ==> (#[trigger] r.pager.pages_cache@[i]) is None,
            r.pager.spec_tree_ordered(),
    {
        let root_page_num: u32 = 0;
        let pager = Pager::new(root_page_num);
        Table { name: name.to_owned(), columns, pager, root_page_num }
    }

    /// A table over an existing block image, as left by an earlier run.
    pub fn from_image(name: &str, columns: Columns, disk: Vec<Vec<u8>>, num_pages: u32) -> (r:
        Result<Table, TableError>)
        ensures
            r is Ok <==> disk@.len() == crate::TABLE_MAX_PAGES && (forall|i: int|
                0 <= i < crate::TABLE_MAX_PAGES ==> (#[trigger] disk@[i])@.len()
                    == crate::PAGE_SIZE) && 0 < num_pages <= crate::TABLE_MAX_PAGES,
            r matches Ok(t) ==> {
                &&& t.inv()
                &&& t.name@ == name@
                &&& t.root_page_num == 0
                &&& t.pager.num_pages == num_pages
                &&& forall|i: int| 0 <= i < num_pages ==> t.pager.disk@[i] == disk@[i]
            },
    {
        let pager = match Pager::from_disk(disk, num_pages, 0) {
            Ok(p) => p,
            Err(e) => {
                return Err(TableError::RowInsertError(e));
            },
        };
        Ok(Table { name: name.to_owned(), columns, pager, root_page_num: 0 })
    }

    /// Insert a row: serialize it, descend to the leaf its key belongs to,
    /// and store it there, splitting pages as needed. A key already present
    /// or a full tree is reported without storing anything.
    pub fn insert(&mut self, row: Row) -> (r: Result<(), TableError>)
        requires
            old(self).inv(),
        ensures
            final(self).inv(),
            final(self).name == old(self).name,
            final(self).columns == old(self).columns,
            final(self).root_page_num == old(self).root_page_num,
            r is Ok ==> final(self).pager.spec_records() == old(self).pager.spec_records().insert(
                (CellModel {
                    key: row.rowid,
                    payload: spec_row_bytes(row.rowid, row.attributes@),
                    left_child: INVALID_PAGE_NUM,
                }),
            ),
            r is Err ==> final(self).pager.spec_records() == old(self).pager.spec_records(),
            r == Err::<(), TableError>(TableError::RowSerializeError) <==> !spec_row_encodable(
                row.rowid,
                row.attributes@,
            ),
            old(self).pager.spec_synced() ==> final(self).pager.spec_synced(),
            old(self).pager.pages_cache@[old(self).root_page_num as int] matches Some(p) ==> (
            p.page_type == crate::page::PageType::Leaf && spec_row_encodable(
                row.rowid,
                row.attributes@,
            ) ==> {
                &&& (p.spec_keys().contains(row.rowid) ==> r == Err::<(), TableError>(
                    TableError::RowInsertError(
                        PagerError::PageRowInsertError(PageError::DuplicateKey(row.rowid)),
                    ),
                ) && final(self).pager == old(self).pager)
                &&& (!p.spec_keys().contains(row.rowid) ==> (r is Ok
                    && final(self).pager.num_pages == old(self).pager.num_pages + 2
                    ==> final(self).pager.spec_tree_ordered()))
                &&& (!p.spec_keys().contains(row.rowid) && !p.spec_has_room(
                    spec_row_bytes(row.rowid, row.attributes@).len() as int,
                ) && old(self).pager.num_pages == crate::TABLE_MAX_PAGES ==> r == Err::<
                    (),
                    TableError,
                >(TableError::TableFull) && final(self).pager == old(self).pager)
                &&& (!p.spec_keys().contains(row.rowid) && p.spec_has_room(
                    spec_row_bytes(row.rowid, row.attributes@).len() as int,
                ) ==> {
                    &&& r is Ok
                    &&& final(self).pager.num_pages == old(self).pager.num_pages
                    &&& (final(self).pager.pages_cache@[old(self).root_page_num as int]
                        matches Some(q) && q.inv() && q@ == p@.insert(
                        crate::page::spec_partition(p.spec_keys(), row.rowid),
                        (CellModel {
                            key: row.rowid,
                            payload: spec_row_bytes(row.rowid, row.attributes@),
                            left_child: INVALID_PAGE_NUM,
                        }),
                    ) && q.page_type == p.page_type
                        && final(self).pager.disk@[old(self).root_page_num as int]@ == q.data@)
                    &&& forall|i: int|
                        0 <= i < crate::TABLE_MAX_PAGES && i != old(self).root_page_num
                            ==> final(self).pager.pages_cache@[i] == old(self).pager.pages_cache@[i]
                            && final(self).pager.disk@[i] == old(self).pager.disk@[i]
                    &&& final(self).pager.spec_tree_ordered()
                })
            }),
    {
        let row_id = row.rowid();
        let data = match row.serialize() {
            Ok(d) => d,
            Err(()) => {
                return Err(TableError::RowSerializeError);
            },
        };
        let cursor = DBCursor::new(self.root_page_num);
        let mut cursor = match self.pager.get_leaf_insertion_position(cursor, row_id) {
            Ok(c) => c,
            Err(e) => {
                return Err(TableError::RowInsertError(e));
            },
        };
        match self.pager.insert(&mut cursor, row_id, data.as_slice(), None) {
            Ok(()) => {
                proof {
                    // A root that is still a cached leaf is an ordered
                    // one-level tree on its own.
                    let root = self.pager.root_page_num as int;
                    if self.pager.pages_cache@[root] matches Some(q) && q.page_type
                        == crate::page::PageType::Leaf {
                        assert(self.pager.spec_tree_ordered());
                    }
                }
                Ok(())
            },
            Err(PagerError::TableFull) => Err(TableError::TableFull),
            Err(other_err) => Err(TableError::RowInsertError(other_err)),
        }
    }

    /// All rows of the table, reading leaf pages in page-number order: the
    /// returned rows decode exactly the record payloads the tree holds.
    #[verifier::loop_isolation(false)]
    pub fn deserialize_rows(&mut self) -> (r: Result<Vec<Row>, TableError>)
        requires
            old(self).inv(),
        ensures
            final(self).inv(),
            final(self).name == old(self).name,
            final(self).columns == old(self).columns,
            final(self).root_page_num == old(self).root_page_num,
            final(self).pager.spec_scan() == old(self).pager.spec_scan(),
            r is Ok <==> (forall|i: int|
                0 <= i < old(self).pager.num_pages ==> old(self).pager.spec_slot_available(i))
                && (forall|i: int|
                0 <= i < old(self).pager.spec_scan().len() ==> crate::row::spec_is_row_encoding(
                    (#[trigger] old(self).pager.spec_scan()[i]).payload,
                )),
            r matches Ok(v) ==> {
                &&& v@.len() == old(self).pager.spec_scan().len()
                &&& forall|i: int|
                    0 <= i < v@.len() ==> spec_row_bytes(
                        (#[trigger] v@[i]).rowid,
                        v@[i].attributes@,
                    ) == old(self).pager.spec_scan()[i].payload
            },
    {
        let cells = match self.pager.leaf_cells() {
            Ok(c) => c,
            Err(e) => {
                return Err(TableError::RowInsertError(e));
            },
        };
        let mut rows: Vec<Row> = Vec::new();
        let n = cells.len();
        let mut i: usize = 0;
        while i < n
            invariant
                i <= n,
                n == cells@.len(),
                cells@.len() == old(self).pager.spec_scan().len(),
                forall|j: int|
                    0 <= j < n ==> (#[trigger] cells@[j])@ == old(self).pager.spec_scan()[j]
                        && cells@[j].wf(),
                rows@.len() == i,
                forall|j: int|
                    0 <= j < i ==> spec_row_bytes((#[trigger] rows@[j]).rowid, rows@[j].attributes@)
                        == old(self).pager.spec_scan()[j].payload,
                forall|j: int|
                    0 <= j < i ==> crate::row::spec_is_row_encoding(
                        (#[trigger] old(self).pager.spec_scan()[j]).payload,
                    ),
            decreases n - i,
        {
            let cell = &cells[i];
            match Row::deserialize(cell.payload.as_slice()) {
                Ok(row) => {
                    rows.push(row);
                },
                Err(()) => {
                    proof {
                        assert(!crate::row::spec_is_row_encoding(
                            old(self).pager.spec_scan()[i as int].payload,
                        ));
                    }
                    return Err(TableError::PageError(PageError::CorruptData));
                },
            }
            i += 1;
        }
        Ok(rows)
    }

    /// Write every cached page through to the backing image, which then
    /// reflects the whole tree.
    pub fn flush(&mut self) -> (r: Result<(), TableError>)
        requires
            old(self).inv(),
        ensures
            final(self).inv(),
            r is Ok,
            final(self).name == old(self).name,
            final(self).columns == old(self).columns,
            final(self).root_page_num == old(self).root_page_num,
            final(self).pager.spec_synced(),
            final(self).pager.spec_scan() == old(self).pager.spec_scan(),
            final(self).pager.num_pages == old(self).pager.num_pages,
    {
        let res = self.pager.flush_all();
        proof {
            assert(res is Ok);
        }
        match res {
            Ok(()) => Ok(()),
            Err(e) => Err(TableError::FlushError(e)),
        }
    }
}

/// Durability law at the table level: after every cached page has been
/// written through (as `flush` leaves it), a table opened cold over the
/// same block image and page count scans exactly the same records, in the
/// same order.
pub proof fn lemma_flushed_table_reopens_equal(t1: Table, t2: Table)
    requires
        t1.inv(),
        t1.pager.spec_synced(),
        t2.pager.num_pages == t1.pager.num_pages,
        t2.pager.disk@.len() == crate::TABLE_MAX_PAGES,
        forall|i: int| 0 <= i < t1.pager.num_pages ==> t2.pager.disk@[i] == t1.pager.disk@[i],
        t2.pager.pages_cache@.len() == crate::TABLE_MAX_PAGES,
        forall|i: int|
            0 <= i < crate::TABLE_MAX_PAGES ==> (#[trigger] t2.pager.pages_cache@[i]) is None,
    ensures
        t2.pager.spec_scan() == t1.pager.spec_scan(),
{
    crate::pager::lemma_reopen_preserves_scan(t1.pager, t2.pager);
}

} // verus!
