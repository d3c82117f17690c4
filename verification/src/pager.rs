//! The pager: a bounded array of page slots indexed by page number, backed
//! by a block image of the database file. Reads pull missing pages from the
//! block image; writes go through to it. The pager performs B+tree descent
//! and split propagation; the caller persists the block image to disk.

use crate::cell::{spec_child_or_invalid, CellModel};
use crate::cursor::DBCursor;
use crate::page::{spec_page_cells, spec_page_wf, Page, PageError, PageType};
use crate::{PAGE_SIZE, TABLE_MAX_PAGES};
use vstd::prelude::*;

verus! {

use vstd::multiset::Multiset;

/// Errors surfaced by pager operations.
#[derive(Clone, Copy, Debug, PartialEq, Eq, Structural)]
pub enum PagerError {
    /// A page number does not index a slot.
    PageIdxOutOfRange,
    /// A page operation failed; the underlying error is carried along.
    PageRowInsertError(PageError),
    /// The page number names a page that was never allocated.
    PageNonExistent,
    /// A non-root split found no parent on the cursor's stack.
    ParentStackEmpty,
    /// Every page number is in use; the tree cannot grow.
    TableFull,
}

/// The keys of a sequence of cells, in order.
pub open spec fn spec_cell_keys(cells: Seq<CellModel>) -> Seq<u64> {
    Seq::new(cells.len(), |i: int| cells[i].key)
}

/// A key lies in the half-open routing window `(lo, hi]`; an absent bound
/// is unbounded on that side.
pub open spec fn spec_key_in_window(k: u64, lo: Option<u64>, hi: Option<u64>) -> bool {
    &&& (lo matches Some(l) ==> k > l)
    &&& (hi matches Some(h) ==> k <= h)
}

/// The page cache and its backing block image.
#[derive(Debug)]
pub struct Pager {
    /// Highest allocated page number plus one.
    pub num_pages: u32,
    /// One optional in-memory page per page number.
    pub pages_cache: Vec<Option<Page>>,
    /// Page number of the tree's root.
    pub root_page_num: u32,
    /// The backing image: one block of `PAGE_SIZE` bytes per page number.
    pub disk: Vec<Vec<u8>>,
}

impl Pager {
    /// Slot and block counts are full-sized, every cached page is well
    /// formed, and the root is an allocated page.
    pub open spec fn inv(self) -> bool {
        &&& self.pages_cache@.len() == TABLE_MAX_PAGES
        &&& self.disk@.len() == TABLE_MAX_PAGES
        &&& forall|i: int|
            0 <= i < TABLE_MAX_PAGES ==> (#[trigger] self.disk@[i])@.len() == PAGE_SIZE
        &&& forall|i: int|
            0 <= i < TABLE_MAX_PAGES ==> ((#[trigger] self.pages_cache@[i]) matches Some(p)
                ==> p.inv())
        &&& self.root_page_num < self.num_pages
        &&& self.num_pages <= TABLE_MAX_PAGES
        &&& forall|i: int|
            self.num_pages <= i < TABLE_MAX_PAGES ==> (#[trigger] self.pages_cache@[i]) is None
                && !spec_page_wf(self.disk@[i]@)
    }

    /// The cells of the page at slot `i`: the cached page's cells, else the
    /// cells parsed from the backing block, else nothing.
    pub open spec fn spec_slot_cells(self, i: int) -> Seq<CellModel> {
        match self.pages_cache@[i] {
            Some(p) => p@,
            None => if spec_page_wf(self.disk@[i]@) {
                spec_page_cells(self.disk@[i]@)
            } else {
                Seq::<CellModel>::empty()
            },
        }
    }

    /// Whether the page at slot `i` is a leaf.
    pub open spec fn spec_slot_is_leaf(self, i: int) -> bool {
        match self.pages_cache@[i] {
            Some(p) => p.page_type == PageType::Leaf,
            None => spec_page_wf(self.disk@[i]@) && self.disk@[i]@[0] == 0x0d,
        }
    }

    /// The leaf cells of the first `k` slots, in slot order: what a full
    /// scan of the table reads.
    pub open spec fn spec_scan_to(self, k: int) -> Seq<CellModel>
        decreases k,
    {
        if k <= 0 {
            Seq::<CellModel>::empty()
        } else {
            self.spec_scan_to(k - 1) + if k - 1 < self.num_pages && self.spec_slot_is_leaf(k - 1) {
                self.spec_slot_cells(k - 1)
            } else {
                Seq::<CellModel>::empty()
            }
        }
    }

    /// Every leaf record in the tree, in slot order.
    pub open spec fn spec_scan(self) -> Seq<CellModel> {
        self.spec_scan_to(TABLE_MAX_PAGES as int)
    }

    /// What one slot contributes to a scan: its cells if it is an
    /// allocated leaf, nothing otherwise.
    pub open spec fn spec_slot_contrib(self, i: int) -> Seq<CellModel> {
        if 0 <= i < self.num_pages && self.spec_slot_is_leaf(i) {
            self.spec_slot_cells(i)
        } else {
            Seq::<CellModel>::empty()
        }
    }

    /// The records of the tree: every leaf cell a scan reads, with
    /// multiplicities but without order.
    pub open spec fn spec_records(self) -> Multiset<CellModel> {
        self.spec_scan().to_multiset()
    }

    /// The page at slot `i` can be produced: it is cached, or its backing
    /// block parses.
    pub open spec fn spec_slot_available(self, i: int) -> bool {
        self.pages_cache@[i] is Some || spec_page_wf(self.disk@[i]@)
    }

    /// The right pointer of the page at slot `i`, read from the cache or
    /// from the backing block.
    pub open spec fn spec_slot_right_pointer(self, i: int) -> u32 {
        match self.pages_cache@[i] {
            Some(p) => p.right_pointer,
            None => crate::page::spec_parsed_right_pointer(self.disk@[i]@),
        }
    }

    /// The routing-order invariant over the subtree rooted at page `pn`,
    /// explored to at most `height` further levels: every key lies in the
    /// window `(lo, hi]`; on an interior page each cell routes a subtree of
    /// keys at most its own key and above the previous cell's key, the
    /// right pointer routes the keys above every cell key, and routing
    /// cells carry no payload.
    pub open spec fn spec_subtree_ordered(
        self,
        pn: int,
        lo: Option<u64>,
        hi: Option<u64>,
        height: nat,
    ) -> bool
        decreases height,
    {
        let cells = self.spec_slot_cells(pn);
        &&& 0 <= pn < self.num_pages
        &&& self.spec_slot_available(pn)
        &&& (forall|i: int|
            0 <= i < cells.len() ==> spec_key_in_window((#[trigger] cells[i]).key, lo, hi))
        &&& (!self.spec_slot_is_leaf(pn) ==> {
            &&& height > 0
            &&& (forall|i: int| 0 <= i < cells.len() ==> (#[trigger] cells[i]).payload.len() == 0)
            &&& (forall|i: int|
                0 <= i < cells.len() ==> self.spec_subtree_ordered(
                    (#[trigger] cells[i]).left_child as int,
                    if i == 0 {
                        lo
                    } else {
                        Some(cells[i - 1].key)
                    },
                    Some(cells[i].key),
                    (height - 1) as nat,
                ))
            &&& self.spec_subtree_ordered(
                self.spec_slot_right_pointer(pn) as int,
                if cells.len() == 0 {
                    lo
                } else {
                    Some(cells[cells.len() - 1].key)
                },
                hi,
                (height - 1) as nat,
            )
        })
    }

    /// The whole tree below the root is routing-ordered: the invariant of
    /// the tree that inserts are meant to keep.
    pub open spec fn spec_tree_ordered(self) -> bool {
        self.spec_subtree_ordered(
            self.root_page_num as int,
            None,
            None,
            (TABLE_MAX_PAGES - 1) as nat,
        )
    }

    /// Every cached page has been written through to the backing image.
    pub open spec fn spec_synced(self) -> bool {
        forall|i: int|
            0 <= i < TABLE_MAX_PAGES ==> ((#[trigger] self.pages_cache@[i]) matches Some(p)
                ==> self.disk@[i]@ == p.data@)
    }

    /// A fresh pager over an all-zero image: one empty leaf at the root.
    pub fn new(root_page_num: u32) -> (r: Pager)
        requires
            root_page_num < TABLE_MAX_PAGES,
        ensures
            r.inv(),
            r.root_page_num == root_page_num,
            r.num_pages == root_page_num + 1,
            r.spec_scan() =~= Seq::<CellModel>::empty(),
            r.pages_cache@[root_page_num as int] matches Some(p) && p@.len() == 0 && p.page_type
                == PageType::Leaf && p.cells_start == PAGE_SIZE && p.right_pointer
                == crate::INVALID_PAGE_NUM,
            forall|i: int|
                0 <= i < TABLE_MAX_PAGES && i != root_page_num ==> (
                #[trigger] r.pages_cache@[i]) is None,
            forall|i: int|
                0 <= i < TABLE_MAX_PAGES ==> forall|k: int|
                    0 <= k < PAGE_SIZE ==> (#[trigger] r.disk@[i])@[k] == 0u8,
            r.spec_tree_ordered(),
    {
        let mut pages_cache: Vec<Option<Page>> = Vec::new();
        let mut disk: Vec<Vec<u8>> = Vec::new();
        let mut i: usize = 0;
        while i < TABLE_MAX_PAGES
            invariant
                i <= TABLE_MAX_PAGES,
                pages_cache@.len() == i,
                disk@.len() == i,
                forall|j: int| 0 <= j < i ==> (#[trigger] pages_cache@[j]) is None,
                forall|j: int| 0 <= j < i ==> (#[trigger] disk@[j])@.len() == PAGE_SIZE,
                forall|j: int|
                    0 <= j < i ==> forall|k: int|
                        0 <= k < PAGE_SIZE ==> (#[trigger] disk@[j])@[k] == 0u8,
            decreases TABLE_MAX_PAGES - i,
        {
            pages_cache.push(None);
            disk.push(vec![0u8; PAGE_SIZE]);
            i += 1;
        }
        let root = Page::new(PageType::Leaf);
        pages_cache.set(root_page_num as usize, Some(root));
        let pager = Pager { num_pages: root_page_num + 1, pages_cache, root_page_num, disk };
        proof {
            assert forall|j: int|
                0 <= j < TABLE_MAX_PAGES && pager.pages_cache@[j] is None implies !spec_page_wf(
                (#[trigger] pager.disk@[j])@,
            ) by {
                assert((pager.disk@[j])@[0] == 0u8);
            }
            lemma_scan_empty_slots(pager, TABLE_MAX_PAGES as int);
            // A single empty leaf is trivially a routing-ordered tree.
            assert(pager.spec_slot_cells(root_page_num as int) =~= Seq::<CellModel>::empty());
            assert(pager.spec_subtree_ordered(
                root_page_num as int,
                None,
                None,
                TABLE_MAX_PAGES as nat,
            ));
        }
        pager
    }

    /// A pager over an existing block image holding `num_pages` pages; the
    /// cache starts cold and pages are read from the image on demand.
    #[verifier::loop_isolation(false)]
    pub fn from_disk(disk: Vec<Vec<u8>>, num_pages: u32, root_page_num: u32) -> (r: Result<
        Pager,
        PagerError,
    >)
        ensures
            r is Ok <==> disk@.len() == TABLE_MAX_PAGES && (forall|i: int|
                0 <= i < TABLE_MAX_PAGES ==> (#[trigger] disk@[i])@.len() == PAGE_SIZE)
                && root_page_num < num_pages <= TABLE_MAX_PAGES,
            r matches Ok(p) ==> {
                &&& p.inv()
                &&& p.num_pages == num_pages
                &&& p.root_page_num == root_page_num
                &&& forall|i: int| 0 <= i < num_pages ==> p.disk@[i] == disk@[i]
                &&& forall|i: int| 0 <= i < TABLE_MAX_PAGES ==> (#[trigger] p.pages_cache@[i]) is None
            },
    {
        if !(root_page_num < num_pages && num_pages as usize <= TABLE_MAX_PAGES) {
            return Err(PagerError::PageIdxOutOfRange);
        }
        if disk.len() != TABLE_MAX_PAGES {
            return Err(PagerError::PageIdxOutOfRange);
        }
        let mut i: usize = 0;
        while i < TABLE_MAX_PAGES
            invariant
                i <= TABLE_MAX_PAGES,
                disk@.len() == TABLE_MAX_PAGES,
                forall|j: int| 0 <= j < i ==> (#[trigger] disk@[j])@.len() == PAGE_SIZE,
            decreases TABLE_MAX_PAGES - i,
        {
            if disk[i].len() != PAGE_SIZE {
                return Err(PagerError::PageIdxOutOfRange);
            }
            i += 1;
        }
        // Blocks past the allocated count are blank: they are not pages.
        let ghost disk0 = disk@;
        let mut disk = disk;
        let mut i: usize = num_pages as usize;
        while i < TABLE_MAX_PAGES
            invariant
                num_pages <= i <= TABLE_MAX_PAGES,
                disk@.len() == TABLE_MAX_PAGES,
                forall|j: int| 0 <= j < TABLE_MAX_PAGES ==> (#[trigger] disk@[j])@.len() == PAGE_SIZE,
                forall|j: int|
                    num_pages <= j < i ==> !spec_page_wf((#[trigger] disk@[j])@),
                forall|j: int| 0 <= j < num_pages ==> #[trigger] disk@[j] == disk0[j],
            decreases TABLE_MAX_PAGES - i,
        {
            let blank = vec![0u8; PAGE_SIZE];
            proof {
                assert(blank@[0] == 0u8);
                assert(!spec_page_wf(blank@));
            }
            disk.set(i, blank);
            i += 1;
        }
        let mut pages_cache: Vec<Option<Page>> = Vec::new();
        let mut i: usize = 0;
        while i < TABLE_MAX_PAGES
            invariant
                i <= TABLE_MAX_PAGES,
                pages_cache@.len() == i,
                forall|j: int| 0 <= j < i ==> (#[trigger] pages_cache@[j]) is None,
            decreases TABLE_MAX_PAGES - i,
        {
            pages_cache.push(None);
            i += 1;
        }
        Ok(Pager { num_pages, pages_cache, root_page_num, disk })
    }

    /// Load the page into its cache slot from the backing image if it is
    /// not already there. What every slot holds, as seen through
    /// `spec_slot_cells`, does not change.
    fn ensure_cached(&mut self, page_num: u32) -> (r: Result<(), PagerError>)
        requires
            old(self).inv(),
        ensures
            final(self).inv(),
            final(self).num_pages == old(self).num_pages,
            final(self).root_page_num == old(self).root_page_num,
            final(self).disk@ == old(self).disk@,
            page_num >= old(self).num_pages ==> r == Err::<(), PagerError>(
                PagerError::PageNonExistent,
            ) && *final(self) == *old(self),
            page_num < old(self).num_pages ==> (r is Ok <==> old(self).spec_slot_available(
                page_num as int,
            )),
            r is Err ==> *final(self) == *old(self),
            old(self).pages_cache@[page_num as int] is Some ==> *final(self) == *old(self),
            forall|i: int|
                0 <= i < TABLE_MAX_PAGES && i != page_num ==> final(self).pages_cache@[i] == old(
                    self,
                ).pages_cache@[i],
            r is Ok && page_num < old(self).num_pages ==> (final(self).pages_cache@[page_num as int] matches Some(p) && p.inv()),
            forall|i: int|
                0 <= i < TABLE_MAX_PAGES ==> final(self).spec_slot_cells(i) == old(self).spec_slot_cells(i) && final(self).spec_slot_is_leaf(i) == old(self).spec_slot_is_leaf(i),
            forall|i: int|
                0 <= i < TABLE_MAX_PAGES ==> final(self).spec_slot_contrib(i) == old(self).spec_slot_contrib(i),
            forall|i: int|
                0 <= i < TABLE_MAX_PAGES ==> final(self).spec_slot_right_pointer(i) == old(self).spec_slot_right_pointer(i)
                    && (final(self).spec_slot_available(i) <==> old(self).spec_slot_available(i)),
            final(self).spec_records() == old(self).spec_records(),
            old(self).spec_synced() ==> final(self).spec_synced(),
    {
        if page_num >= self.num_pages {
            return Err(PagerError::PageNonExistent);
        }
        let idx = page_num as usize;
        let cached = self.pages_cache[idx].is_some();
        if cached {
            return Ok(());
        }
        let block = &self.disk[idx];
        match Page::new_from_read(block.as_slice()) {
            Ok(page) => {
                self.pages_cache.set(idx, Some(page));
                proof {
                    assert(final(self).spec_slot_cells(page_num as int) == old(self).spec_slot_cells(page_num as int)) by {
                        assert(spec_page_cells(self.disk@[page_num as int]@) == self.pages_cache@[
                            page_num as int]->Some_0@) by {
                            self.pages_cache@[page_num as int]->Some_0.lemma_view_is_page_cells();
                        }
                    }
                }
                proof {
                    lemma_scan_to_congruence_contrib(*old(self), *self, TABLE_MAX_PAGES as int);
                }
                Ok(())
            },
            Err(e) => Err(PagerError::PageRowInsertError(e)),
        }
    }

    /// Walk from the cursor's page down to the leaf where `key` belongs,
    /// recording visited interior pages on the cursor's parent stack and the
    /// in-leaf partition index in the cursor. Fails with `DuplicateKey` when
    /// the leaf already holds `key`.
    #[verifier::loop_isolation(false)]
    #[verifier::rlimit(60)]
    pub fn get_leaf_insertion_position(&mut self, cursor: DBCursor, key: u64) -> (r: Result<
        DBCursor,
        PagerError,
    >)
        requires
            old(self).inv(),
        ensures
            final(self).inv(),
            final(self).num_pages == old(self).num_pages,
            final(self).root_page_num == old(self).root_page_num,
            final(self).disk@ == old(self).disk@,
            forall|i: int|
                0 <= i < TABLE_MAX_PAGES ==> final(self).spec_slot_cells(i) == old(self).spec_slot_cells(i) && final(self).spec_slot_is_leaf(i) == old(self).spec_slot_is_leaf(i),
            final(self).spec_records() == old(self).spec_records(),
            old(self).spec_synced() ==> final(self).spec_synced(),
            r matches Ok(c) ==> {
                &&& c.page_num < final(self).num_pages
                &&& final(self).spec_slot_is_leaf(c.page_num as int)
                &&& !spec_cell_keys(final(self).spec_slot_cells(c.page_num as int)).contains(key)
            },
            old(self).spec_tree_ordered() && cursor.page_num == old(self).root_page_num ==> (r
                is Ok || r == Err::<DBCursor, PagerError>(
                PagerError::PageRowInsertError(PageError::DuplicateKey(key)),
            )),
            old(self).spec_tree_ordered() && cursor.page_num == old(self).root_page_num ==> (r
                matches Ok(c) ==> exists|l: Option<u64>, h: Option<u64>|
                spec_key_in_window(key, l, h) && final(self).spec_subtree_ordered(
                    c.page_num as int,
                    l,
                    h,
                    0,
                )),
            r matches Ok(c) ==> {
                &&& c.parents_stack@.len() >= cursor.parents_stack@.len()
                &&& c.parents_stack@.subrange(0, cursor.parents_stack@.len() as int)
                    == cursor.parents_stack@
                &&& forall|j: int|
                    cursor.parents_stack@.len() <= j < c.parents_stack@.len() ==> (
                    #[trigger] c.parents_stack@[j]) < final(self).num_pages
                        && !final(self).spec_slot_is_leaf(c.parents_stack@[j] as int)
                        && final(self).spec_slot_available(c.parents_stack@[j] as int)
            },
            cursor.page_num < TABLE_MAX_PAGES ==> (old(self).pages_cache@[cursor.page_num as int]
                matches Some(p) ==> (p.page_type == PageType::Leaf ==> {
                &&& *final(self) == *old(self)
                &&& (p.spec_keys().contains(key) ==> r == Err::<DBCursor, PagerError>(
                    PagerError::PageRowInsertError(PageError::DuplicateKey(key)),
                ))
                &&& (!p.spec_keys().contains(key) ==> (r matches Ok(c) && c.page_num
                    == cursor.page_num && c.cell_ptr_pos == crate::page::spec_partition(
                    p.spec_keys(),
                    key,
                ) && c.parents_stack@ == cursor.parents_stack@))
            })),
    {
        let ghost cursor0 = cursor;
        let ghost mut lo: Option<u64> = None;
        let ghost mut hi: Option<u64> = None;
        let mut cursor = cursor;
        let mut steps: usize = 0;
        loop
            invariant
                self.inv(),
                self.num_pages == old(self).num_pages,
                self.root_page_num == old(self).root_page_num,
                self.disk@ == old(self).disk@,
                steps <= TABLE_MAX_PAGES,
                cursor.parents_stack@.len() >= cursor0.parents_stack@.len(),
                cursor.parents_stack@.subrange(0, cursor0.parents_stack@.len() as int)
                    == cursor0.parents_stack@,
                forall|j: int|
                    cursor0.parents_stack@.len() <= j < cursor.parents_stack@.len() ==> (
                    #[trigger] cursor.parents_stack@[j]) < self.num_pages
                        && !self.spec_slot_is_leaf(cursor.parents_stack@[j] as int)
                        && self.spec_slot_available(cursor.parents_stack@[j] as int),
                cursor0.page_num < TABLE_MAX_PAGES ==> (old(self).pages_cache@[cursor0.page_num as int]
                    matches Some(p) ==> (p.page_type == PageType::Leaf ==> steps == 0
                    && cursor.page_num == cursor0.page_num && cursor.parents_stack@
                    == cursor0.parents_stack@ && *self == *old(self))),
                old(self).spec_tree_ordered() && cursor0.page_num == old(self).root_page_num ==> {
                    &&& spec_key_in_window(key, lo, hi)
                    &&& steps <= TABLE_MAX_PAGES - 1
                    &&& self.spec_subtree_ordered(
                        cursor.page_num as int,
                        lo,
                        hi,
                        (TABLE_MAX_PAGES - 1 - steps) as nat,
                    )
                },
                forall|i: int|
                    0 <= i < TABLE_MAX_PAGES ==> self.spec_slot_cells(i) == old(self).spec_slot_cells(i) && self.spec_slot_is_leaf(i) == old(self).spec_slot_is_leaf(i),
                self.spec_records() == old(self).spec_records(),
                old(self).spec_synced() ==> self.spec_synced(),
            decreases TABLE_MAX_PAGES - steps,
        {
            if steps >= TABLE_MAX_PAGES {
                proof {
                    if cursor0.page_num < TABLE_MAX_PAGES && old(self).pages_cache@[cursor0.page_num as int]
                        is Some && old(self).pages_cache@[cursor0.page_num as int]->Some_0.page_type
                        == PageType::Leaf {
                        assert(false);
                    }
                }
                // A descent longer than the page budget means a cycle among
                // the page references: the image is corrupt.
                return Err(PagerError::PageRowInsertError(PageError::CorruptData));
            }
            let ghost pre_ec = *self;
            match self.ensure_cached(cursor.page_num) {
                Ok(()) => (),
                Err(e) => {
                    proof {
                        if cursor0.page_num < TABLE_MAX_PAGES && old(self).pages_cache@[cursor0.page_num as int]
                            is Some && old(self).pages_cache@[cursor0.page_num as int]->Some_0.page_type
                            == PageType::Leaf {
                            // A cached starting page cannot fail to load.
                            if cursor.page_num >= self.num_pages {
                                assert(self.pages_cache@[cursor.page_num as int] is None);
                            }
                            assert(false);
                        }
                        if old(self).spec_tree_ordered() && cursor0.page_num == old(self).root_page_num {
                            // An ordered subtree's root is always available.
                            assert(pre_ec.spec_slot_available(cursor.page_num as int));
                            assert(false);
                        }
                    }
                    return Err(e);
                },
            }
            proof {
                if old(self).spec_tree_ordered() && cursor0.page_num == old(self).root_page_num {
                    lemma_subtree_ordered_congruence(
                        pre_ec,
                        *self,
                        cursor.page_num as int,
                        lo,
                        hi,
                        (TABLE_MAX_PAGES - 1 - steps) as nat,
                    );
                }
            }
            let idx = cursor.page_num as usize;
            let (is_leaf, next_or_partition) = match &self.pages_cache[idx] {
                Some(page) => {
                    if matches!(page.get_page_type(), PageType::Leaf) {
                        let (partition, partition_key) = match page.find_partition(key) {
                            Ok(pr) => pr,
                            Err(e) => {
                                return Err(PagerError::PageRowInsertError(e));
                            },
                        };
                        if let Some(existing) = partition_key {
                            if existing == key {
                                proof {
                                    let pg = self.pages_cache@[idx as int]->Some_0;
                                    assert(pg.spec_keys()[crate::page::spec_partition(
                                        pg.spec_keys(),
                                        key,
                                    )] == key);
                                    assert(pg.spec_keys().contains(key));
                                    if cursor0.page_num < TABLE_MAX_PAGES && old(self).pages_cache@[
                                        cursor0.page_num as int] is Some {
                                        assert(old(self).pages_cache@[cursor0.page_num as int]->Some_0.spec_keys().contains(
                                            key,
                                        ) || old(self).pages_cache@[cursor0.page_num as int]->Some_0.page_type
                                            != PageType::Leaf || steps > 0);
                                    }
                                }
                                return Err(
                                    PagerError::PageRowInsertError(PageError::DuplicateKey(key)),
                                );
                            }
                        }
                        proof {
                            let page = self.pages_cache@[idx as int]->Some_0;
                            crate::page::lemma_spec_partition(page.spec_keys(), key);
                            assert forall|j: int|
                                0 <= j < page.spec_keys().len() implies page.spec_keys()[j]
                                != key by {
                                let p = crate::page::spec_partition(page.spec_keys(), key);
                                if j > p {
                                    page.lemma_keys_sorted();
                                }
                            }
                        }
                        (true, partition)
                    } else {
                        let next = match page.get_next_page_pointer(key) {
                            Ok(n) => n,
                            Err(e) => {
                                return Err(PagerError::PageRowInsertError(e));
                            },
                        };
                        (false, next as usize)
                    }
                },
                None => {
                    proof {
                        if old(self).spec_tree_ordered() && cursor0.page_num == old(self).root_page_num {
                            assert(false);
                        }
                    }
                    return Err(PagerError::PageNonExistent);
                },
            };
            if is_leaf {
                cursor.cell_ptr_pos = next_or_partition;
                proof {
                    let cells = self.spec_slot_cells(cursor.page_num as int);
                    let page = self.pages_cache@[idx as int]->Some_0;
                    assert(cells == page@);
                    assert forall|j: int|
                        0 <= j < cells.len() implies #[trigger] spec_cell_keys(cells)[j]
                        != key by {
                        assert(page.spec_keys()[j] == cells[j].key);
                    }
                    assert(!spec_cell_keys(cells).contains(key));
                    if old(self).spec_tree_ordered() && cursor0.page_num == old(
                        self,
                    ).root_page_num {
                        // The leaf reached by the walk: its window covers the
                        // key, whatever budget is granted.
                        assert(self.spec_subtree_ordered(cursor.page_num as int, lo, hi, 0));
                        assert(exists|l: Option<u64>, h: Option<u64>|
                            spec_key_in_window(key, l, h) && self.spec_subtree_ordered(
                                cursor.page_num as int,
                                l,
                                h,
                                0,
                            ));
                    }
                }
                return Ok(cursor);
            }
            proof {
                // An interior page here means the walk did not start on a
                // cached leaf.
                if cursor0.page_num < TABLE_MAX_PAGES && old(self).pages_cache@[cursor0.page_num as int]
                    is Some && old(self).pages_cache@[cursor0.page_num as int]->Some_0.page_type
                    == PageType::Leaf {
                    assert(false);
                }
                if old(self).spec_tree_ordered() && cursor0.page_num == old(self).root_page_num {
                    // Follow the routing entry: the child's window still
                    // contains the key, one level further down.
                    let page = self.pages_cache@[idx as int]->Some_0;
                    let cells = self.spec_slot_cells(cursor.page_num as int);
                    crate::page::lemma_spec_partition(page.spec_keys(), key);
                    let pstar = crate::page::spec_partition(page.spec_keys(), key);
                    assert(!self.spec_slot_is_leaf(cursor.page_num as int));
                    assert(cells == page@);
                    if pstar == page.spec_keys().len() {
                        assert(next_or_partition == self.spec_slot_right_pointer(
                            cursor.page_num as int,
                        ));
                        if cells.len() > 0 {
                            assert(page.spec_keys()[cells.len() - 1] < key);
                            lo = Some(cells[cells.len() - 1].key);
                        }
                    } else {
                        assert(next_or_partition == cells[pstar].left_child);
                        assert(page.spec_keys()[pstar] >= key);
                        if pstar > 0 {
                            assert(page.spec_keys()[pstar - 1] < key);
                            lo = Some(cells[pstar - 1].key);
                        }
                        hi = Some(cells[pstar].key);
                    }
                    assert(spec_key_in_window(key, lo, hi));
                    assert(self.spec_subtree_ordered(
                        next_or_partition as int,
                        lo,
                        hi,
                        (TABLE_MAX_PAGES - 1 - (steps + 1)) as nat,
                    ));
                }
            }
            proof {
                // The page just routed through: cached, allocated, interior.
                if cursor.page_num >= self.num_pages {
                    assert(self.pages_cache@[cursor.page_num as int] is None);
                }
                assert(self.spec_slot_available(cursor.page_num as int));
                assert(!self.spec_slot_is_leaf(cursor.page_num as int));
                assert(cursor.parents_stack@.push(cursor.page_num).subrange(
                    0,
                    cursor0.parents_stack@.len() as int,
                ) =~= cursor0.parents_stack@);
            }
            cursor.parents_stack.push(cursor.page_num);
            cursor.page_num = next_or_partition as u32;
            steps += 1;
        }
    }

    /// Insert a record at the cursor's page. On `PageFull` the page is
    /// split, the routing entries are propagated towards the root (growing
    /// the tree at the root when the root itself split), and the insert is
    /// retried on the half that covers the key. Every page touched is
    /// written through to the backing image before returning.
    #[verifier::rlimit(100)]
    #[verifier::spinoff_prover]
    pub fn insert(
        &mut self,
        cursor: &mut DBCursor,
        key: u64,
        payload: &[u8],
        left_child: Option<u32>,
    ) -> (r: Result<(), PagerError>)
        requires
            old(self).inv(),
        ensures
            final(self).inv(),
            final(self).num_pages >= old(self).num_pages,
            final(self).root_page_num == old(self).root_page_num,
            r is Err ==> final(self).spec_records() == old(self).spec_records(),
            r is Ok && old(self).spec_slot_is_leaf(old(cursor).page_num as int) ==> final(self).spec_records()
                == old(self).spec_records().insert(
                (CellModel { key, payload: payload@, left_child: spec_child_or_invalid(left_child) }),
            ),
            r is Ok && !old(self).spec_slot_is_leaf(old(cursor).page_num as int) ==> final(self).spec_records()
                == old(self).spec_records(),
            forall|i: int|
                0 <= i < TABLE_MAX_PAGES && i != old(cursor).page_num && old(self).spec_slot_is_leaf(i)
                    ==> final(self).spec_slot_contrib(i) == old(self).spec_slot_contrib(i)
                    && final(self).spec_slot_is_leaf(i),
            forall|i: int|
                0 <= i < old(self).num_pages && i != old(cursor).page_num && !old(self).spec_slot_is_leaf(i)
                    ==> !final(self).spec_slot_is_leaf(i),
            !old(self).spec_slot_is_leaf(old(cursor).page_num as int) ==> !final(self).spec_slot_is_leaf(
                old(cursor).page_num as int,
            ),
            old(self).spec_synced() ==> final(self).spec_synced(),
            old(cursor).page_num < TABLE_MAX_PAGES ==> (old(self).pages_cache@[old(
                cursor,
            ).page_num as int] matches Some(p) && p.spec_keys().contains(key) ==> r == Err::<
                (),
                PagerError,
            >(PagerError::PageRowInsertError(PageError::DuplicateKey(key))) && *final(self)
                == *old(self)),
            old(cursor).page_num < TABLE_MAX_PAGES ==> (old(self).pages_cache@[old(
                cursor,
            ).page_num as int] matches Some(p) ==> (!p.spec_keys().contains(key)
                && p.spec_has_room(payload@.len() as int) ==> {
                &&& r is Ok
                &&& final(self).num_pages == old(self).num_pages
                &&& (final(self).pages_cache@[old(cursor).page_num as int] matches Some(q)
                    && q.inv() && q@ == p@.insert(
                    crate::page::spec_partition(p.spec_keys(), key),
                    (CellModel {
                        key,
                        payload: payload@,
                        left_child: spec_child_or_invalid(left_child),
                    }),
                ) && q.page_type == p.page_type && q.right_pointer == p.right_pointer
                    && final(self).disk@[old(cursor).page_num as int]@ == q.data@)
                &&& forall|i: int|
                    0 <= i < TABLE_MAX_PAGES && i != old(cursor).page_num ==> final(self).pages_cache@[i]
                        == old(self).pages_cache@[i] && final(self).disk@[i] == old(self).disk@[i]
                &&& *final(cursor) == *old(cursor)
            })),
            old(cursor).page_num < TABLE_MAX_PAGES ==> (old(self).pages_cache@[old(
                cursor,
            ).page_num as int] matches Some(p) ==> (!p.spec_keys().contains(key)
                && !p.spec_has_room(payload@.len() as int) && old(self).num_pages
                == TABLE_MAX_PAGES ==> r == Err::<(), PagerError>(PagerError::TableFull)
                && *final(self) == *old(self) && *final(cursor) == *old(cursor))),
            old(cursor).page_num < TABLE_MAX_PAGES ==> (old(self).pages_cache@[old(
                cursor,
            ).page_num as int] matches Some(p) ==> (!p.spec_keys().contains(key)
                && !p.spec_has_room(payload@.len() as int) && r is Ok ==> final(self).num_pages
                > old(self).num_pages)),
            old(cursor).page_num == old(self).root_page_num ==> (old(self).pages_cache@[old(
                cursor,
            ).page_num as int] matches Some(p) ==> (p.page_type == PageType::Leaf
                && !p.spec_keys().contains(key) ==> (r is Ok && final(self).num_pages
                == old(self).num_pages + 2 ==> final(self).spec_tree_ordered()))),
        decreases TABLE_MAX_PAGES - self.num_pages, 2int,
    {
        let ghost rec = CellModel {
            key,
            payload: payload@,
            left_child: spec_child_or_invalid(left_child),
        };
        if cursor.page_num as usize >= TABLE_MAX_PAGES {
            return Err(PagerError::PageIdxOutOfRange);
        }
        let idx = cursor.page_num as usize;
        let mut curr_page = match &self.pages_cache[idx] {
            Some(p) => p.duplicate(),
            None => {
                return Err(PagerError::PageNonExistent);
            },
        };
        proof {
            // A populated slot is always an allocated page.
            if cursor.page_num >= self.num_pages {
                assert(self.pages_cache@[cursor.page_num as int] is None);
            }
        }
        let ghost entry_pn = cursor.page_num;
        let ghost np0 = self.num_pages;
        let ghost entry_leaf = self.spec_slot_is_leaf(idx as int);
        let ghost c_old = curr_page@;
        let ghost keys_old = curr_page.spec_keys();
        match curr_page.insert(key, payload, left_child) {
            Ok(()) => {
                let ghost pre = *self;
                let res = self.page_write(curr_page, idx);
                proof {
                    assert(res is Ok);
                    lemma_records_slot_update(pre, *self, idx as int, TABLE_MAX_PAGES as int);
                    if entry_leaf {
                        crate::page::lemma_spec_partition(keys_old, key);
                        let pos = crate::page::spec_partition(keys_old, key);
                        assert(pre.spec_slot_contrib(idx as int) == c_old);
                        lemma_seq_insert_to_multiset(c_old, pos, rec);
                        assert(pre.spec_records().add(c_old.to_multiset().insert(rec))
                            =~= pre.spec_records().insert(rec).add(c_old.to_multiset())) by {
                            broadcast use vstd::multiset::group_multiset_axioms;

                        }
                        lemma_multiset_add_cancel(
                            self.spec_records(),
                            pre.spec_records().insert(rec),
                            c_old.to_multiset(),
                        );
                    } else {
                        lemma_empty_contrib_add_identity(self.spec_records());
                        lemma_empty_contrib_add_identity(pre.spec_records());
                    }
                }
                Ok(())
            },
            Err(PageError::PageFull) => {
                proof {
                    if entry_pn < TABLE_MAX_PAGES && self.pages_cache@[entry_pn as int] is Some {
                        let p = self.pages_cache@[entry_pn as int]->Some_0;
                        assert(spec_cell_keys(curr_page@) =~= p.spec_keys());
                    }
                }
                self.insert_after_full(cursor, key, payload, left_child, curr_page)
            },
            Err(e) => Err(PagerError::PageRowInsertError(e)),
        }
    }

    /// Grow the tree after the cursor's page reported `PageFull`: split
    /// the page, route the halves, and retry the insert on the half that
    /// covers the key.
    #[verifier::rlimit(100)]
    #[verifier::spinoff_prover]
    fn insert_after_full(
        &mut self,
        cursor: &mut DBCursor,
        key: u64,
        payload: &[u8],
        left_child: Option<u32>,
        curr_page: Page,
    ) -> (r: Result<(), PagerError>)
        requires
            old(self).inv(),
            old(cursor).page_num < old(self).num_pages,
            curr_page.inv(),
            old(self).pages_cache@[old(cursor).page_num as int] is Some,
            curr_page@ == old(self).spec_slot_cells(old(cursor).page_num as int),
            (curr_page.page_type == PageType::Leaf) == old(self).spec_slot_is_leaf(
                old(cursor).page_num as int,
            ),
        ensures
            final(self).inv(),
            final(self).num_pages >= old(self).num_pages,
            final(self).root_page_num == old(self).root_page_num,
            r is Err ==> final(self).spec_records() == old(self).spec_records(),
            r is Ok && old(self).spec_slot_is_leaf(old(cursor).page_num as int) ==> final(self).spec_records()
                == old(self).spec_records().insert(
                (CellModel { key, payload: payload@, left_child: spec_child_or_invalid(left_child) }),
            ),
            r is Ok && !old(self).spec_slot_is_leaf(old(cursor).page_num as int) ==> final(self).spec_records()
                == old(self).spec_records(),
            forall|i: int|
                0 <= i < TABLE_MAX_PAGES && i != old(cursor).page_num && old(self).spec_slot_is_leaf(i)
                    ==> final(self).spec_slot_contrib(i) == old(self).spec_slot_contrib(i)
                    && final(self).spec_slot_is_leaf(i),
            forall|i: int|
                0 <= i < old(self).num_pages && i != old(cursor).page_num && !old(self).spec_slot_is_leaf(i)
                    ==> !final(self).spec_slot_is_leaf(i),
            !old(self).spec_slot_is_leaf(old(cursor).page_num as int) ==> !final(self).spec_slot_is_leaf(
                old(cursor).page_num as int,
            ),
            old(self).spec_synced() ==> final(self).spec_synced(),
            old(self).num_pages == TABLE_MAX_PAGES ==> r == Err::<(), PagerError>(
                PagerError::TableFull,
            ) && *final(self) == *old(self) && *final(cursor) == *old(cursor),
            r is Ok ==> final(self).num_pages > old(self).num_pages,
            old(cursor).page_num == old(self).root_page_num && old(self).spec_slot_is_leaf(
                old(cursor).page_num as int,
            ) && !spec_cell_keys(curr_page@).contains(key) ==> (r is Ok
                && final(self).num_pages == old(self).num_pages + 2
                ==> final(self).spec_tree_ordered()),
        decreases TABLE_MAX_PAGES - self.num_pages, 1int,
    {
        let ghost rec = CellModel {
            key,
            payload: payload@,
            left_child: spec_child_or_invalid(left_child),
        };
        let ghost entry_pn = cursor.page_num;
        let ghost np0 = self.num_pages;
        let ghost entry_leaf = self.spec_slot_is_leaf(cursor.page_num as int);
        let ghost c_old = curr_page@;

                if self.num_pages as usize >= TABLE_MAX_PAGES {
                    return Err(PagerError::TableFull);
                }
                let (mut left, right) = match curr_page.split_page() {
                    Ok(pair) => pair,
                    Err(e) => {
                        return Err(PagerError::PageRowInsertError(e));
                    },
                };
                let ghost sp = crate::page::spec_split_point(c_old.len() as int);
                let left_last_key = match left.get_last_key() {
                    Ok(k) => k,
                    Err(e) => {
                        return Err(PagerError::PageRowInsertError(e));
                    },
                };
                let new_page_number = self.num_pages;
                let ghost pre_grow = *self;
                self.num_pages = self.num_pages + 1;
                proof {
                    lemma_scan_expose_blank(pre_grow, *self, TABLE_MAX_PAGES as int);
                    assert forall|i: int|
                        0 <= i < TABLE_MAX_PAGES implies self.spec_slot_contrib(i)
                        == pre_grow.spec_slot_contrib(i) by {
                        if i == pre_grow.num_pages {
                            assert(self.pages_cache@[i] is None);
                            assert(!spec_page_wf(self.disk@[i]@));
                        }
                    }
                }
                let ghost pre_handle = *self;
                let ghost mut took_root: bool = false;
                let (left_pn, right_pn) = if cursor.page_num == self.root_page_num {
                    let pair = match self.handle_root_split(&left, &right, new_page_number) {
                        Ok(pair) => pair,
                        Err(e) => {
                            return Err(e);
                        },
                    };
                    // The halves of the old root now hang directly off the
                    // fresh root: restart the parent stack there.
                    cursor.parents_stack = Vec::new();
                    cursor.parents_stack.push(self.root_page_num);
                    proof {
                        took_root = true;
                    }
                    pair
                } else {
                    proof {
                        assert(entry_pn != old(self).root_page_num);
                    }
                    match self.handle_page_split(&left, &right, new_page_number, cursor) {
                        Ok(pair) => pair,
                        Err(e) => {
                            return Err(e);
                        },
                    }
                };
                if matches!(left.get_page_type(), PageType::Interior) {
                    match left.move_last_left_child_to_right_pointer() {
                        Ok(()) => (),
                        Err(e) => {
                            return Err(PagerError::PageRowInsertError(e));
                        },
                    }
                }
                // Retry on the half that covers the key; an oversized
                // record may split that half again.
                if key < left_last_key {
                    cursor.page_num = left_pn;
                } else {
                    cursor.page_num = right_pn;
                }
                proof {
                    assert(left_pn < self.num_pages);
                    assert(right_pn < self.num_pages);
                    if entry_leaf {
                        // The split halves carry exactly the old leaf's
                        // records between them.
                        lemma_seq_halves_to_multiset(c_old, sp);
                        if entry_pn == pre_handle.root_page_num {
                            assert(pre_handle.spec_slot_contrib(entry_pn as int) == c_old);
                        } else {
                            assert(self.spec_slot_contrib(left_pn as int) == c_old);
                        }
                    }
                }
                let ghost pre_left = *self;
                let wl = self.page_write(left, left_pn as usize);
                proof {
                    assert(wl is Ok);
                    lemma_records_slot_update(pre_left, *self, left_pn as int, TABLE_MAX_PAGES as int);
                }
                let ghost pre_right = *self;
                let wr = self.page_write(right, right_pn as usize);
                proof {
                    assert(wr is Ok);
                    lemma_records_slot_update(
                        pre_right,
                        *self,
                        right_pn as int,
                        TABLE_MAX_PAGES as int,
                    );
                    // The right half lands on a page that was blank until
                    // now, so its slot contributed nothing before the write.
                    assert(!pre_right.spec_slot_is_leaf(right_pn as int)) by {
                        assert(pre_grow.pages_cache@[right_pn as int] is None);
                        assert(!spec_page_wf(pre_grow.disk@[right_pn as int]@));
                        assert(!pre_handle.spec_slot_is_leaf(right_pn as int));
                        if entry_pn == pre_handle.root_page_num {
                            assert(right_pn != pre_handle.root_page_num);
                            assert(!pre_left.spec_slot_is_leaf(right_pn as int));
                        } else {
                            assert(right_pn < pre_handle.num_pages);
                            assert(!pre_left.spec_slot_is_leaf(right_pn as int));
                        }
                        assert(right_pn != left_pn);
                    }
                    assert(pre_right.spec_slot_contrib(right_pn as int)
                        =~= Seq::<CellModel>::empty());
                    lemma_empty_contrib_add_identity(self.spec_records());
                    if entry_leaf {
                        // Putting the two halves in place restores exactly
                        // the records the full page held.
                        let is_root = entry_pn == pre_handle.root_page_num;
                        assert(self.spec_records() == pre_right.spec_records().add(
                            right@.to_multiset(),
                        ));
                        if is_root {
                            lemma_empty_contrib_add_identity(pre_right.spec_records());
                            assert(pre_right.spec_records() == pre_left.spec_records().add(
                                left@.to_multiset(),
                            ));
                            assert(pre_left.spec_records().add(c_old.to_multiset())
                                == pre_handle.spec_records());
                        } else {
                            assert(pre_right.spec_records().add(c_old.to_multiset())
                                == pre_left.spec_records().add(left@.to_multiset()));
                            assert(pre_left.spec_records() == pre_handle.spec_records());
                        }
                        lemma_records_two_writes(
                            pre_handle.spec_records(),
                            pre_left.spec_records(),
                            pre_right.spec_records(),
                            self.spec_records(),
                            c_old.to_multiset(),
                            left@.to_multiset(),
                            right@.to_multiset(),
                            is_root,
                        );
                    } else {
                        lemma_empty_contrib_add_identity(pre_right.spec_records());
                        lemma_empty_contrib_add_identity(pre_left.spec_records());
                    }
                    assert(self.spec_records() == old(self).spec_records());
                }
                let ghost pre_retry = *self;
                proof {
                    assert(self.spec_slot_is_leaf(cursor.page_num as int) == entry_leaf);
                }
                let retry_res = self.insert(cursor, key, payload, left_child);
                proof {
                            assert forall|i: int|
                                0 <= i < TABLE_MAX_PAGES && i != entry_pn && old(self).spec_slot_is_leaf(i)
                                    implies self.spec_slot_contrib(i) == old(self).spec_slot_contrib(i)
                                    && self.spec_slot_is_leaf(i) by {
                                assert(i < np0);
                                assert(pre_handle.spec_slot_is_leaf(i) && pre_handle.spec_slot_contrib(i)
                                    == old(self).spec_slot_contrib(i));
                                assert(pre_left.spec_slot_is_leaf(i) && pre_left.spec_slot_contrib(i)
                                    == old(self).spec_slot_contrib(i));
                                assert(i != left_pn && i != right_pn);
                                assert(pre_retry.spec_slot_is_leaf(i) && pre_retry.spec_slot_contrib(i)
                                    == old(self).spec_slot_contrib(i));
                            }
                            assert forall|i: int|
                                0 <= i < np0 && i != entry_pn && !old(self).spec_slot_is_leaf(i)
                                    implies !self.spec_slot_is_leaf(i) by {
                                assert(!pre_handle.spec_slot_is_leaf(i));
                                assert(!pre_left.spec_slot_is_leaf(i));
                                assert(i != left_pn && i != right_pn);
                                assert(!pre_retry.spec_slot_is_leaf(i));
                            }
                            if !entry_leaf {
                                assert(!self.spec_slot_is_leaf(entry_pn as int)) by {
                                    assert(!pre_retry.spec_slot_is_leaf(entry_pn as int));
                                    if entry_pn == pre_handle.root_page_num {
                                        assert(entry_pn != left_pn && entry_pn != right_pn);
                                    }
                                }
                            }
                }
                match retry_res {
                    Ok(()) => (),
                    Err(e) => {
                        return Err(e);
                    },
                }
                let ghost post_retry = *self;
                match self.flush_page(left_pn as usize) {
                    Ok(()) => (),
                    Err(e) => {
                        return Err(e);
                    },
                }
                match self.flush_page(right_pn as usize) {
                    Ok(()) => (),
                    Err(e) => {
                        return Err(e);
                    },
                }
                proof {
                    if entry_pn == old(self).root_page_num && entry_leaf && !spec_cell_keys(
                        c_old,
                    ).contains(key) && self.num_pages == np0 + 2 {
                        // A root leaf split once and the retry stayed in
                        // place: the resulting two-level tree is ordered.
                        assert(took_root);
                        let root = old(self).root_page_num as int;
                        let lpn = left_pn as int;
                        let rpn = right_pn as int;
                        let llk = left_last_key;
                        let cov: int = if key < llk {
                            lpn
                        } else {
                            rpn
                        };
                        let len = payload@.len() as int;
                        assert(lpn == np0 && rpn == np0 + 1 && root < np0);
                        assert(pre_retry.num_pages == np0 + 2);
                        assert(pre_retry.pages_cache@[lpn] == Some(left));
                        assert(pre_retry.pages_cache@[rpn] == Some(right));
                        let half = pre_retry.pages_cache@[cov]->Some_0;
                        assert(left@ == c_old.take(sp) && right@ == c_old.skip(sp));
                        assert(curr_page@ == c_old);
                        curr_page.lemma_keys_sorted();
                        assert(spec_cell_keys(c_old) =~= curr_page.spec_keys());
                        assert(left@.len() > 0);
                        assert(llk == c_old[sp - 1].key) by {
                            assert(left.spec_keys()[left@.len() - 1] == left@[left@.len()
                                - 1].key);
                        }
                        if half.spec_keys().contains(key) {
                            let j = choose|j: int|
                                0 <= j < half.spec_keys().len() && half.spec_keys()[j] == key;
                            if cov == lpn {
                                assert(half@[j] == c_old[j]);
                                assert(spec_cell_keys(c_old)[j] == key);
                            } else {
                                assert(half@[j] == c_old[sp + j]);
                                assert(spec_cell_keys(c_old)[sp + j] == key);
                            }
                            assert(spec_cell_keys(c_old).contains(key));
                            assert(false);
                        } else if !half.spec_has_room(len) {
                            assert(post_retry.num_pages > pre_retry.num_pages);
                            assert(false);
                        } else {
                            let q = post_retry.pages_cache@[cov]->Some_0;
                            crate::page::lemma_spec_partition(half.spec_keys(), key);
                            let pos = crate::page::spec_partition(half.spec_keys(), key);
                            assert(q.inv() && q@ == half@.insert(pos, rec) && q.page_type
                                == half.page_type);
                            assert(post_retry.num_pages == np0 + 2);
                            assert(self.pages_cache@ == post_retry.pages_cache@);
                            assert(post_retry.pages_cache@[root] == pre_retry.pages_cache@[root]);
                            let nr = self.pages_cache@[root]->Some_0;
                            assert(nr.page_type == PageType::Interior);
                            assert(nr@ == seq![
                                (CellModel {
                                    key: llk,
                                    payload: Seq::<u8>::empty(),
                                    left_child: left_pn,
                                }),
                            ]);
                            assert(nr.right_pointer == right_pn);
                            half@.insert_ensures(pos, rec);
                            if cov == rpn {
                                assert(!(key < llk));
                                assert(key != llk) by {
                                    assert(spec_cell_keys(c_old)[sp - 1] == llk);
                                }
                            }
                            assert forall|i: int|
                                0 <= i < self.spec_slot_cells(lpn).len() implies (
                            #[trigger] self.spec_slot_cells(lpn)[i]).key <= llk by {
                                let cells = self.spec_slot_cells(lpn);
                                if cov == lpn {
                                    assert(cells == q@);
                                    if i < pos {
                                        assert(cells[i] == left@[i]);
                                    } else if i == pos {
                                        assert(cells[i] == rec);
                                    } else {
                                        assert(cells[i] == left@[i - 1]);
                                    }
                                    assert forall|m: int| 0 <= m < left@.len() implies (
                                    #[trigger] left@[m]).key <= llk by {
                                        assert(left@[m] == c_old[m]);
                                        assert(curr_page.spec_keys()[m] == c_old[m].key);
                                        assert(curr_page.spec_keys()[sp - 1] == llk);
                                    }
                                } else {
                                    assert(cells == left@);
                                    assert(cells[i] == c_old[i]);
                                    assert(curr_page.spec_keys()[i] == c_old[i].key);
                                    assert(curr_page.spec_keys()[sp - 1] == llk);
                                }
                            }
                            assert forall|i: int|
                                0 <= i < self.spec_slot_cells(rpn).len() implies (
                            #[trigger] self.spec_slot_cells(rpn)[i]).key > llk by {
                                let cells = self.spec_slot_cells(rpn);
                                assert forall|m: int| 0 <= m < right@.len() implies (
                                #[trigger] right@[m]).key > llk by {
                                    assert(right@[m] == c_old[sp + m]);
                                    assert(curr_page.spec_keys()[sp + m] == c_old[sp + m].key);
                                    assert(curr_page.spec_keys()[sp - 1] == llk);
                                }
                                if cov == rpn {
                                    assert(cells == q@);
                                    if i < pos {
                                        assert(cells[i] == right@[i]);
                                    } else if i == pos {
                                        assert(cells[i] == rec);
                                    } else {
                                        assert(cells[i] == right@[i - 1]);
                                    }
                                } else {
                                    assert(cells == right@);
                                }
                            }
                            assert(self.spec_slot_cells(root) == nr@);
                            assert(self.spec_slot_right_pointer(root) == right_pn);
                            assert(!self.spec_slot_is_leaf(root));
                            assert(self.spec_slot_available(root));
                            assert(self.spec_slot_available(lpn) && self.spec_slot_is_leaf(lpn));
                            assert(self.spec_slot_available(rpn) && self.spec_slot_is_leaf(rpn));
                            lemma_root_split_shape_ordered(*self, llk, lpn, rpn);
                        }
                    }
                }
                Ok(())
            
    }

    /// Grow the tree at the root: the old root's halves move to two fresh
    /// page numbers, and a new interior root routes between them with one
    /// cell and its right pointer.
    fn handle_root_split(
        &mut self,
        page_left_split: &Page,
        page_right_split: &Page,
        new_page_number: u32,
    ) -> (r: Result<(u32, u32), PagerError>)
        requires
            old(self).inv(),
            page_left_split.inv(),
            page_right_split.inv(),
            new_page_number < TABLE_MAX_PAGES,
        ensures
            final(self).inv(),
            final(self).num_pages >= old(self).num_pages,
            final(self).root_page_num == old(self).root_page_num,
            r matches Ok(pair) ==> pair.0 == new_page_number && pair.1 == old(self).num_pages
                && final(self).num_pages == old(self).num_pages + 1,
            r is Err ==> *final(self) == *old(self),
            r is Ok ==> final(self).spec_records().add(
                old(self).spec_slot_contrib(old(self).root_page_num as int).to_multiset(),
            ) == old(self).spec_records(),
            r is Ok ==> !final(self).spec_slot_is_leaf(old(self).root_page_num as int),
            forall|i: int|
                0 <= i < TABLE_MAX_PAGES && i != old(self).root_page_num ==> final(self).spec_slot_contrib(i)
                    == old(self).spec_slot_contrib(i) && final(self).spec_slot_is_leaf(i) == old(self).spec_slot_is_leaf(i),
            old(self).spec_synced() ==> final(self).spec_synced(),
            r is Ok ==> page_left_split@.len() > 0 && (final(self).pages_cache@[old(self).root_page_num as int]
                matches Some(nr) && nr.page_type == PageType::Interior && nr@ == seq![
                (CellModel {
                    key: page_left_split@.last().key,
                    payload: Seq::<u8>::empty(),
                    left_child: new_page_number,
                }),
            ] && nr.right_pointer == old(self).num_pages),
    {
        if self.num_pages as usize >= TABLE_MAX_PAGES {
            return Err(PagerError::TableFull);
        }
        let left_split_page_number = new_page_number;
        let right_split_page_number = self.num_pages;
        let mut new_root = Page::new(PageType::Interior);
        let left_split_last_key = match page_left_split.get_last_key() {
            Ok(k) => k,
            Err(e) => {
                return Err(PagerError::PageRowInsertError(e));
            },
        };
        let empty_payload: [u8; 0] = [];
        let res = new_root.insert(
            left_split_last_key,
            empty_payload.as_slice(),
            Some(left_split_page_number),
        );
        proof {
            assert(res is Ok);
            // The fresh root holds exactly the one routing cell.
            assert(new_root@ =~= seq![
                (CellModel {
                    key: page_left_split@.last().key,
                    payload: Seq::<u8>::empty(),
                    left_child: left_split_page_number,
                }),
            ]) by {
                assert(empty_payload@ =~= Seq::<u8>::empty());
                assert(page_left_split.spec_keys()[page_left_split@.len() - 1]
                    == page_left_split@.last().key);
            }
        }
        match res {
            Ok(()) => (),
            Err(e) => {
                return Err(PagerError::PageRowInsertError(e));
            },
        }
        new_root.set_right_pointer(right_split_page_number);
        let root_idx = self.root_page_num as usize;
        let ghost pre_write = *self;
        let wres = self.page_write(new_root, root_idx);
        proof {
            assert(wres is Ok);
            lemma_records_slot_update(pre_write, *self, root_idx as int, TABLE_MAX_PAGES as int);
            lemma_empty_contrib_add_identity(pre_write.spec_records());
        }
        let ghost pre_grow = *self;
        self.num_pages = self.num_pages + 1;
        proof {
            lemma_scan_expose_blank(pre_grow, *self, TABLE_MAX_PAGES as int);
            assert forall|i: int|
                0 <= i < TABLE_MAX_PAGES && i != old(self).root_page_num implies self.spec_slot_contrib(
                i,
            ) == old(self).spec_slot_contrib(i) && self.spec_slot_is_leaf(i) == old(self).spec_slot_is_leaf(
                i,
            ) by {
                if i == pre_grow.num_pages {
                    assert(self.pages_cache@[i] is None);
                    assert(!spec_page_wf(self.disk@[i]@));
                }
            }
        }
        Ok((left_split_page_number, right_split_page_number))
    }

    /// Propagate a non-root split into the parent page: repoint the entry
    /// (or right pointer) that covered the split page at the right half,
    /// then insert a routing cell for the left half — which may in turn
    /// split the parent, all the way up.
    #[verifier::rlimit(100)]
    #[verifier::spinoff_prover]
    fn handle_page_split(
        &mut self,
        page_left_split: &Page,
        page_right_split: &Page,
        new_page_number: u32,
        cursor: &mut DBCursor,
    ) -> (r: Result<(u32, u32), PagerError>)
        requires
            old(self).inv(),
            page_left_split.inv(),
            page_right_split.inv(),
            old(cursor).page_num < TABLE_MAX_PAGES,
        ensures
            final(self).inv(),
            final(self).num_pages >= old(self).num_pages,
            final(self).root_page_num == old(self).root_page_num,
            r matches Ok(pair) ==> pair.0 == old(cursor).page_num && pair.1 == new_page_number,
            final(self).spec_records() == old(self).spec_records(),
            forall|i: int|
                0 <= i < TABLE_MAX_PAGES && old(self).spec_slot_is_leaf(i) ==> final(self).spec_slot_contrib(i)
                    == old(self).spec_slot_contrib(i) && final(self).spec_slot_is_leaf(i),
            forall|i: int|
                0 <= i < old(self).num_pages && !old(self).spec_slot_is_leaf(i) ==> !final(self).spec_slot_is_leaf(i),
            old(self).spec_synced() ==> final(self).spec_synced(),
            old(cursor).parents_stack@.len() == 0 ==> r == Err::<(u32, u32), PagerError>(
                PagerError::ParentStackEmpty,
            ) && *final(self) == *old(self) && final(cursor).page_num == old(cursor).page_num
                && final(cursor).cell_ptr_pos == old(cursor).cell_ptr_pos
                && final(cursor).parents_stack@ == old(cursor).parents_stack@,
            r is Ok ==> old(cursor).parents_stack@.len() > 0,
            spec_parent_repoint_applies(
                *old(self),
                *old(cursor),
                page_left_split,
                page_right_split,
            ) ==> {
                &&& r is Ok
                &&& final(self).num_pages == old(self).num_pages
                &&& final(cursor).page_num == old(cursor).parents_stack@.last()
                &&& final(cursor).parents_stack@ == old(cursor).parents_stack@.drop_last()
                &&& (final(self).pages_cache@[old(cursor).parents_stack@.last() as int]
                    matches Some(q) && q.page_type == PageType::Interior && q@
                    == spec_repointed_parent(
                    *old(self),
                    *old(cursor),
                    page_left_split@,
                    page_right_split@,
                    new_page_number,
                ))
                &&& forall|i: int|
                    0 <= i < TABLE_MAX_PAGES && i != old(cursor).parents_stack@.last()
                        ==> final(self).pages_cache@[i] == old(self).pages_cache@[i]
                        && final(self).disk@[i] == old(self).disk@[i]
            },
        decreases TABLE_MAX_PAGES - self.num_pages, 3int,
    {
        let parent_page_num = match cursor.parents_stack.pop() {
            Some(p) => p,
            None => {
                return Err(PagerError::ParentStackEmpty);
            },
        };
        match self.ensure_cached(parent_page_num) {
            Ok(()) => (),
            Err(e) => {
                return Err(e);
            },
        }
        let parent_idx = parent_page_num as usize;
        let mut split_page_parent = match &self.pages_cache[parent_idx] {
            Some(p) => p.duplicate(),
            None => {
                return Err(PagerError::PageNonExistent);
            },
        };
        let ghost applies = spec_parent_repoint_applies(
            *old(self),
            *old(cursor),
            page_left_split,
            page_right_split,
        );
        let ghost par = old(self).pages_cache@[old(cursor).parents_stack@.last() as int]->Some_0;
        proof {
            if applies {
                assert(parent_page_num == old(cursor).parents_stack@.last());
                assert(*self == *old(self));
                assert(split_page_parent@ == par@);
                assert(split_page_parent.spec_keys() =~= par.spec_keys());
            }
        }
        if matches!(split_page_parent.get_page_type(), PageType::Leaf) {
            // The descent stack only ever holds interior pages; a leaf here
            // means the image is corrupt.
            return Err(PagerError::PageRowInsertError(PageError::CorruptData));
        }
        let right_split_last_key = match page_right_split.get_last_key() {
            Ok(k) => k,
            Err(e) => {
                return Err(PagerError::PageRowInsertError(e));
            },
        };
        let right_split_page_number = new_page_number;
        let left_split_last_key = match page_left_split.get_last_key() {
            Ok(k) => k,
            Err(e) => {
                return Err(PagerError::PageRowInsertError(e));
            },
        };
        let left_split_page_number = cursor.page_num;
        let (key_insert_position, curr_key_in_partition) = match split_page_parent.find_partition(
            right_split_last_key,
        ) {
            Ok(pr) => pr,
            Err(e) => {
                return Err(PagerError::PageRowInsertError(e));
            },
        };
        if curr_key_in_partition.is_none() {
            split_page_parent.set_right_pointer(right_split_page_number);
        } else {
            let empty_payload: [u8; 0] = [];
            proof {
                assert(empty_payload@ =~= Seq::<u8>::empty());
            }
            match split_page_parent.update_same_size(
                key_insert_position,
                right_split_last_key,
                empty_payload.as_slice(),
                Some(right_split_page_number),
            ) {
                Ok(()) => (),
                Err(e) => {
                    return Err(PagerError::PageRowInsertError(e));
                },
            }
        }
        let ghost par2 = split_page_parent;
        proof {
            if applies {
                let j = crate::page::spec_partition(
                    par.spec_keys(),
                    page_right_split@.last().key,
                );
                crate::page::lemma_spec_partition(
                    par.spec_keys(),
                    page_right_split@.last().key,
                );
                assert(right_split_last_key == page_right_split@.last().key) by {
                    assert(page_right_split.spec_keys()[page_right_split@.len() - 1]
                        == page_right_split@.last().key);
                }
                assert(j == key_insert_position as int || (curr_key_in_partition is None && j
                    == par@.len()));
                if curr_key_in_partition is None {
                    assert(j == par@.len());
                    assert(par2@ == par@);
                } else {
                    assert(j == key_insert_position as int && j < par@.len());
                    assert(par2@ =~= par@.update(
                        j,
                        CellModel {
                            key: page_right_split@.last().key,
                            payload: Seq::<u8>::empty(),
                            left_child: new_page_number,
                        },
                    ));
                }
                assert(par2@ == (if j == par@.len() {
                    par@
                } else {
                    par@.update(
                        j,
                        CellModel {
                            key: page_right_split@.last().key,
                            payload: Seq::<u8>::empty(),
                            left_child: new_page_number,
                        },
                    )
                }));
                assert(par2.spec_keys() =~= par.spec_keys());
                assert(par2.num_cells == par.num_cells && par2.cells_start == par.cells_start);
                assert(!par2.spec_keys().contains(page_left_split@.last().key));
                assert(par2.spec_has_room(0));
            }
        }
        let ghost pre_pw = *self;
        let wres = self.page_write(split_page_parent, parent_idx);
        proof {
            assert(wres is Ok);
            // The parent is interior before and after, so the records are
            // untouched by repointing it.
            assert(!pre_pw.spec_slot_is_leaf(parent_idx as int));
            lemma_records_slot_update(pre_pw, *self, parent_idx as int, TABLE_MAX_PAGES as int);
            lemma_empty_contrib_add_identity(self.spec_records());
            lemma_empty_contrib_add_identity(pre_pw.spec_records());
            assert(self.spec_records() == pre_pw.spec_records());
        }
        // Now add a routing cell for the left half; this may split the
        // parent and recurse further up the tree.
        cursor.page_num = parent_page_num;
        let ghost pre_rec = *self;
        let empty_payload: [u8; 0] = [];
        let rec_res = self.insert(
            cursor,
            left_split_last_key,
            empty_payload.as_slice(),
            Some(left_split_page_number),
        );
        proof {
            // The routing insert targets an interior page, so whatever
            // splits it causes further up, the records are unchanged.
            assert(!pre_rec.spec_slot_is_leaf(parent_page_num as int));
            assert(self.spec_records() == pre_rec.spec_records());
            assert forall|i: int|
                0 <= i < TABLE_MAX_PAGES && old(self).spec_slot_is_leaf(i) implies self.spec_slot_contrib(
                i,
            ) == old(self).spec_slot_contrib(i) && self.spec_slot_is_leaf(i) by {
                assert(pre_pw.spec_slot_is_leaf(i));
                assert(i != parent_idx);
                assert(pre_rec.spec_slot_is_leaf(i));
            }
            assert forall|i: int|
                0 <= i < old(self).num_pages && !old(self).spec_slot_is_leaf(i) implies !self.spec_slot_is_leaf(
                i,
            ) by {
                assert(!pre_pw.spec_slot_is_leaf(i));
                if i == parent_idx {
                    assert(!pre_rec.spec_slot_is_leaf(i));
                } else {
                    assert(!pre_rec.spec_slot_is_leaf(i));
                    assert(i < pre_rec.num_pages);
                }
            }
        }
        proof {
            if applies {
                assert(empty_payload@ =~= Seq::<u8>::empty());
                assert(left_split_last_key == page_left_split@.last().key) by {
                    assert(page_left_split.spec_keys()[page_left_split@.len() - 1]
                        == page_left_split@.last().key);
                }
                // The routing insert hit the repointed parent's fast path.
                assert(pre_rec.pages_cache@[parent_page_num as int] matches Some(pp) && pp@
                    == par2@ && pp.spec_keys() == par2.spec_keys());
                assert(rec_res is Ok);
                assert(self.pages_cache@[parent_page_num as int] matches Some(q) && q@
                    == spec_repointed_parent(
                    *old(self),
                    *old(cursor),
                    page_left_split@,
                    page_right_split@,
                    new_page_number,
                )) by {
                    assert(crate::page::spec_partition(
                        par2.spec_keys(),
                        page_left_split@.last().key,
                    ) == crate::page::spec_partition(
                        par.spec_keys(),
                        page_left_split@.last().key,
                    ));
                }
            }
        }
        match rec_res {
            Ok(()) => (),
            Err(e) => {
                return Err(e);
            },
        }
        Ok((left_split_page_number, right_split_page_number))
    }

    /// Put a page into its slot and immediately write it through to the
    /// backing image.
    fn page_write(&mut self, page: Page, page_idx: usize) -> (r: Result<(), PagerError>)
        requires
            old(self).inv(),
            page.inv(),
            page_idx < old(self).num_pages,
        ensures
            final(self).inv(),
            r is Ok,
            final(self).num_pages == old(self).num_pages,
            final(self).root_page_num == old(self).root_page_num,
            final(self).pages_cache@ == old(self).pages_cache@.update(
                page_idx as int,
                Some(page),
            ),
            final(self).disk@.len() == TABLE_MAX_PAGES,
            final(self).disk@[page_idx as int]@ == page.data@,
            forall|i: int|
                0 <= i < TABLE_MAX_PAGES && i != page_idx ==> final(self).disk@[i] == old(
                    self,
                ).disk@[i],
            forall|i: int|
                0 <= i < TABLE_MAX_PAGES && i != page_idx ==> final(self).spec_slot_contrib(i)
                    == old(self).spec_slot_contrib(i) && final(self).spec_slot_is_leaf(i) == old(
                    self,
                ).spec_slot_is_leaf(i),
            final(self).spec_slot_is_leaf(page_idx as int) == (page.page_type == PageType::Leaf),
            final(self).spec_slot_contrib(page_idx as int) == (if page.page_type
                == PageType::Leaf {
                page@
            } else {
                Seq::<CellModel>::empty()
            }),
            old(self).spec_synced() ==> final(self).spec_synced(),
    {
        self.pages_cache.set(page_idx, Some(page));
        let bytes = self.pages_cache[page_idx].as_ref().unwrap().dump();
        self.disk.set(page_idx, bytes);
        Ok(())
    }

    /// Write one cached page through to the backing image; a missing slot
    /// is nothing to flush.
    pub fn flush_page(&mut self, page_idx: usize) -> (r: Result<(), PagerError>)
        requires
            old(self).inv(),
        ensures
            final(self).inv(),
            final(self).num_pages == old(self).num_pages,
            final(self).root_page_num == old(self).root_page_num,
            final(self).pages_cache@ == old(self).pages_cache@,
            page_idx >= TABLE_MAX_PAGES ==> r == Err::<(), PagerError>(
                PagerError::PageIdxOutOfRange,
            ) && *final(self) == *old(self),
            page_idx < TABLE_MAX_PAGES ==> {
                &&& r is Ok
                &&& (old(self).pages_cache@[page_idx as int] matches Some(p) ==> final(self).disk@[page_idx as int]@ == p.data@)
                &&& (old(self).pages_cache@[page_idx as int] is None ==> *final(self) == *old(self))
                &&& forall|i: int|
                    0 <= i < TABLE_MAX_PAGES && i != page_idx ==> final(self).disk@[i] == old(
                        self,
                    ).disk@[i]
            },
            forall|i: int|
                0 <= i < TABLE_MAX_PAGES ==> final(self).spec_slot_contrib(i) == old(self).spec_slot_contrib(i) && final(self).spec_slot_is_leaf(i) == old(self).spec_slot_is_leaf(i),
            final(self).spec_records() == old(self).spec_records(),
            old(self).spec_synced() ==> final(self).spec_synced(),
    {
        if page_idx >= TABLE_MAX_PAGES {
            return Err(PagerError::PageIdxOutOfRange);
        }
        let bytes = match &self.pages_cache[page_idx] {
            Some(p) => p.dump(),
            None => {
                return Ok(());
            },
        };
        self.disk.set(page_idx, bytes);
        proof {
            lemma_scan_to_congruence_contrib(*old(self), *self, TABLE_MAX_PAGES as int);
        }
        Ok(())
    }

    /// Write every cached page through to the backing image; afterwards the
    /// image and the cache agree everywhere.
    pub fn flush_all(&mut self) -> (r: Result<(), PagerError>)
        requires
            old(self).inv(),
        ensures
            final(self).inv(),
            r is Ok,
            final(self).num_pages == old(self).num_pages,
            final(self).root_page_num == old(self).root_page_num,
            final(self).pages_cache@ == old(self).pages_cache@,
            final(self).spec_synced(),
            forall|i: int|
                0 <= i < TABLE_MAX_PAGES ==> final(self).spec_slot_cells(i) == old(self).spec_slot_cells(i) && final(self).spec_slot_is_leaf(i) == old(self).spec_slot_is_leaf(i),
            final(self).spec_scan() == old(self).spec_scan(),
    {
        let mut i: usize = 0;
        while i < TABLE_MAX_PAGES
            invariant
                self.inv(),
                self.num_pages == old(self).num_pages,
                self.root_page_num == old(self).root_page_num,
                self.pages_cache@ == old(self).pages_cache@,
                forall|j: int|
                    0 <= j < i ==> ((#[trigger] self.pages_cache@[j]) matches Some(p)
                        ==> self.disk@[j]@ == p.data@),
                forall|j: int|
                    0 <= j < TABLE_MAX_PAGES ==> self.spec_slot_cells(j) == old(self).spec_slot_cells(j) && self.spec_slot_is_leaf(j) == old(self).spec_slot_is_leaf(j),
            decreases TABLE_MAX_PAGES - i,
        {
            let res = self.flush_page(i);
            proof {
                assert(res is Ok);
            }
            i += 1;
        }
        proof {
            lemma_scan_to_congruence(*self, *old(self), TABLE_MAX_PAGES as int);
        }
        Ok(())
    }

    /// The page slots, indexed by page number.
    pub fn pages(&self) -> (r: &Vec<Option<Page>>)
        ensures
            r == &self.pages_cache,
    {
        &self.pages_cache
    }

    /// All leaf cells in slot order: the records a full table scan returns.
    /// Pages not yet cached are read from the backing image.
    pub fn leaf_cells(&mut self) -> (r: Result<Vec<crate::cell::DBCell>, PagerError>)
        requires
            old(self).inv(),
        ensures
            final(self).inv(),
            final(self).num_pages == old(self).num_pages,
            final(self).root_page_num == old(self).root_page_num,
            final(self).disk@ == old(self).disk@,
            forall|i: int|
                0 <= i < TABLE_MAX_PAGES ==> final(self).spec_slot_cells(i) == old(self).spec_slot_cells(i) && final(self).spec_slot_is_leaf(i) == old(self).spec_slot_is_leaf(i),
            old(self).spec_synced() ==> final(self).spec_synced(),
            final(self).spec_scan() == old(self).spec_scan(),
            r is Ok <==> (forall|i: int|
                0 <= i < old(self).num_pages ==> old(self).spec_slot_available(i)),
            r matches Ok(v) ==> {
                &&& v@.len() == old(self).spec_scan().len()
                &&& forall|i: int| 0 <= i < v@.len() ==> (#[trigger] v@[i])@ == old(self).spec_scan()[i] && v@[i].wf()
            },
    {
        let mut out: Vec<crate::cell::DBCell> = Vec::new();
        let num_pages = self.num_pages as usize;
        let mut i: usize = 0;
        while i < num_pages
            invariant
                self.inv(),
                i <= num_pages,
                num_pages == self.num_pages,
                self.num_pages == old(self).num_pages,
                self.root_page_num == old(self).root_page_num,
                self.disk@ == old(self).disk@,
                forall|j: int|
                    0 <= j < TABLE_MAX_PAGES ==> self.spec_slot_cells(j) == old(self).spec_slot_cells(j) && self.spec_slot_is_leaf(j) == old(self).spec_slot_is_leaf(j),
                old(self).spec_synced() ==> self.spec_synced(),
                forall|j: int| 0 <= j < i ==> old(self).spec_slot_available(j),
                forall|j: int|
                    i <= j < TABLE_MAX_PAGES ==> self.pages_cache@[j] == old(self).pages_cache@[j],
                out@.len() == self.spec_scan_to(i as int).len(),
                forall|k: int|
                    0 <= k < out@.len() ==> (#[trigger] out@[k])@ == self.spec_scan_to(i as int)[k]
                        && out@[k].wf(),
            decreases num_pages - i,
        {
            let ghost prev = *self;
            let ghost before_fill = *self;
            match self.ensure_cached(i as u32) {
                Ok(()) => (),
                Err(e) => {
                    proof {
                        lemma_scan_to_congruence(*self, *old(self), TABLE_MAX_PAGES as int);
                        // The slot this read failed on was never touched by
                        // the earlier iterations, so it was unavailable from
                        // the start.
                        assert(!before_fill.spec_slot_available(i as int));
                        assert(!old(self).spec_slot_available(i as int));
                    }
                    return Err(e);
                },
            }
            proof {
                lemma_scan_to_congruence(prev, *self, i as int);
                assert(self.spec_scan_to(i as int) == prev.spec_scan_to(i as int));
            }
            match &self.pages_cache[i] {
                Some(page) => {
                    if matches!(page.get_page_type(), PageType::Leaf) {
                        let n = page.cell_pointer_array.len();
                        proof {
                            assert(self.pages_cache@[i as int]->Some_0@.len() == n as int) by {
                                self.pages_cache@[i as int]->Some_0.lemma_view_is_page_cells();
                            }
                        }
                        let mut j: usize = 0;
                        while j < n
                            invariant
                                j <= n,
                                i < num_pages == self.num_pages <= TABLE_MAX_PAGES,
                                self.inv(),
                                self.pages_cache@[i as int] matches Some(p) && p.inv() && p@.len()
                                    == n && p.page_type == PageType::Leaf,
                                out@.len() == self.spec_scan_to(i as int).len() + j,
                                forall|k: int|
                                    0 <= k < self.spec_scan_to(i as int).len()
                                        ==> (#[trigger] out@[k])@ == self.spec_scan_to(i as int)[k]
                                        && out@[k].wf(),
                                forall|k: int|
                                    0 <= k < j ==> (#[trigger] out@[self.spec_scan_to(i as int).len()
                                        + k])@ == self.pages_cache@[i as int]->Some_0@[k]
                                        && out@[self.spec_scan_to(i as int).len() + k].wf(),
                            decreases n - j,
                        {
                            let cell = match &self.pages_cache[i] {
                                Some(p) => p.decode_cell(j),
                                None => {
                                    proof {
                                        assert(false);
                                    }
                                    return Err(PagerError::PageNonExistent);
                                },
                            };
                            out.push(cell);
                            j += 1;
                        }
                    }
                },
                None => {
                    proof {
                        // A successful read leaves the slot populated.
                        assert(false);
                    }
                    return Err(PagerError::PageNonExistent);
                },
            }
            proof {
                assert(old(self).spec_slot_available(i as int));
                assert(self.spec_scan_to(i + 1) == self.spec_scan_to(i as int)
                    + if i < self.num_pages && self.spec_slot_is_leaf(i as int) {
                    self.spec_slot_cells(i as int)
                } else {
                    Seq::<CellModel>::empty()
                });
                if !(i < self.num_pages && self.spec_slot_is_leaf(i as int)) {
                    assert(self.spec_scan_to(i + 1) =~= self.spec_scan_to(i as int));
                }
                assert(out@.len() == self.spec_scan_to(i + 1).len());
                assert forall|k: int|
                    0 <= k < out@.len() implies (#[trigger] out@[k])@ == self.spec_scan_to(i + 1)[k]
                    && out@[k].wf() by {
                    if k < self.spec_scan_to(i as int).len() {
                        assert(out@[k]@ == self.spec_scan_to(i as int)[k]);
                        assert(out@[k].wf());
                    } else {
                        let k2 = k - self.spec_scan_to(i as int).len();
                        assert(out@[self.spec_scan_to(i as int).len() + k2]@ == self.pages_cache@[
                            i as int]->Some_0@[k2]);
                        assert(out@[self.spec_scan_to(i as int).len() + k2].wf());
                        assert(self.spec_scan_to(i + 1)[k] == self.spec_slot_cells(i as int)[k2]);
                    }
                }
            }
            i += 1;
        }
        proof {
            lemma_scan_to_frozen(*self, num_pages as int, TABLE_MAX_PAGES as int);
            assert(self.spec_scan() == self.spec_scan_to(num_pages as int));
            assert(old(self).spec_scan() == self.spec_scan()) by {
                lemma_scan_to_congruence(*old(self), *self, TABLE_MAX_PAGES as int);
            }
        }
        Ok(out)
    }
}

/// Adding the same multiset on both sides of an equation can be undone.
proof fn lemma_multiset_add_cancel(
    x: Multiset<CellModel>,
    y: Multiset<CellModel>,
    z: Multiset<CellModel>,
)
    requires
        x.add(z) == y.add(z),
    ensures
        x == y,
{
    broadcast use vstd::multiset::group_multiset_axioms;

    assert forall|e: CellModel| x.count(e) == y.count(e) by {
        assert(x.add(z).count(e) == x.count(e) + z.count(e));
        assert(y.add(z).count(e) == y.count(e) + z.count(e));
    }
    assert(x =~= y);
}

/// Adding the multiset of no cells changes nothing.
proof fn lemma_empty_contrib_add_identity(x: Multiset<CellModel>)
    ensures
        x.add(Seq::<CellModel>::empty().to_multiset()) == x,
{
    broadcast use vstd::multiset::group_multiset_axioms;

    let e = Seq::<CellModel>::empty();
    e.to_multiset_ensures();
    vstd::multiset::lemma_multiset_empty_len(e.to_multiset());
    assert(e.to_multiset() =~= Multiset::empty());
    assert(x.add(e.to_multiset()) =~= x);
}

/// Inserting into a cell sequence inserts into its multiset.
proof fn lemma_seq_insert_to_multiset(v: Seq<CellModel>, pos: int, c: CellModel)
    requires
        0 <= pos <= v.len(),
    ensures
        v.insert(pos, c).to_multiset() == v.to_multiset().insert(c),
{
    broadcast use vstd::multiset::group_multiset_axioms;

    let a = v.subrange(0, pos);
    let b = v.subrange(pos, v.len() as int);
    vstd::seq_lib::lemma_multiset_commutative(a.push(c), b);
    a.to_multiset_ensures();
    assert(v =~= a + b);
    vstd::seq_lib::lemma_multiset_commutative(a, b);
    assert(v.insert(pos, c).to_multiset() =~= v.to_multiset().insert(c));
}

/// The two halves of a cell sequence carry its whole multiset.
proof fn lemma_seq_halves_to_multiset(v: Seq<CellModel>, sp: int)
    requires
        0 <= sp <= v.len(),
    ensures
        v.take(sp).to_multiset().add(v.skip(sp).to_multiset()) == v.to_multiset(),
{
    assert(v =~= v.take(sp) + v.skip(sp));
    vstd::seq_lib::lemma_multiset_commutative(v.take(sp), v.skip(sp));
}

/// The records after writing the two halves of a split equal the records
/// before the whole page was removed: taking one page's cells out and
/// putting the two halves in restores the same multiset.
proof fn lemma_records_two_writes(
    r_ph: Multiset<CellModel>,
    r_pl: Multiset<CellModel>,
    r_pr: Multiset<CellModel>,
    r_sf: Multiset<CellModel>,
    c_old: Multiset<CellModel>,
    take_m: Multiset<CellModel>,
    skip_m: Multiset<CellModel>,
    root: bool,
)
    requires
        take_m.add(skip_m) == c_old,
        root ==> r_pl.add(c_old) == r_ph && r_pr == r_pl.add(take_m) && r_sf == r_pr.add(skip_m),
        !root ==> r_pl == r_ph && r_pr.add(c_old) == r_pl.add(take_m) && r_sf == r_pr.add(skip_m),
    ensures
        r_sf == r_ph,
{
    broadcast use vstd::multiset::group_multiset_axioms;

    if root {
        assert(r_sf =~= r_ph);
    } else {
        assert forall|e: CellModel| r_sf.add(c_old).count(e) == r_pl.add(c_old).count(e) by {
            assert(r_pr.add(c_old).count(e) == r_pl.add(take_m).count(e));
            assert(take_m.add(skip_m).count(e) == c_old.count(e));
        }
        assert(r_sf.add(c_old) =~= r_pl.add(c_old));
        lemma_multiset_add_cancel(r_sf, r_pl, c_old);
    }
}

/// Two pagers whose slots contribute the same scan the same.
proof fn lemma_scan_to_congruence_contrib(p1: Pager, p2: Pager, k: int)
    requires
        p1.num_pages == p2.num_pages,
        forall|i: int| 0 <= i < k ==> p1.spec_slot_contrib(i) == p2.spec_slot_contrib(i),
    ensures
        p1.spec_scan_to(k) == p2.spec_scan_to(k),
    decreases k,
{
    if k > 0 {
        lemma_scan_to_congruence_contrib(p1, p2, k - 1);
        assert(p1.spec_slot_contrib(k - 1) == p2.spec_slot_contrib(k - 1));
        assert(p1.spec_scan_to(k) =~= p2.spec_scan_to(k));
    }
}

/// Growing the page count by one over a blank slot leaves the scan as it
/// was: the newly allocated page contributes nothing yet.
proof fn lemma_scan_expose_blank(p1: Pager, p2: Pager, k: int)
    requires
        p1.pages_cache@.len() == TABLE_MAX_PAGES,
        p1.num_pages < TABLE_MAX_PAGES,
        p2.num_pages == p1.num_pages + 1,
        p2.pages_cache@ == p1.pages_cache@,
        p2.disk@ == p1.disk@,
        p1.pages_cache@[p1.num_pages as int] is None,
        !spec_page_wf(p1.disk@[p1.num_pages as int]@),
    ensures
        p2.spec_scan_to(k) == p1.spec_scan_to(k),
    decreases k,
{
    if k > 0 {
        lemma_scan_expose_blank(p1, p2, k - 1);
        assert(p2.spec_scan_to(k) =~= p1.spec_scan_to(k));
    }
}

/// Changing what a single slot contributes changes the records by exactly
/// that swap: records plus the old contribution on one side equal records
/// plus the new contribution on the other.
proof fn lemma_records_slot_update(p1: Pager, p2: Pager, x: int, k: int)
    requires
        0 <= x < k <= TABLE_MAX_PAGES,
        p1.num_pages == p2.num_pages,
        forall|i: int|
            0 <= i < TABLE_MAX_PAGES && i != x ==> p1.spec_slot_contrib(i)
                == p2.spec_slot_contrib(i),
    ensures
        p2.spec_scan_to(k).to_multiset().add(p1.spec_slot_contrib(x).to_multiset())
            == p1.spec_scan_to(k).to_multiset().add(p2.spec_slot_contrib(x).to_multiset()),
    decreases k,
{
    broadcast use vstd::multiset::group_multiset_axioms;

    let c1 = p1.spec_slot_contrib(x).to_multiset();
    let c2 = p2.spec_slot_contrib(x).to_multiset();
    if k == x + 1 {
        lemma_scan_to_congruence_contrib(p1, p2, x);
        assert(p1.spec_scan_to(k) == p1.spec_scan_to(x) + p1.spec_slot_contrib(x));
        assert(p2.spec_scan_to(k) == p2.spec_scan_to(x) + p2.spec_slot_contrib(x));
        vstd::seq_lib::lemma_multiset_commutative(p1.spec_scan_to(x), p1.spec_slot_contrib(x));
        vstd::seq_lib::lemma_multiset_commutative(p2.spec_scan_to(x), p2.spec_slot_contrib(x));
        assert(p2.spec_scan_to(k).to_multiset().add(c1) =~= p1.spec_scan_to(k).to_multiset().add(
            c2,
        ));
    } else {
        lemma_records_slot_update(p1, p2, x, k - 1);
        assert(p1.spec_slot_contrib(k - 1) == p2.spec_slot_contrib(k - 1));
        assert(p1.spec_scan_to(k) == p1.spec_scan_to(k - 1) + p1.spec_slot_contrib(k - 1));
        assert(p2.spec_scan_to(k) == p2.spec_scan_to(k - 1) + p2.spec_slot_contrib(k - 1));
        vstd::seq_lib::lemma_multiset_commutative(
            p1.spec_scan_to(k - 1),
            p1.spec_slot_contrib(k - 1),
        );
        vstd::seq_lib::lemma_multiset_commutative(
            p2.spec_scan_to(k - 1),
            p2.spec_slot_contrib(k - 1),
        );
        let d = p1.spec_slot_contrib(k - 1).to_multiset();
        assert forall|e: CellModel|
            p2.spec_scan_to(k).to_multiset().add(c1).count(e) == p1.spec_scan_to(
                k,
            ).to_multiset().add(c2).count(e) by {
            assert(p2.spec_scan_to(k - 1).to_multiset().add(c1).count(e) == p1.spec_scan_to(
                k - 1,
            ).to_multiset().add(c2).count(e));
            assert(p2.spec_scan_to(k).to_multiset().count(e) == p2.spec_scan_to(
                k - 1,
            ).to_multiset().count(e) + d.count(e));
            assert(p1.spec_scan_to(k).to_multiset().count(e) == p1.spec_scan_to(
                k - 1,
            ).to_multiset().count(e) + d.count(e));
        }
        assert(p2.spec_scan_to(k).to_multiset().add(c1) =~= p1.spec_scan_to(k).to_multiset().add(
            c2,
        ));
    }
}

/// The single-level split case: the cursor's stack names a cached
/// interior parent, both halves are non-empty, the parent's partition
/// entry for the right half's last key is the one that gets repointed (a
/// matching empty routing cell, or the right pointer), and the parent has
/// room for the left half's routing cell without a further split.
pub open spec fn spec_parent_repoint_applies(
    p: Pager,
    c: DBCursor,
    left: &Page,
    right: &Page,
) -> bool {
    &&& c.parents_stack@.len() > 0
    &&& c.parents_stack@.last() < TABLE_MAX_PAGES
    &&& p.pages_cache@[c.parents_stack@.last() as int] matches Some(par) && {
        let j = crate::page::spec_partition(par.spec_keys(), right@.last().key);
        &&& par.page_type == PageType::Interior
        &&& left@.len() > 0
        &&& right@.len() > 0
        &&& !par.spec_keys().contains(left@.last().key)
        &&& par.spec_has_room(0)
        &&& (j < par@.len() ==> par.spec_keys()[j] == right@.last().key && par@[j].payload.len()
            == 0)
    }
}

/// What the parent page holds after a single-level split: the entry that
/// covered the split page repointed at the right half (the matching cell's
/// left child, or the right pointer), and a routing cell for the left half
/// inserted in key order.
pub open spec fn spec_repointed_parent(
    p: Pager,
    c: DBCursor,
    left: Seq<CellModel>,
    right: Seq<CellModel>,
    new_page_number: u32,
) -> Seq<CellModel> {
    let par = p.pages_cache@[c.parents_stack@.last() as int]->Some_0;
    let j = crate::page::spec_partition(par.spec_keys(), right.last().key);
    let routing = CellModel {
        key: left.last().key,
        payload: Seq::<u8>::empty(),
        left_child: c.page_num,
    };
    if j == par@.len() {
        par@.insert(crate::page::spec_partition(par.spec_keys(), left.last().key), routing)
    } else {
        par@.update(
            j,
            CellModel {
                key: right.last().key,
                payload: Seq::<u8>::empty(),
                left_child: new_page_number,
            },
        ).insert(crate::page::spec_partition(par.spec_keys(), left.last().key), routing)
    }
}

/// Split-order law at the tree level: the exact shape a root split
/// leaves — an interior root holding one routing cell that sends keys up
/// to the left half's last key to the left leaf, with the right pointer
/// at the right leaf, every left key at most that separator and every
/// right key above it — is an ordered tree.
pub proof fn lemma_root_split_shape_ordered(p: Pager, llk: u64, lpn: int, rpn: int)
    requires
        p.inv(),
        0 <= lpn < p.num_pages,
        0 <= rpn < p.num_pages,
        lpn != p.root_page_num,
        rpn != p.root_page_num,
        p.spec_slot_available(p.root_page_num as int),
        !p.spec_slot_is_leaf(p.root_page_num as int),
        p.spec_slot_cells(p.root_page_num as int) == seq![
            (CellModel { key: llk, payload: Seq::<u8>::empty(), left_child: lpn as u32 }),
        ],
        p.spec_slot_right_pointer(p.root_page_num as int) == rpn as u32,
        p.spec_slot_available(lpn),
        p.spec_slot_is_leaf(lpn),
        forall|i: int|
            0 <= i < p.spec_slot_cells(lpn).len() ==> (#[trigger] p.spec_slot_cells(lpn)[i]).key
                <= llk,
        p.spec_slot_available(rpn),
        p.spec_slot_is_leaf(rpn),
        forall|i: int|
            0 <= i < p.spec_slot_cells(rpn).len() ==> (#[trigger] p.spec_slot_cells(rpn)[i]).key
                > llk,
    ensures
        p.spec_tree_ordered(),
{
    let root = p.root_page_num as int;
    let cells = p.spec_slot_cells(root);
    assert(cells.len() == 1);
    assert(cells[0].key == llk && cells[0].payload.len() == 0 && cells[0].left_child == lpn);
    let h = (TABLE_MAX_PAGES - 2) as nat;
    assert(p.spec_subtree_ordered(lpn, None, Some(llk), h));
    assert(p.spec_subtree_ordered(rpn, Some(llk), None, h));
    assert(p.spec_subtree_ordered(root, None, None, (TABLE_MAX_PAGES - 1) as nat)) by {
        assert forall|i: int| 0 <= i < cells.len() implies p.spec_subtree_ordered(
            (#[trigger] cells[i]).left_child as int,
            if i == 0 {
                None
            } else {
                Some(cells[i - 1].key)
            },
            Some(cells[i].key),
            h,
        ) by {
            assert(i == 0);
        }
    }
}

/// Two pagers whose slots read the same route the same: the subtree
/// ordering predicate only looks at a slot's cells, kind, right pointer
/// and availability.
proof fn lemma_subtree_ordered_congruence(
    p1: Pager,
    p2: Pager,
    pn: int,
    lo: Option<u64>,
    hi: Option<u64>,
    height: nat,
)
    requires
        p1.num_pages == p2.num_pages,
        forall|i: int|
            0 <= i < TABLE_MAX_PAGES ==> p1.spec_slot_cells(i) == p2.spec_slot_cells(i)
                && p1.spec_slot_is_leaf(i) == p2.spec_slot_is_leaf(i)
                && p1.spec_slot_right_pointer(i) == p2.spec_slot_right_pointer(i) && (
            p1.spec_slot_available(i) <==> p2.spec_slot_available(i)),
        p1.num_pages <= TABLE_MAX_PAGES,
    ensures
        p1.spec_subtree_ordered(pn, lo, hi, height) == p2.spec_subtree_ordered(pn, lo, hi, height),
    decreases height,
{
    if 0 <= pn < p1.num_pages {
        let cells = p1.spec_slot_cells(pn);
        if height > 0 {
            assert forall|i: int| 0 <= i < cells.len() implies p1.spec_subtree_ordered(
                (#[trigger] cells[i]).left_child as int,
                if i == 0 {
                    lo
                } else {
                    Some(cells[i - 1].key)
                },
                Some(cells[i].key),
                (height - 1) as nat,
            ) == p2.spec_subtree_ordered(
                cells[i].left_child as int,
                if i == 0 {
                    lo
                } else {
                    Some(cells[i - 1].key)
                },
                Some(cells[i].key),
                (height - 1) as nat,
            ) by {
                lemma_subtree_ordered_congruence(
                    p1,
                    p2,
                    cells[i].left_child as int,
                    if i == 0 {
                        lo
                    } else {
                        Some(cells[i - 1].key)
                    },
                    Some(cells[i].key),
                    (height - 1) as nat,
                );
            }
            lemma_subtree_ordered_congruence(
                p1,
                p2,
                p1.spec_slot_right_pointer(pn) as int,
                if cells.len() == 0 {
                    lo
                } else {
                    Some(cells[cells.len() - 1].key)
                },
                hi,
                (height - 1) as nat,
            );
        }
    }
}

/// Durability: once every cached page has been written through to the
/// backing image, a pager opened cold over that same image — the same
/// blocks and page count, with nothing cached — reads back exactly the
/// same records in the same order.
pub proof fn lemma_reopen_preserves_scan(p1: Pager, p2: Pager)
    requires
        p1.inv(),
        p1.spec_synced(),
        p2.num_pages == p1.num_pages,
        p2.disk@.len() == TABLE_MAX_PAGES,
        forall|i: int| 0 <= i < p1.num_pages ==> p2.disk@[i] == p1.disk@[i],
        p2.pages_cache@.len() == TABLE_MAX_PAGES,
        forall|i: int| 0 <= i < TABLE_MAX_PAGES ==> (#[trigger] p2.pages_cache@[i]) is None,
    ensures
        p2.spec_scan() == p1.spec_scan(),
{
    assert forall|i: int|
        0 <= i < TABLE_MAX_PAGES implies p2.spec_slot_contrib(i) == p1.spec_slot_contrib(i) by {
        if i < p1.num_pages {
            if p1.pages_cache@[i] is Some {
                let pg = p1.pages_cache@[i]->Some_0;
                assert(pg.inv());
                assert(p1.disk@[i]@ == pg.data@);
                assert(spec_page_wf(p2.disk@[i]@));
                pg.lemma_view_is_page_cells();
                assert(p2.disk@[i]@[0] == pg.page_type.spec_tag());
            }
        }
    }
    lemma_scan_to_congruence_contrib(p2, p1, TABLE_MAX_PAGES as int);
}

/// Slots at or past `num_pages` contribute nothing to a scan.
proof fn lemma_scan_to_frozen(p: Pager, a: int, b: int)
    requires
        p.num_pages <= a <= b,
    ensures
        p.spec_scan_to(b) == p.spec_scan_to(a),
    decreases b - a,
{
    if a < b {
        lemma_scan_to_frozen(p, a, b - 1);
        assert(p.spec_scan_to(b) =~= p.spec_scan_to(b - 1));
    }
}

/// Two pagers whose slots read the same scan the same.
proof fn lemma_scan_to_congruence(p1: Pager, p2: Pager, k: int)
    requires
        p1.num_pages == p2.num_pages,
        forall|i: int|
            0 <= i < k ==> p1.spec_slot_cells(i) == p2.spec_slot_cells(i) && p1.spec_slot_is_leaf(
                i,
            ) == p2.spec_slot_is_leaf(i),
    ensures
        p1.spec_scan_to(k) == p2.spec_scan_to(k),
    decreases k,
{
    if k > 0 {
        lemma_scan_to_congruence(p1, p2, k - 1);
    }
}

/// A pager whose slots are all empty and whose blocks do not parse scans
/// nothing; used for the all-zero image of a fresh pager.
proof fn lemma_scan_empty_slots(p: Pager, k: int)
    requires
        k <= TABLE_MAX_PAGES,
        p.pages_cache@.len() == TABLE_MAX_PAGES,
        p.disk@.len() == TABLE_MAX_PAGES,
        forall|i: int|
            0 <= i < TABLE_MAX_PAGES ==> ((#[trigger] p.pages_cache@[i]) matches Some(pg)
                ==> pg@.len() == 0),
        forall|i: int|
            0 <= i < TABLE_MAX_PAGES && p.pages_cache@[i] is None ==> !spec_page_wf(
                (#[trigger] p.disk@[i])@,
            ),
    ensures
        p.spec_scan_to(k).len() == 0,
    decreases k,
{
    if k > 0 {
        lemma_scan_empty_slots(p, k - 1);
    }
}

} // verus!
