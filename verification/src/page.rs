//! One 4096-byte slotted B+tree node. A page owns its byte image: a 12-byte
//! header, a cell-pointer array growing downward from the header, and a cell
//! content area growing upward from the end of the page.
//!
//! Header layout (big-endian integers): `page_type: u8` at 0, reserved
//! `first_free_block: u16` at 1, `num_cells: u16` at 3, `cells_start: u16`
//! at 5, reserved `fragmented_free_bytes: u8` at 7, `right_pointer: u32` at
//! 8. Cell-pointer entries are little-endian `u16` absolute offsets, kept
//! sorted by the keys of the cells they point at.

use crate::bytes::{
    lemma_u16_be_round_trip, lemma_u16_le_round_trip, lemma_u32_be_round_trip, read_u16_be,
    read_u16_le, read_u32_be, read_u64_be, spec_u16_from_be, spec_u16_from_le, spec_u16_to_be,
    spec_u16_to_le, spec_u32_from_be, spec_u32_to_be, spec_write, write_bytes, write_u16_be,
    write_u16_le, write_u32_be,
};
use crate::cell::{
    lemma_cell_at_agree, lemma_cell_encode_decode, spec_cell_at, spec_cell_bytes,
    spec_cell_in_bounds, spec_cell_end, spec_child_or_invalid, spec_key_at, spec_payload_size_at,
    CellModel, DBCell, CELL_FIXED_SIZE, MAX_CELL_PAYLOAD,
};
use crate::{INVALID_PAGE_NUM, PAGE_HEADER_SIZE, PAGE_SIZE};
use vstd::prelude::*;

verus! {

/// The two node kinds, identified on disk by a one-byte tag.
#[derive(Clone, Copy, Debug, PartialEq, Eq, Structural)]
pub enum PageType {
    Leaf,
    Interior,
}

impl PageType {
    /// On-disk tag of this page type.
    pub open spec fn spec_tag(self) -> u8 {
        match self {
            PageType::Leaf => 0x0d,
            PageType::Interior => 0x05,
        }
    }

    /// On-disk tag of this page type.
    pub fn tag(self) -> (r: u8)
        ensures
            r == self.spec_tag(),
    {
        match self {
            PageType::Leaf => 0x0d,
            PageType::Interior => 0x05,
        }
    }

    /// Recover a page type from its on-disk tag.
    pub fn from_tag(value: u8) -> (r: Result<Self, PageError>)
        ensures
            r is Ok <==> value == 0x0d || value == 0x05,
            r matches Ok(t) ==> t.spec_tag() == value,
            r matches Err(e) ==> e == PageError::InvalidPageType(value),
    {
        match value {
            0x0d => Ok(PageType::Leaf),
            0x05 => Ok(PageType::Interior),
            _ => Err(PageError::InvalidPageType(value)),
        }
    }
}

/// Errors surfaced by page operations.
#[derive(Clone, Copy, Debug, PartialEq, Eq, Structural)]
pub enum PageError {
    /// A cell pointer dereferences outside the page or a cell fails to
    /// decode.
    CorruptData,
    /// A delete was asked of a page with no cells.
    DeleteFromEmpty,
    /// A record with this key is already present.
    DuplicateKey(u64),
    /// The remaining page capacity is smaller than the record needs.
    PageFull,
    /// The record could not be encoded as a cell.
    InsertError,
    /// An in-place update was asked with a payload of a different size.
    UpdateNotSameSize,
    /// An in-place update was asked with a key that is not the stored one.
    UpdateNotSameKey(u64),
    /// The page tag byte is neither the leaf nor the interior tag.
    InvalidPageType(u8),
    /// The header bytes could not be read.
    HeaderReadError,
    /// The cell-pointer array dereferences outside the page.
    CellPtrArrayReadError,
    /// The byte image is not page-sized.
    EndOfSliceWhileDeserializing,
    /// A first or last key was asked of a page with no cells.
    CannotGetFirstOrLastKey,
}

/// Number of cells recorded in a page image's header.
pub open spec fn spec_parsed_num_cells(b: Seq<u8>) -> u16 {
    spec_u16_from_be(b.subrange(3, 5))
}

/// Start of the cell content area recorded in a page image's header.
pub open spec fn spec_parsed_cells_start(b: Seq<u8>) -> u16 {
    spec_u16_from_be(b.subrange(5, 7))
}

/// Right pointer recorded in a page image's header.
pub open spec fn spec_parsed_right_pointer(b: Seq<u8>) -> u32 {
    spec_u32_from_be(b.subrange(8, 12))
}

/// The cell-pointer array recorded in a page image.
pub open spec fn spec_parsed_ptrs(b: Seq<u8>) -> Seq<u16> {
    Seq::new(
        spec_parsed_num_cells(b) as nat,
        |i: int| spec_u16_from_le(b.subrange(12 + 2 * i, 14 + 2 * i)),
    )
}

/// Total encoded size of a sequence of cells.
pub open spec fn spec_cells_bytes_len(cells: Seq<CellModel>) -> int
    decreases cells.len(),
{
    if cells.len() == 0 {
        0
    } else {
        spec_cells_bytes_len(cells.drop_last()) + CELL_FIXED_SIZE + cells.last().payload.len()
    }
}

/// A structurally valid 4096-byte page image: a known tag, a header whose
/// counts fit the page, every cell pointer dereferencing a whole cell inside
/// the content area, cells pairwise disjoint, keys strictly ascending, and
/// the content area large enough for all cells together.
pub open spec fn spec_page_wf(b: Seq<u8>) -> bool {
    &&& b.len() == PAGE_SIZE
    &&& (b[0] == 0x0d || b[0] == 0x05)
    &&& PAGE_HEADER_SIZE + 2 * (spec_parsed_num_cells(b) as int) <= spec_parsed_cells_start(b) as int
        <= PAGE_SIZE
    &&& (forall|i: int|
        0 <= i < spec_parsed_num_cells(b) ==> spec_parsed_cells_start(b)
            <= #[trigger] spec_parsed_ptrs(b)[i])
    &&& (forall|i: int|
        0 <= i < spec_parsed_num_cells(b) ==> spec_cell_in_bounds(
            b,
            #[trigger] spec_parsed_ptrs(b)[i] as int,
        ))
    &&& (forall|i: int, j: int|
        0 <= i < j < spec_parsed_num_cells(b) ==> spec_cell_end(
            b,
            #[trigger] spec_parsed_ptrs(b)[i] as int,
        ) <= spec_parsed_ptrs(b)[j] || spec_cell_end(b, #[trigger] spec_parsed_ptrs(b)[j] as int)
            <= spec_parsed_ptrs(b)[i])
    &&& (forall|i: int, j: int|
        0 <= i < j < spec_parsed_num_cells(b) ==> spec_key_at(
            b,
            #[trigger] spec_parsed_ptrs(b)[i] as int,
        ) < spec_key_at(b, #[trigger] spec_parsed_ptrs(b)[j] as int))
}

/// The cells recorded in a page image, in cell-pointer order.
pub open spec fn spec_page_cells(b: Seq<u8>) -> Seq<CellModel> {
    Seq::new(
        spec_parsed_ptrs(b).len(),
        |i: int| spec_cell_at(b, spec_parsed_ptrs(b)[i] as int),
    )
}

/// A slotted B+tree node with its 4096-byte image.
#[derive(Clone, Debug)]
pub struct Page {
    pub page_type: PageType,
    pub num_cells: u16,
    pub cells_start: u16,
    pub right_pointer: u32,
    pub data: Vec<u8>,
    pub cell_pointer_array: Vec<u16>,
}

impl View for Page {
    type V = Seq<CellModel>;

    /// The page's cells, in cell-pointer (that is, key) order.
    open spec fn view(&self) -> Seq<CellModel> {
        Seq::new(
            self.cell_pointer_array@.len(),
            |i: int| spec_cell_at(self.data@, self.cell_pointer_array@[i] as int),
        )
    }
}

impl Page {
    /// The byte image is well formed and the in-memory fields mirror it.
    pub open spec fn inv(self) -> bool {
        &&& spec_page_wf(self.data@)
        &&& self.page_type.spec_tag() == self.data@[0]
        &&& self.num_cells == spec_parsed_num_cells(self.data@)
        &&& self.cells_start == spec_parsed_cells_start(self.data@)
        &&& self.right_pointer == spec_parsed_right_pointer(self.data@)
        &&& self.cell_pointer_array@ == spec_parsed_ptrs(self.data@)
    }

    /// The keys of the page's cells, in order.
    pub open spec fn spec_keys(self) -> Seq<u64> {
        Seq::new(self@.len(), |i: int| self@[i].key)
    }

    /// Room for one more cell with a `payload_len`-byte payload: the content
    /// area can grow by the cell while the pointer array grows by one entry.
    pub open spec fn spec_has_room(self, payload_len: int) -> bool {
        PAGE_HEADER_SIZE + 2 * (self.num_cells + 1) + CELL_FIXED_SIZE + payload_len
            <= self.cells_start
    }

    /// Build an empty page of the given kind: no cells, the content area
    /// starting at the very end, and no right pointer.
    pub fn new(page_type: PageType) -> (r: Page)
        ensures
            r.inv(),
            r@ =~= Seq::<CellModel>::empty(),
            r.page_type == page_type,
            r.num_cells == 0,
            r.cells_start == PAGE_SIZE,
            r.right_pointer == INVALID_PAGE_NUM,
            r.data@.len() == PAGE_SIZE,
            r.data@[1] == 0u8 && r.data@[2] == 0u8 && r.data@[7] == 0u8,
    {
        let mut data: Vec<u8> = vec![0u8; PAGE_SIZE];
        write_header(&mut data, page_type, 0, PAGE_SIZE as u16, INVALID_PAGE_NUM);
        let page = Page {
            page_type,
            num_cells: 0,
            cells_start: PAGE_SIZE as u16,
            right_pointer: INVALID_PAGE_NUM,
            data,
            cell_pointer_array: Vec::new(),
        };
        proof {
            lemma_u16_be_round_trip(0);
            lemma_u16_be_round_trip(PAGE_SIZE as u16);
            lemma_u32_be_round_trip(INVALID_PAGE_NUM);
            assert(page.cell_pointer_array@ =~= spec_parsed_ptrs(page.data@));
            assert(spec_page_cells(page.data@) =~= Seq::<CellModel>::empty());
        }
        page
    }

    /// An independent copy of the page, byte for byte.
    pub fn duplicate(&self) -> (r: Page)
        ensures
            r.page_type == self.page_type,
            r.num_cells == self.num_cells,
            r.cells_start == self.cells_start,
            r.right_pointer == self.right_pointer,
            r.data@ == self.data@,
            r.cell_pointer_array@ == self.cell_pointer_array@,
            r@ == self@,
            self.inv() ==> r.inv(),
    {
        let r = Page {
            page_type: self.page_type,
            num_cells: self.num_cells,
            cells_start: self.cells_start,
            right_pointer: self.right_pointer,
            data: vstd::slice::slice_to_vec(self.data.as_slice()),
            cell_pointer_array: vstd::slice::slice_to_vec(self.cell_pointer_array.as_slice()),
        };
        proof {
            assert(r@ =~= self@);
        }
        r
    }

    /// The page's canonical 4096-byte image.
    pub fn dump(&self) -> (r: Vec<u8>)
        ensures
            r@ == self.data@,
    {
        vstd::slice::slice_to_vec(self.data.as_slice())
    }

    /// The page's kind.
    pub fn get_page_type(&self) -> (r: PageType)
        ensures
            r == self.page_type,
    {
        self.page_type
    }

    /// The page's right pointer.
    pub fn get_right_pointer(&self) -> (r: u32)
        ensures
            r == self.right_pointer,
    {
        self.right_pointer
    }

    /// Parse a page from its byte image. Succeeds exactly on well-formed
    /// images and keeps the image byte for byte, so that `dump` returns it
    /// unchanged.
    #[verifier::loop_isolation(false)]
    #[verifier::rlimit(50)]
    pub fn new_from_read(bytes: &[u8]) -> (r: Result<Page, PageError>)
        ensures
            r is Ok <==> spec_page_wf(bytes@),
            r matches Ok(p) ==> p.inv() && p.data@ == bytes@,
    {
        let data = vstd::slice::slice_to_vec(bytes);
        if data.len() != PAGE_SIZE {
            return Err(PageError::EndOfSliceWhileDeserializing);
        }
        let page_type = match PageType::from_tag(data[0]) {
            Ok(t) => t,
            Err(e) => {
                return Err(e);
            },
        };
        let num_cells = read_u16_be(&data, 3);
        let cells_start = read_u16_be(&data, 5);
        let right_pointer = read_u32_be(&data, 8);
        let n = num_cells as usize;
        if (cells_start as usize) > PAGE_SIZE || PAGE_HEADER_SIZE + 2 * n > cells_start as usize {
            return Err(PageError::CorruptData);
        }
        let mut cell_pointer_array: Vec<u16> = Vec::new();
        let mut i: usize = 0;
        while i < n
            invariant
                i <= n,
                n <= 2042,
                data@.len() == PAGE_SIZE,
                data@ == bytes@,
                num_cells == spec_parsed_num_cells(data@),
                n == num_cells as int,
                cell_pointer_array@.len() == i,
                forall|j: int|
                    0 <= j < i ==> cell_pointer_array@[j] == spec_parsed_ptrs(data@)[j],
            decreases n - i,
        {
            let ptr = read_u16_le(&data, PAGE_HEADER_SIZE + 2 * i);
            cell_pointer_array.push(ptr);
            i += 1;
        }
        proof {
            assert(cell_pointer_array@ =~= spec_parsed_ptrs(data@));
        }
        // Validate each cell: inside the content area, whole, and with keys
        // in strictly ascending order.
        let mut i: usize = 0;
        while i < n
            invariant
                i <= n,
                n <= 2042,
                data@.len() == PAGE_SIZE,
                data@ == bytes@,
                num_cells == spec_parsed_num_cells(data@),
                cells_start == spec_parsed_cells_start(data@),
                n == num_cells as int,
                PAGE_HEADER_SIZE + 2 * n <= cells_start as int <= PAGE_SIZE,
                cell_pointer_array@.len() == n,
                cell_pointer_array@ == spec_parsed_ptrs(data@),
                forall|j: int| 0 <= j < i ==> cells_start <= #[trigger] cell_pointer_array@[j],
                forall|j: int|
                    0 <= j < i ==> #[trigger] spec_cell_in_bounds(
                        data@,
                        cell_pointer_array@[j] as int,
                    ),
                forall|j: int, k: int|
                    0 <= j < k < i ==> spec_key_at(data@, #[trigger] cell_pointer_array@[j] as int)
                        < spec_key_at(data@, #[trigger] cell_pointer_array@[k] as int),
            decreases n - i,
        {
            let ptr = cell_pointer_array[i] as usize;
            if ptr < cells_start as usize || ptr + CELL_FIXED_SIZE > PAGE_SIZE {
                proof {
                    assert(!spec_page_wf(bytes@)) by {
                        if spec_page_wf(bytes@) {
                            assert(cells_start <= spec_parsed_ptrs(bytes@)[i as int]
                                && spec_cell_in_bounds(bytes@, spec_parsed_ptrs(bytes@)[i as int] as int));
                        }
                    }
                }
                return Err(PageError::CellPtrArrayReadError);
            }
            let payload_size = read_u16_be(&data, ptr) as usize;
            if ptr + CELL_FIXED_SIZE + payload_size > PAGE_SIZE {
                proof {
                    assert(!spec_page_wf(bytes@)) by {
                        if spec_page_wf(bytes@) {
                            assert(cells_start <= spec_parsed_ptrs(bytes@)[i as int]
                                && spec_cell_in_bounds(bytes@, spec_parsed_ptrs(bytes@)[i as int] as int));
                        }
                    }
                }
                return Err(PageError::CorruptData);
            }
            proof {
                assert(spec_cell_in_bounds(data@, ptr as int));
            }
            if i > 0 {
                let prev_ptr = cell_pointer_array[i - 1] as usize;
                proof {
                    assert(spec_cell_in_bounds(data@, cell_pointer_array@[i - 1] as int));
                }
                let prev_key = crate::bytes::read_u64_be(&data, prev_ptr + 2);
                let key = crate::bytes::read_u64_be(&data, ptr + 2);
                if prev_key >= key {
                    proof {
                        assert(!spec_page_wf(bytes@)) by {
                            if spec_page_wf(bytes@) {
                                assert(spec_key_at(bytes@, spec_parsed_ptrs(bytes@)[i - 1] as int)
                                    < spec_key_at(bytes@, spec_parsed_ptrs(bytes@)[i as int] as int));
                            }
                        }
                    }
                    return Err(PageError::CorruptData);
                }
                proof {
                    lemma_sorted_extend(
                        Seq::new(
                            n as nat,
                            |j: int| spec_key_at(data@, cell_pointer_array@[j] as int),
                        ),
                        i as int,
                    );
                }
            }
            proof {
                assert(cells_start <= cell_pointer_array@[i as int]);
                assert(spec_cell_in_bounds(data@, cell_pointer_array@[i as int] as int));
            }
            i += 1;
        }
        // Check that distinct cells do not overlap.
        let mut i: usize = 0;
        while i < n
            invariant
                i <= n,
                data@.len() == PAGE_SIZE,
                data@ == bytes@,
                num_cells == spec_parsed_num_cells(data@),
                n == num_cells as int,
                cell_pointer_array@.len() == n,
                cell_pointer_array@ == spec_parsed_ptrs(data@),
                forall|j: int|
                    0 <= j < n ==> #[trigger] spec_cell_in_bounds(
                        data@,
                        cell_pointer_array@[j] as int,
                    ),
                forall|j: int, k: int|
                    0 <= j < k < n && j < i ==> spec_cell_end(
                        data@,
                        #[trigger] cell_pointer_array@[j] as int,
                    ) <= cell_pointer_array@[k] || spec_cell_end(
                        data@,
                        #[trigger] cell_pointer_array@[k] as int,
                    ) <= cell_pointer_array@[j],
            decreases n - i,
        {
            let ptr_i = cell_pointer_array[i] as usize;
            proof {
                assert(spec_cell_in_bounds(data@, cell_pointer_array@[i as int] as int));
            }
            let end_i = ptr_i + CELL_FIXED_SIZE + read_u16_be(&data, ptr_i) as usize;
            let mut j: usize = i + 1;
            while j < n
                invariant
                    i < j <= n,
                    data@.len() == PAGE_SIZE,
                    data@ == bytes@,
                    num_cells == spec_parsed_num_cells(data@),
                    n == num_cells as int,
                    cell_pointer_array@.len() == n,
                    cell_pointer_array@ == spec_parsed_ptrs(data@),
                    ptr_i == cell_pointer_array@[i as int],
                    end_i == spec_cell_end(data@, ptr_i as int),
                    forall|k: int|
                        0 <= k < n ==> #[trigger] spec_cell_in_bounds(
                            data@,
                            cell_pointer_array@[k] as int,
                        ),
                    forall|k: int|
                        i < k < j ==> spec_cell_end(
                            data@,
                            #[trigger] cell_pointer_array@[k] as int,
                        ) <= ptr_i || end_i <= cell_pointer_array@[k],
                decreases n - j,
            {
                let ptr_j = cell_pointer_array[j] as usize;
                proof {
                    assert(spec_cell_in_bounds(data@, cell_pointer_array@[j as int] as int));
                }
                let end_j = ptr_j + CELL_FIXED_SIZE + read_u16_be(&data, ptr_j) as usize;
                if !(end_i <= ptr_j || end_j <= ptr_i) {
                    proof {
                        assert(!spec_page_wf(bytes@)) by {
                            if spec_page_wf(bytes@) {
                                assert(spec_cell_end(bytes@, spec_parsed_ptrs(bytes@)[i as int] as int)
                                    <= spec_parsed_ptrs(bytes@)[j as int] || spec_cell_end(
                                    bytes@,
                                    spec_parsed_ptrs(bytes@)[j as int] as int,
                                ) <= spec_parsed_ptrs(bytes@)[i as int]);
                            }
                        }
                    }
                    return Err(PageError::CorruptData);
                }
                j += 1;
            }
            i += 1;
        }
        let page = Page {
            page_type,
            num_cells,
            cells_start,
            right_pointer,
            data,
            cell_pointer_array,
        };
        proof {
            assert(spec_page_wf(page.data@));
        }
        Ok(page)
    }
    /// Insert a record in key order. Fails with `DuplicateKey` when the key
    /// is already stored, with `PageFull` when the cell does not fit; in
    /// both cases the page is unchanged, byte for byte.
    #[verifier::loop_isolation(false)]
    #[verifier::rlimit(100)]
    pub fn insert(&mut self, key: u64, payload: &[u8], left_child: Option<u32>) -> (r: Result<
        (),
        PageError,
    >)
        requires
            old(self).inv(),
        ensures
            final(self).inv(),
            final(self).page_type == old(self).page_type,
            final(self).right_pointer == old(self).right_pointer,
            old(self).spec_keys().contains(key) ==> r == Err::<(), PageError>(
                PageError::DuplicateKey(key),
            ) && *final(self) == *old(self),
            !old(self).spec_keys().contains(key) && !old(self).spec_has_room(
                payload@.len() as int,
            ) ==> r == Err::<(), PageError>(PageError::PageFull) && *final(self) == *old(self),
            !old(self).spec_keys().contains(key) && old(self).spec_has_room(payload@.len() as int)
                ==> r is Ok && final(self)@ == old(self)@.insert(
                spec_partition(old(self).spec_keys(), key),
                CellModel { key, payload: payload@, left_child: spec_child_or_invalid(left_child) },
            ) && final(self).num_cells == old(self).num_cells + 1 && final(self).cells_start
                == old(self).cells_start - (CELL_FIXED_SIZE + payload@.len()),
    {
        proof {
            self.lemma_keys_sorted();
            lemma_spec_partition(self.spec_keys(), key);
        }
        let ghost keys0 = self.spec_keys();
        let ghost p_spec = spec_partition(keys0, key);
        let (partition, partition_key_opt) = match self.find_partition(key) {
            Ok(pr) => pr,
            Err(e) => {
                return Err(e);
            },
        };
        if let Some(partition_key) = partition_key_opt {
            if partition_key == key {
                proof {
                    assert(keys0.contains(key)) by {
                        assert(keys0[p_spec] == key);
                    }
                }
                return Err(PageError::DuplicateKey(key));
            }
        }
        proof {
            assert(!keys0.contains(key)) by {
                assert forall|j: int| 0 <= j < keys0.len() implies keys0[j] != key by {
                    if j > p_spec {
                        assert(keys0[p_spec] < keys0[j]);
                    }
                }
            }
        }
        // Capacity check before any mutation: the new cell plus the grown
        // pointer array must fit between the header and the content area.
        let n = self.cell_pointer_array.len();
        if payload.len() > PAGE_SIZE {
            return Err(PageError::PageFull);
        }
        let cell_total = CELL_FIXED_SIZE + payload.len();
        if (self.cells_start as usize) < cell_total + PAGE_HEADER_SIZE + 2 * (n + 1) {
            return Err(PageError::PageFull);
        }
        let ghost d0 = self.data@;
        let ghost old_ptrs = self.cell_pointer_array@;
        let ghost cs_old = self.cells_start as int;
        let cell = match DBCell::new(key, payload, left_child) {
            Ok(c) => c,
            Err(_) => {
                proof {
                    assert(false);
                }
                return Err(PageError::InsertError);
            },
        };
        let cell_bytes = cell.to_bytes();
        let new_start = self.cells_start as usize - cell_total;
        // Write the encoded cell just below the old content area.
        write_bytes(&mut self.data, new_start, &cell_bytes);
        let ghost d1 = self.data@;
        proof {
            lemma_cell_encode_decode(d0, new_start as int, cell@);
            assert(forall|k: int| cs_old <= k < PAGE_SIZE ==> d1[k] == d0[k]);
            assert(forall|k: int| 0 <= k < new_start ==> d1[k] == d0[k]);
        }
        // Rewrite the header with the grown count and the new content start.
        write_header(
            &mut self.data,
            self.page_type,
            self.num_cells + 1,
            new_start as u16,
            self.right_pointer,
        );
        let ghost d2 = self.data@;
        self.num_cells = self.num_cells + 1;
        self.cells_start = new_start as u16;
        // Grow the cell-pointer array, keeping key order.
        self.cell_pointer_array.insert(partition, new_start as u16);
        proof {
            old_ptrs.insert_ensures(partition as int, new_start as u16);
        }
        // Rewrite the changed tail of the on-page pointer array.
        let new_n = n + 1;
        write_ptr_entries(&mut self.data, &self.cell_pointer_array, partition);
        let ghost d3 = self.data@;
        let ghost new_ptrs = self.cell_pointer_array@;
        proof {
            let p = partition as int;
            let nn = new_n as int;
            let ns = new_start as int;
            let n0 = n as int;
            // Header fields parsed from the final image.
            assert(d3.subrange(3, 5) =~= d2.subrange(3, 5));
            assert(d3.subrange(5, 7) =~= d2.subrange(5, 7));
            assert(d3.subrange(8, 12) =~= d2.subrange(8, 12));
            assert(spec_parsed_num_cells(d3) == self.num_cells);
            assert(spec_parsed_cells_start(d3) == self.cells_start);
            assert(spec_parsed_right_pointer(d3) == self.right_pointer);
            assert(d3[0] == self.page_type.spec_tag());
            // The parsed pointer array matches the in-memory one.
            old_ptrs.insert_ensures(p, new_start as u16);
            assert(forall|k: int| 12 <= k < 12 + 2 * p ==> d3[k] == d0[k]);
            lemma_parsed_ptrs_after_rewrite(d0, d3, new_ptrs, p);
            assert(spec_parsed_ptrs(d3) =~= spec_parsed_ptrs(d0).insert(p, new_start as u16)) by {
                assert(spec_parsed_ptrs(d0) =~= old_ptrs);
            }
            // Bytes at and above the new cell survive the header and
            // pointer-array writes.
            assert(forall|k: int| ns <= k < PAGE_SIZE ==> d3[k] == d2[k]);
            assert(forall|k: int| ns <= k < PAGE_SIZE ==> d3[k] == d1[k]);
            // Partition facts in terms of the old cells.
            assert(spec_page_cells(d0) =~= old(self)@);
            assert forall|j: int| p <= j < n0 implies spec_page_cells(d0)[j].key > key by {
                assert(keys0[j] == old(self)@[j].key);
                if j > p {
                    assert(keys0[p] < keys0[j]);
                }
                assert(keys0[j] != key);
            }
            assert forall|j: int| 0 <= j < p implies spec_page_cells(d0)[j].key < key by {
                assert(keys0[j] == old(self)@[j].key);
            }
            lemma_insert_reestablish(d0, d1, d3, p, ns, cell@, key);
            assert(self@ =~= spec_page_cells(d3));
            assert(self@ =~= old(self)@.insert(p, cell@));
        }
        Ok(())
    }

    /// Remove the cell pointer at the given index. The freed cell bytes are
    /// not reclaimed, but the content-area start is re-scanned when the
    /// removed cell was the lowest-addressed one.
    #[verifier::loop_isolation(false)]
    #[verifier::rlimit(60)]
    pub fn delete(&mut self, cell_ptr_pos: usize) -> (r: Result<(), PageError>)
        requires
            old(self).inv(),
            old(self)@.len() == 0 || cell_ptr_pos < old(self)@.len(),
        ensures
            final(self).inv(),
            old(self)@.len() == 0 ==> r == Err::<(), PageError>(PageError::DeleteFromEmpty)
                && *final(self) == *old(self),
            old(self)@.len() > 0 ==> {
                &&& r is Ok
                &&& final(self)@ == old(self)@.remove(cell_ptr_pos as int)
                &&& final(self).page_type == old(self).page_type
                &&& final(self).right_pointer == old(self).right_pointer
                &&& final(self).num_cells == old(self).num_cells - 1
                &&& final(self).cell_pointer_array@ == old(self).cell_pointer_array@.remove(
                    cell_ptr_pos as int,
                )
                &&& (old(self).cell_pointer_array@[cell_ptr_pos as int] != old(self).cells_start
                    ==> final(self).cells_start == old(self).cells_start)
                &&& (old(self).cell_pointer_array@[cell_ptr_pos as int] == old(self).cells_start
                    ==> spec_is_min_cells_start(
                    final(self).cells_start,
                    final(self).cell_pointer_array@,
                ))
            },
    {
        let n = self.cell_pointer_array.len();
        if n == 0 {
            return Err(PageError::DeleteFromEmpty);
        }
        let ghost d0 = self.data@;
        let ghost old_ptrs = self.cell_pointer_array@;
        let removed_ptr = self.cell_pointer_array[cell_ptr_pos];
        self.cell_pointer_array.remove(cell_ptr_pos);
        proof {
            old_ptrs.remove_ensures(cell_ptr_pos as int);
            assert forall|j: int|
                0 <= j < self.cell_pointer_array@.len() implies old(self).cells_start
                    <= #[trigger] self.cell_pointer_array@[j] && self.cell_pointer_array@[j] as int
                    + CELL_FIXED_SIZE <= PAGE_SIZE by {
                let oj = if j < cell_ptr_pos {
                    j
                } else {
                    j + 1
                };
                assert(self.cell_pointer_array@[j] == old_ptrs[oj]);
                assert(old(self).cells_start <= spec_parsed_ptrs(d0)[oj]);
                assert(spec_cell_in_bounds(d0, spec_parsed_ptrs(d0)[oj] as int));
            }
        }
        // Rescan for the lowest remaining cell offset when the removed cell
        // was the lowest-addressed one; an empty page starts at the end.
        let mut new_cells_start: u16 = self.cells_start;
        if removed_ptr == self.cells_start {
            new_cells_start = PAGE_SIZE as u16;
            let m = self.cell_pointer_array.len();
            let mut i: usize = 0;
            while i < m
                invariant
                    i <= m,
                    m == self.cell_pointer_array@.len(),
                    old(self).cells_start <= new_cells_start <= PAGE_SIZE,
                    forall|j: int|
                        0 <= j < i ==> new_cells_start <= #[trigger] self.cell_pointer_array@[j],
                    new_cells_start == PAGE_SIZE || exists|j: int|
                        0 <= j < i && new_cells_start == #[trigger] self.cell_pointer_array@[j],
                    i > 0 && m > 0 ==> new_cells_start < PAGE_SIZE,
                decreases m - i,
            {
                let ptr = self.cell_pointer_array[i];
                if ptr < new_cells_start {
                    new_cells_start = ptr;
                }
                proof {
                    if new_cells_start != PAGE_SIZE && new_cells_start
                        != self.cell_pointer_array@[i as int] {
                        assert(exists|j: int|
                            0 <= j < i && new_cells_start == #[trigger] self.cell_pointer_array@[j]);
                    }
                }
                i += 1;
            }
            proof {
                if m > 0 {
                    assert(new_cells_start <= self.cell_pointer_array@[0]);
                }
            }
        }
        write_header(
            &mut self.data,
            self.page_type,
            self.num_cells - 1,
            new_cells_start,
            self.right_pointer,
        );
        self.num_cells = self.num_cells - 1;
        self.cells_start = new_cells_start;
        write_ptr_entries(&mut self.data, &self.cell_pointer_array, cell_ptr_pos);
        let ghost d3 = self.data@;
        proof {
            let p = cell_ptr_pos as int;
            assert(d3.subrange(3, 5) =~= self.data@.subrange(3, 5));
            assert(forall|k: int| 12 <= k < 12 + 2 * p ==> d3[k] == d0[k]);
            lemma_parsed_ptrs_after_rewrite(d0, d3, self.cell_pointer_array@, p);
            assert(forall|k: int|
                spec_parsed_cells_start(d0) <= k < PAGE_SIZE ==> d3[k] == d0[k]);
            lemma_delete_reestablish(d0, d3, p, new_cells_start);
            assert(self@ =~= spec_page_cells(d3));
            assert(old(self)@ =~= spec_page_cells(d0));
            assert(self@ =~= old(self)@.remove(p));
        }
        Ok(())
    }

    /// Overwrite the cell at pointer index `key_index` in place. The stored
    /// key must match `key` and the stored payload must have the same size
    /// as the new one; otherwise nothing changes.
    #[verifier::rlimit(60)]
    pub fn update_same_size(
        &mut self,
        key_index: usize,
        key: u64,
        payload: &[u8],
        left_child: Option<u32>,
    ) -> (r: Result<(), PageError>)
        requires
            old(self).inv(),
            key_index < old(self)@.len(),
        ensures
            final(self).inv(),
            old(self)@[key_index as int].key != key ==> r == Err::<(), PageError>(
                PageError::UpdateNotSameKey(key),
            ) && *final(self) == *old(self),
            old(self)@[key_index as int].key == key && old(self)@[key_index as int].payload.len()
                != payload@.len() ==> r == Err::<(), PageError>(PageError::UpdateNotSameSize)
                && *final(self) == *old(self),
            old(self)@[key_index as int].key == key && old(self)@[key_index as int].payload.len()
                == payload@.len() ==> {
                &&& r is Ok
                &&& final(self)@ == old(self)@.update(
                    key_index as int,
                    (CellModel {
                        key,
                        payload: payload@,
                        left_child: spec_child_or_invalid(left_child),
                    }),
                )
                &&& final(self).page_type == old(self).page_type
                &&& final(self).num_cells == old(self).num_cells
                &&& final(self).cells_start == old(self).cells_start
                &&& final(self).right_pointer == old(self).right_pointer
                &&& final(self).cell_pointer_array == old(self).cell_pointer_array
            },
    {
        proof {
            assert(spec_cell_in_bounds(
                self.data@,
                spec_parsed_ptrs(self.data@)[key_index as int] as int,
            ));
        }
        let ptr = self.cell_pointer_array[key_index] as usize;
        let stored_key = read_u64_be(&self.data, ptr + 2);
        if stored_key != key {
            return Err(PageError::UpdateNotSameKey(key));
        }
        let stored_size = read_u16_be(&self.data, ptr);
        if stored_size as usize != payload.len() {
            return Err(PageError::UpdateNotSameSize);
        }
        let cell = match DBCell::new(key, payload, left_child) {
            Ok(c) => c,
            Err(_) => {
                proof {
                    assert(false);
                }
                return Err(PageError::InsertError);
            },
        };
        let cell_bytes = cell.to_bytes();
        let ghost d0 = self.data@;
        write_bytes(&mut self.data, ptr, &cell_bytes);
        proof {
            lemma_update_reestablish(d0, self.data@, key_index as int, cell@);
            assert(self@ =~= spec_page_cells(self.data@));
            assert(old(self)@ =~= spec_page_cells(d0));
            assert(self@ =~= old(self)@.update(key_index as int, cell@));
        }
        Ok(())
    }

    /// On an interior page, move the last cell's left child into the right
    /// pointer and drop that cell, so that the largest routing key lives in
    /// the right pointer after a split.
    pub fn move_last_left_child_to_right_pointer(&mut self) -> (r: Result<(), PageError>)
        requires
            old(self).inv(),
        ensures
            final(self).inv(),
            old(self)@.len() == 0 ==> r == Err::<(), PageError>(
                PageError::CannotGetFirstOrLastKey,
            ) && *final(self) == *old(self),
            old(self)@.len() > 0 ==> {
                &&& r is Ok
                &&& final(self)@ == old(self)@.drop_last()
                &&& final(self).right_pointer == old(self)@.last().left_child
                &&& final(self).page_type == old(self).page_type
                &&& final(self).num_cells == old(self).num_cells - 1
            },
    {
        let n = self.cell_pointer_array.len();
        if n == 0 {
            return Err(PageError::CannotGetFirstOrLastKey);
        }
        let last_cell = self.decode_cell(n - 1);
        self.set_right_pointer(last_cell.left_child);
        let r = self.delete(n - 1);
        proof {
            assert(old(self)@.remove(n - 1) =~= old(self)@.drop_last());
        }
        r
    }

    /// Split a page into two halves of the same kind, consuming it. The
    /// first `(n + 1) / 2` cells go to the left page, the rest to the right
    /// page; the right page inherits the original right pointer, the left
    /// page gets none. Keys stay globally sorted across the pair.
    #[verifier::loop_isolation(false)]
    #[verifier::rlimit(100)]
    pub fn split_page(self) -> (r: Result<(Page, Page), PageError>)
        requires
            self.inv(),
        ensures
            r is Ok,
            r matches Ok(pair) ==> {
                &&& pair.0.inv()
                &&& pair.1.inv()
                &&& pair.0.page_type == self.page_type
                &&& pair.1.page_type == self.page_type
                &&& pair.0@ == self@.take(spec_split_point(self@.len() as int))
                &&& pair.1@ == self@.skip(spec_split_point(self@.len() as int))
                &&& pair.0.right_pointer == INVALID_PAGE_NUM
                &&& pair.1.right_pointer == self.right_pointer
            },
    {
        proof {
            self.lemma_keys_sorted();
            self.lemma_view_is_page_cells();
            lemma_page_room(self.data@);
            assert(spec_cells_bytes_len(self@) + PAGE_HEADER_SIZE + 2 * self@.len() <= PAGE_SIZE)
                by {
                assert(self@ =~= spec_page_cells(self.data@));
            }
            assert forall|j: int, k: int|
                0 <= j < k < self@.len() implies #[trigger] self@[j].key
                < #[trigger] self@[k].key by {
                assert(self.spec_keys()[j] == self@[j].key);
                assert(self.spec_keys()[k] == self@[k].key);
            }
        }
        let n = self.cell_pointer_array.len();
        let split_point = (n + 1) / 2;
        let mut left = Page::new(self.page_type);
        let mut right = Page::new(self.page_type);
        let mut i: usize = 0;
        while i < n
            invariant
                i <= n,
                n == self@.len(),
                split_point == spec_split_point(n as int),
                split_point <= n,
                self.inv(),
                left.inv(),
                right.inv(),
                left.page_type == self.page_type,
                right.page_type == self.page_type,
                left.right_pointer == INVALID_PAGE_NUM,
                right.right_pointer == INVALID_PAGE_NUM,
                i <= split_point ==> left@ == self@.take(i as int) && right@ == Seq::<
                    CellModel,
                >::empty(),
                i > split_point ==> left@ == self@.take(split_point as int) && right@
                    == self@.subrange(split_point as int, i as int),
                left.num_cells == left@.len(),
                right.num_cells == right@.len(),
                left.cells_start == PAGE_SIZE - spec_cells_bytes_len(left@),
                right.cells_start == PAGE_SIZE - spec_cells_bytes_len(right@),
            decreases n - i,
        {
            let cell = self.decode_cell(i);
            proof {
                assert(cell@ == self@[i as int]);
                assert(cell.payload@.len() == self@[i as int].payload.len());
            }
            if i < split_point {
                proof {
                    lemma_split_step(self@, left@, cell@, 0, i as int);
                }
                push_max_cell(&mut left, &cell);
                proof {
                    assert(left@ =~= self@.take(i + 1));
                }
            } else {
                proof {
                    assert(right@ =~= self@.subrange(split_point as int, i as int));
                    lemma_split_step(self@, right@, cell@, split_point as int, i as int);
                }
                push_max_cell(&mut right, &cell);
                proof {
                    assert(right@ =~= self@.subrange(split_point as int, i + 1));
                }
            }
            i += 1;
        }
        right.set_right_pointer(self.right_pointer);
        proof {
            assert(left@ =~= self@.take(split_point as int));
            assert(right@ =~= self@.skip(split_point as int));
        }
        Ok((left, right))
    }

    /// The left children of the page's cells followed by its right
    /// pointer, skipping absent (`INVALID_PAGE_NUM`) entries: the pages
    /// reachable one level down from this page.
    pub fn children_iter(&self) -> (r: Vec<u32>)
        requires
            self.inv(),
        ensures
            r@ == spec_child_list(self@) + (if self.right_pointer == INVALID_PAGE_NUM {
                Seq::<u32>::empty()
            } else {
                seq![self.right_pointer]
            }),
    {
        let mut out: Vec<u32> = Vec::new();
        let n = self.cell_pointer_array.len();
        let mut i: usize = 0;
        while i < n
            invariant
                i <= n,
                n == self@.len(),
                self.inv(),
                out@ == spec_child_list(self@.take(i as int)),
            decreases n - i,
        {
            let cell = self.decode_cell(i);
            if cell.left_child != INVALID_PAGE_NUM {
                out.push(cell.left_child);
            }
            proof {
                assert(self@.take(i + 1).drop_last() =~= self@.take(i as int));
                assert(out@ =~= spec_child_list(self@.take(i + 1)));
            }
            i += 1;
        }
        proof {
            assert(self@.take(n as int) =~= self@);
        }
        if self.right_pointer != INVALID_PAGE_NUM {
            let rp = self.right_pointer;
            out.push(rp);
        }
        proof {
            assert(out@ =~= spec_child_list(self@) + (if self.right_pointer == INVALID_PAGE_NUM {
                Seq::<u32>::empty()
            } else {
                seq![self.right_pointer]
            }));
        }
        out
    }

    /// Decode every cell payload on this (leaf) page as a row, in key
    /// order. Fails when a payload is not a valid row encoding.
    pub fn rows_iter(&self) -> (r: Result<Vec<crate::row::Row>, PageError>)
        requires
            self.inv(),
        ensures
            r is Ok <==> (forall|i: int|
                0 <= i < self@.len() ==> crate::row::spec_is_row_encoding(
                    (#[trigger] self@[i]).payload,
                )),
            r matches Ok(v) ==> {
                &&& v@.len() == self@.len()
                &&& forall|i: int|
                    0 <= i < v@.len() ==> crate::row::spec_row_bytes(
                        (#[trigger] v@[i]).rowid,
                        v@[i].attributes@,
                    ) == self@[i].payload
            },
            r matches Err(e) ==> e == PageError::CorruptData,
    {
        let mut out: Vec<crate::row::Row> = Vec::new();
        let n = self.cell_pointer_array.len();
        let mut i: usize = 0;
        while i < n
            invariant
                i <= n,
                n == self@.len(),
                self.inv(),
                out@.len() == i,
                forall|j: int|
                    0 <= j < i ==> crate::row::spec_row_bytes(
                        (#[trigger] out@[j]).rowid,
                        out@[j].attributes@,
                    ) == self@[j].payload,
                forall|j: int|
                    0 <= j < i ==> crate::row::spec_is_row_encoding((#[trigger] self@[j]).payload),
            decreases n - i,
        {
            let cell = self.decode_cell(i);
            match crate::row::Row::deserialize(cell.payload.as_slice()) {
                Ok(row) => {
                    out.push(row);
                },
                Err(()) => {
                    proof {
                        assert(!crate::row::spec_is_row_encoding(self@[i as int].payload));
                    }
                    return Err(PageError::CorruptData);
                },
            }
            i += 1;
        }
        Ok(out)
    }

    /// No-overlap law: on any well-formed page the cell content area
    /// starts at or after the end of the cell-pointer array, so the two
    /// regions never overlap.
    pub proof fn lemma_no_overlap(self)
        requires
            self.inv(),
        ensures
            PAGE_HEADER_SIZE + 2 * self@.len() <= self.cells_start <= PAGE_SIZE,
    {
        self.lemma_view_is_page_cells();
    }

    /// Key-uniqueness law, per page: no two cells of a well-formed page
    /// share a key.
    pub proof fn lemma_page_keys_unique(self)
        requires
            self.inv(),
        ensures
            forall|i: int, j: int|
                0 <= i < j < self@.len() ==> self.spec_keys()[i] != self.spec_keys()[j],
    {
        self.lemma_keys_sorted();
    }

    /// The view lists exactly the cells recorded in the byte image.
    pub proof fn lemma_view_is_page_cells(self)
        requires
            self.inv(),
        ensures
            self@ =~= spec_page_cells(self.data@),
            self@.len() == self.num_cells as int,
    {
    }

    /// Keys are strictly ascending across the whole page.
    pub proof fn lemma_keys_sorted(self)
        requires
            self.inv(),
        ensures
            forall|i: int, j: int|
                0 <= i < j < self@.len() ==> self.spec_keys()[i] < self.spec_keys()[j],
    {
        assert forall|i: int, j: int|
            0 <= i < j < self@.len() implies self.spec_keys()[i] < self.spec_keys()[j] by {
            assert(spec_key_at(self.data@, spec_parsed_ptrs(self.data@)[i] as int) < spec_key_at(
                self.data@,
                spec_parsed_ptrs(self.data@)[j] as int,
            ));
        }
    }

    /// Read the key of the cell at cell-pointer index `i`.
    fn key_at_index(&self, i: usize) -> (r: u64)
        requires
            self.inv(),
            i < self@.len(),
        ensures
            r == self.spec_keys()[i as int],
    {
        proof {
            assert(spec_cell_in_bounds(self.data@, spec_parsed_ptrs(self.data@)[i as int] as int));
        }
        let ptr = self.cell_pointer_array[i];
        read_u64_be(&self.data, ptr as usize + 2)
    }

    /// Decode the cell at cell-pointer index `i`.
    pub fn decode_cell(&self, i: usize) -> (c: DBCell)
        requires
            self.inv(),
            i < self@.len(),
        ensures
            c.wf(),
            c@ == self@[i as int],
    {
        proof {
            assert(spec_cell_in_bounds(self.data@, spec_parsed_ptrs(self.data@)[i as int] as int));
        }
        let ptr = self.cell_pointer_array[i] as usize;
        let payload_size = read_u16_be(&self.data, ptr);
        let key = read_u64_be(&self.data, ptr + 2);
        let ps = payload_size as usize;
        let mut payload: Vec<u8> = Vec::new();
        let mut j: usize = 0;
        while j < ps
            invariant
                j <= ps,
                ptr + CELL_FIXED_SIZE + ps <= PAGE_SIZE,
                self.data@.len() == PAGE_SIZE,
                payload@ =~= self.data@.subrange(ptr + 10, ptr + 10 + j),
            decreases ps - j,
        {
            payload.push(self.data[ptr + 10 + j]);
            proof {
                assert(payload@ =~= self.data@.subrange(ptr + 10, ptr + 10 + j + 1));
            }
            j += 1;
        }
        let left_child = read_u32_be(&self.data, ptr + 10 + ps);
        DBCell { payload_size, key, payload, left_child }
    }

    /// All the keys of the page's cells, in cell-pointer order.
    pub fn get_keys(&self) -> (r: Result<Vec<u64>, PageError>)
        requires
            self.inv(),
        ensures
            r is Ok,
            r matches Ok(v) ==> v@ == self.spec_keys(),
    {
        let n = self.cell_pointer_array.len();
        let mut keys: Vec<u64> = Vec::new();
        let mut i: usize = 0;
        while i < n
            invariant
                i <= n,
                n == self@.len(),
                self.inv(),
                keys@.len() == i,
                forall|j: int| 0 <= j < i ==> keys@[j] == self.spec_keys()[j],
            decreases n - i,
        {
            keys.push(self.key_at_index(i));
            i += 1;
        }
        proof {
            assert(keys@ =~= self.spec_keys());
        }
        Ok(keys)
    }

    /// Key of the first (lowest-keyed) cell; fails on an empty page.
    pub fn get_first_key(&self) -> (r: Result<u64, PageError>)
        requires
            self.inv(),
        ensures
            r is Ok <==> self@.len() > 0,
            r matches Ok(k) ==> k == self.spec_keys()[0],
            r matches Err(e) ==> e == PageError::CannotGetFirstOrLastKey,
    {
        if self.cell_pointer_array.len() == 0 {
            return Err(PageError::CannotGetFirstOrLastKey);
        }
        Ok(self.key_at_index(0))
    }

    /// Key of the last (highest-keyed) cell; fails on an empty page.
    pub fn get_last_key(&self) -> (r: Result<u64, PageError>)
        requires
            self.inv(),
        ensures
            r is Ok <==> self@.len() > 0,
            r matches Ok(k) ==> k == self.spec_keys()[self@.len() - 1],
            r matches Err(e) ==> e == PageError::CannotGetFirstOrLastKey,
    {
        let n = self.cell_pointer_array.len();
        if n == 0 {
            return Err(PageError::CannotGetFirstOrLastKey);
        }
        Ok(self.key_at_index(n - 1))
    }

    /// Find the partition point of `new_key` in the sorted keys: the lowest
    /// index whose key is at least `new_key`, together with the key stored
    /// there (or nothing when every key is smaller).
    pub fn find_partition(&self, new_key: u64) -> (r: Result<(usize, Option<u64>), PageError>)
        requires
            self.inv(),
        ensures
            r is Ok,
            r matches Ok(pr) ==> pr.0 == spec_partition(self.spec_keys(), new_key) && pr.1 == (
            if pr.0 < self@.len() {
                Some(self.spec_keys()[pr.0 as int])
            } else {
                Option::<u64>::None
            }),
    {
        proof {
            self.lemma_keys_sorted();
            lemma_spec_partition(self.spec_keys(), new_key);
        }
        let n = self.cell_pointer_array.len();
        let mut lo: usize = 0;
        let mut hi: usize = n;
        while lo < hi
            invariant
                lo <= hi <= n,
                n == self@.len(),
                self.inv(),
                forall|j: int| 0 <= j < lo ==> self.spec_keys()[j] < new_key,
                forall|j: int| hi <= j < n ==> self.spec_keys()[j] >= new_key,
            decreases hi - lo,
        {
            let mid = lo + (hi - lo) / 2;
            let k = self.key_at_index(mid);
            if k < new_key {
                proof {
                    assert forall|j: int| 0 <= j < mid + 1 implies self.spec_keys()[j]
                        < new_key by {
                        if j < mid {
                            assert(self.spec_keys()[j] < self.spec_keys()[mid as int]);
                        }
                    }
                }
                lo = mid + 1;
            } else {
                proof {
                    assert forall|j: int| mid <= j < n implies self.spec_keys()[j] >= new_key by {
                        if j > mid {
                            assert(self.spec_keys()[mid as int] < self.spec_keys()[j]);
                        }
                    }
                }
                hi = mid;
            }
        }
        proof {
            let p = spec_partition(self.spec_keys(), new_key);
            if lo < p {
                assert(self.spec_keys()[lo as int] >= new_key);
                assert(self.spec_keys()[lo as int] < new_key);
            }
            if p < lo {
                assert(self.spec_keys()[p] >= new_key);
                assert(self.spec_keys()[p] < new_key);
            }
        }
        if lo >= n {
            Ok((n, None))
        } else {
            Ok((lo, Some(self.key_at_index(lo))))
        }
    }

    /// On an interior page, the page number of the child to follow when
    /// looking for `key`: the left child of the partition cell, or the right
    /// pointer when every stored key is smaller than `key`.
    pub fn get_next_page_pointer(&self, key: u64) -> (r: Result<u32, PageError>)
        requires
            self.inv(),
        ensures
            r is Ok,
            r matches Ok(p) ==> p == (if spec_partition(self.spec_keys(), key) == self@.len() {
                self.right_pointer
            } else {
                self@[spec_partition(self.spec_keys(), key)].left_child
            }),
    {
        proof {
            lemma_spec_partition(self.spec_keys(), key);
        }
        let (partition, partition_key) = match self.find_partition(key) {
            Ok(pr) => pr,
            Err(e) => {
                return Err(e);
            },
        };
        if partition_key.is_none() {
            return Ok(self.right_pointer);
        }
        let cell = self.decode_cell(partition);
        Ok(cell.left_child)
    }

    /// Overwrite the right pointer in the page's header.
    pub fn set_right_pointer(&mut self, right_pointer: u32)
        requires
            old(self).inv(),
        ensures
            final(self).inv(),
            final(self)@ == old(self)@,
            final(self).page_type == old(self).page_type,
            final(self).num_cells == old(self).num_cells,
            final(self).cells_start == old(self).cells_start,
            final(self).cell_pointer_array == old(self).cell_pointer_array,
            final(self).right_pointer == right_pointer,
            final(self).data@.len() == old(self).data@.len(),
            forall|k: int|
                0 <= k < old(self).data@.len() && !(8 <= k < 12) ==> final(self).data@[k] == old(
                    self,
                ).data@[k],
    {
        write_u32_be(&mut self.data, 8, right_pointer);
        self.right_pointer = right_pointer;
        proof {
            let b1 = old(self).data@;
            let b2 = self.data@;
            let wb = spec_u32_to_be(right_pointer);
            lemma_u32_be_round_trip(right_pointer);
            crate::bytes::lemma_spec_write_outside(b1, 8, wb, 3, 5);
            crate::bytes::lemma_spec_write_outside(b1, 8, wb, 5, 7);
            crate::bytes::lemma_spec_write_inside(b1, 8, wb, 8, 12);
            assert(b2.subrange(8, 12) =~= wb);
            assert forall|i: int| 0 <= i < spec_parsed_num_cells(b1) implies #[trigger] spec_parsed_ptrs(
                b2,
            )[i] == spec_parsed_ptrs(b1)[i] by {
                crate::bytes::lemma_spec_write_outside(b1, 8, wb, 12 + 2 * i, 14 + 2 * i);
            }
            assert(spec_parsed_ptrs(b2) =~= spec_parsed_ptrs(b1));
            lemma_page_cells_agree(b1, b2);
            assert(self@ =~= old(self)@);
        }
    }
}

/// Two images with the same header counts, the same cell pointers and the
/// same content area hold the same cells; well-formedness carries over.
pub proof fn lemma_page_cells_agree(b1: Seq<u8>, b2: Seq<u8>)
    requires
        spec_page_wf(b1),
        b2.len() == b1.len(),
        b2[0] == b1[0],
        spec_parsed_num_cells(b2) == spec_parsed_num_cells(b1),
        spec_parsed_cells_start(b2) == spec_parsed_cells_start(b1),
        spec_parsed_ptrs(b2) == spec_parsed_ptrs(b1),
        forall|k: int| spec_parsed_cells_start(b1) <= k < b1.len() ==> b2[k] == b1[k],
    ensures
        spec_page_wf(b2),
        spec_page_cells(b2) == spec_page_cells(b1),
{
    let n = spec_parsed_num_cells(b1) as int;
    assert forall|i: int| 0 <= i < n implies {
        &&& spec_cell_in_bounds(b2, #[trigger] spec_parsed_ptrs(b2)[i] as int)
        &&& spec_cell_at(b2, spec_parsed_ptrs(b2)[i] as int) == spec_cell_at(
            b1,
            spec_parsed_ptrs(b1)[i] as int,
        )
        &&& spec_cell_end(b2, spec_parsed_ptrs(b2)[i] as int) == spec_cell_end(
            b1,
            spec_parsed_ptrs(b1)[i] as int,
        )
        &&& spec_key_at(b2, spec_parsed_ptrs(b2)[i] as int) == spec_key_at(
            b1,
            spec_parsed_ptrs(b1)[i] as int,
        )
    } by {
        assert(spec_cell_in_bounds(b1, spec_parsed_ptrs(b1)[i] as int));
        lemma_cell_at_agree(b1, b2, spec_parsed_ptrs(b1)[i] as int);
    }
    assert(spec_page_cells(b2) =~= spec_page_cells(b1));
}

/// Encoded sizes add up over concatenation.
pub proof fn lemma_cells_bytes_len_concat(a: Seq<CellModel>, b: Seq<CellModel>)
    ensures
        spec_cells_bytes_len(a + b) == spec_cells_bytes_len(a) + spec_cells_bytes_len(b),
    decreases b.len(),
{
    if b.len() == 0 {
        assert(a + b =~= a);
    } else {
        lemma_cells_bytes_len_concat(a, b.drop_last());
        assert((a + b).drop_last() =~= a + b.drop_last());
        assert((a + b).last() == b.last());
    }
}

/// The encoded size of a sequence of cells is never negative.
pub proof fn lemma_cells_bytes_len_nonneg(v: Seq<CellModel>)
    ensures
        spec_cells_bytes_len(v) >= 0,
    decreases v.len(),
{
    if v.len() > 0 {
        lemma_cells_bytes_len_nonneg(v.drop_last());
    }
}

/// The encoded size of a single cell.
pub proof fn lemma_cells_bytes_len_single(c: CellModel)
    ensures
        spec_cells_bytes_len(seq![c]) == CELL_FIXED_SIZE + c.payload.len(),
{
    assert(spec_cells_bytes_len(Seq::<CellModel>::empty()) == 0);
    assert(seq![c].drop_last() =~= Seq::<CellModel>::empty());
}

/// Inserting a cell grows the encoded size by that cell's size.
pub proof fn lemma_cells_bytes_len_insert(v: Seq<CellModel>, i: int, c: CellModel)
    requires
        0 <= i <= v.len(),
    ensures
        spec_cells_bytes_len(v.insert(i, c)) == spec_cells_bytes_len(v) + CELL_FIXED_SIZE
            + c.payload.len(),
{
    assert(v.insert(i, c) =~= v.take(i) + (seq![c] + v.skip(i)));
    lemma_cells_bytes_len_concat(v.take(i), seq![c] + v.skip(i));
    lemma_cells_bytes_len_concat(seq![c], v.skip(i));
    lemma_cells_bytes_len_single(c);
    assert(v =~= v.take(i) + v.skip(i));
    lemma_cells_bytes_len_concat(v.take(i), v.skip(i));
}

/// Total size of the cells at the given offsets.
spec fn spec_ptrs_bytes_len(b: Seq<u8>, ptrs: Seq<u16>) -> int
    decreases ptrs.len(),
{
    if ptrs.len() == 0 {
        0
    } else {
        spec_ptrs_bytes_len(b, ptrs.drop_last()) + CELL_FIXED_SIZE + spec_payload_size_at(
            b,
            ptrs.last() as int,
        )
    }
}

/// Cell sizes at offsets add up over concatenation.
proof fn lemma_ptrs_bytes_len_concat(b: Seq<u8>, a1: Seq<u16>, a2: Seq<u16>)
    ensures
        spec_ptrs_bytes_len(b, a1 + a2) == spec_ptrs_bytes_len(b, a1) + spec_ptrs_bytes_len(b, a2),
    decreases a2.len(),
{
    if a2.len() == 0 {
        assert(a1 + a2 =~= a1);
    } else {
        lemma_ptrs_bytes_len_concat(b, a1, a2.drop_last());
        assert((a1 + a2).drop_last() =~= a1 + a2.drop_last());
        assert((a1 + a2).last() == a2.last());
    }
}

/// An index of a smallest element exists in a non-empty offset list.
spec fn spec_is_min_ptr(ptrs: Seq<u16>, m: int) -> bool {
    &&& 0 <= m < ptrs.len()
    &&& forall|j: int| 0 <= j < ptrs.len() ==> ptrs[m] <= #[trigger] ptrs[j]
}

proof fn lemma_exists_min_ptr(ptrs: Seq<u16>)
    requires
        ptrs.len() > 0,
    ensures
        exists|m: int| spec_is_min_ptr(ptrs, m),
    decreases ptrs.len(),
{
    if ptrs.len() == 1 {
        assert(spec_is_min_ptr(ptrs, 0));
    } else {
        lemma_exists_min_ptr(ptrs.drop_last());
        let m = choose|m: int| spec_is_min_ptr(ptrs.drop_last(), m);
        if ptrs[m] <= ptrs.last() {
            assert forall|j: int| 0 <= j < ptrs.len() implies ptrs[m] <= #[trigger] ptrs[j] by {
                if j < ptrs.len() - 1 {
                    assert(ptrs.drop_last()[j] == ptrs[j]);
                }
            }
            assert(spec_is_min_ptr(ptrs, m));
        } else {
            assert forall|j: int| 0 <= j < ptrs.len() implies ptrs[ptrs.len() - 1]
                <= #[trigger] ptrs[j] by {
                if j < ptrs.len() - 1 {
                    assert(ptrs.drop_last()[m] <= ptrs.drop_last()[j]);
                }
            }
            assert(spec_is_min_ptr(ptrs, ptrs.len() - 1));
        }
    }
}

/// Pairwise-disjoint whole cells that all sit at or above `lo` together
/// occupy at most the space from `lo` to the end of the page.
proof fn lemma_cells_packing(b: Seq<u8>, ptrs: Seq<u16>, lo: int)
    requires
        b.len() == PAGE_SIZE,
        0 <= lo <= PAGE_SIZE,
        forall|i: int| 0 <= i < ptrs.len() ==> lo <= #[trigger] ptrs[i],
        forall|i: int| 0 <= i < ptrs.len() ==> spec_cell_in_bounds(b, #[trigger] ptrs[i] as int),
        forall|i: int, j: int|
            0 <= i < j < ptrs.len() ==> spec_cell_end(b, #[trigger] ptrs[i] as int) <= ptrs[j]
                || spec_cell_end(b, #[trigger] ptrs[j] as int) <= ptrs[i],
    ensures
        0 <= spec_ptrs_bytes_len(b, ptrs) <= PAGE_SIZE - lo,
    decreases ptrs.len(),
{
    if ptrs.len() == 0 {
    } else {
        lemma_exists_min_ptr(ptrs);
        let m = choose|m: int| spec_is_min_ptr(ptrs, m);
        let pm = ptrs[m] as int;
        let end_m = spec_cell_end(b, pm);
        let rest = ptrs.remove(m);
        ptrs.remove_ensures(m);
        // Every other cell starts at or after the smallest cell's end.
        assert forall|i: int| 0 <= i < rest.len() implies end_m <= #[trigger] rest[i] by {
            let oi = if i < m {
                i
            } else {
                i + 1
            };
            assert(rest[i] == ptrs[oi]);
            assert(spec_cell_end(b, ptrs[oi] as int) > ptrs[oi]);
            if oi < m {
                assert(spec_cell_end(b, ptrs[oi] as int) <= ptrs[m] || spec_cell_end(b, pm)
                    <= ptrs[oi]);
            } else {
                assert(spec_cell_end(b, pm) <= ptrs[oi] || spec_cell_end(b, ptrs[oi] as int)
                    <= ptrs[m]);
            }
        }
        assert forall|i: int, j: int|
            0 <= i < j < rest.len() implies spec_cell_end(b, #[trigger] rest[i] as int) <= rest[j]
            || spec_cell_end(b, #[trigger] rest[j] as int) <= rest[i] by {
            let oi = if i < m {
                i
            } else {
                i + 1
            };
            let oj = if j < m {
                j
            } else {
                j + 1
            };
            assert(rest[i] == ptrs[oi]);
            assert(rest[j] == ptrs[oj]);
        }
        lemma_cells_packing(b, rest, end_m);
        // The total splits into the smallest cell plus the rest.
        assert(spec_ptrs_bytes_len(b, ptrs) == spec_ptrs_bytes_len(b, rest) + CELL_FIXED_SIZE
            + spec_payload_size_at(b, pm)) by {
            assert(ptrs =~= rest.take(m) + (seq![ptrs[m]] + rest.skip(m)));
            lemma_ptrs_bytes_len_concat(b, rest.take(m), seq![ptrs[m]] + rest.skip(m));
            lemma_ptrs_bytes_len_concat(b, seq![ptrs[m]], rest.skip(m));
            assert(spec_ptrs_bytes_len(b, seq![ptrs[m]]) == CELL_FIXED_SIZE
                + spec_payload_size_at(b, pm)) by {
                assert(spec_ptrs_bytes_len(b, Seq::<u16>::empty()) == 0);
                assert(seq![ptrs[m]].drop_last() =~= Seq::<u16>::empty());
            }
            assert(rest =~= rest.take(m) + rest.skip(m));
            lemma_ptrs_bytes_len_concat(b, rest.take(m), rest.skip(m));
        }
    }
}

/// The per-offset total equals the per-cell total.
proof fn lemma_ptrs_bytes_len_is_cells(b: Seq<u8>, ptrs: Seq<u16>)
    requires
        forall|i: int| 0 <= i < ptrs.len() ==> spec_cell_in_bounds(b, #[trigger] ptrs[i] as int),
    ensures
        spec_ptrs_bytes_len(b, ptrs) == spec_cells_bytes_len(
            Seq::new(ptrs.len(), |i: int| spec_cell_at(b, ptrs[i] as int)),
        ),
    decreases ptrs.len(),
{
    let cells = Seq::new(ptrs.len(), |i: int| spec_cell_at(b, ptrs[i] as int));
    if ptrs.len() == 0 {
        assert(cells =~= Seq::<CellModel>::empty());
    } else {
        lemma_ptrs_bytes_len_is_cells(b, ptrs.drop_last());
        assert(cells.drop_last() =~= Seq::new(
            ptrs.drop_last().len(),
            |i: int| spec_cell_at(b, ptrs.drop_last()[i] as int),
        ));
        assert(cells.last().payload.len() == spec_payload_size_at(b, ptrs.last() as int));
    }
}

/// In a well-formed page, the cells all fit between the pointer array and
/// the end of the page.
pub proof fn lemma_page_room(b: Seq<u8>)
    requires
        spec_page_wf(b),
    ensures
        0 <= spec_cells_bytes_len(spec_page_cells(b)),
        spec_cells_bytes_len(spec_page_cells(b)) + PAGE_HEADER_SIZE + 2 * spec_parsed_num_cells(b)
            <= PAGE_SIZE,
        spec_cells_bytes_len(spec_page_cells(b)) <= PAGE_SIZE - spec_parsed_cells_start(b),
{
    lemma_cells_packing(b, spec_parsed_ptrs(b), spec_parsed_cells_start(b) as int);
    lemma_ptrs_bytes_len_is_cells(b, spec_parsed_ptrs(b));
    assert(spec_page_cells(b) =~= Seq::new(
        spec_parsed_ptrs(b).len(),
        |i: int| spec_cell_at(b, spec_parsed_ptrs(b)[i] as int),
    ));
}

/// Write the cell-pointer entries from `start` on into the on-page array.
fn write_ptr_entries(data: &mut Vec<u8>, ptrs: &Vec<u16>, start: usize)
    requires
        old(data)@.len() == PAGE_SIZE,
        start <= ptrs@.len(),
        PAGE_HEADER_SIZE + 2 * ptrs@.len() <= PAGE_SIZE,
    ensures
        final(data)@.len() == PAGE_SIZE,
        forall|k: int|
            0 <= k < PAGE_SIZE && !(PAGE_HEADER_SIZE + 2 * start <= k < PAGE_HEADER_SIZE + 2
                * ptrs@.len()) ==> final(data)@[k] == old(data)@[k],
        forall|j: int|
            start <= j < ptrs@.len() ==> final(data)@.subrange(12 + 2 * j, 14 + 2 * j)
                == spec_u16_to_le(ptrs@[j]),
{
    let n = ptrs.len();
    let mut i: usize = start;
    while i < n
        invariant
            start <= i <= n,
            n == ptrs@.len(),
            PAGE_HEADER_SIZE + 2 * n <= PAGE_SIZE,
            data@.len() == PAGE_SIZE,
            forall|k: int|
                0 <= k < PAGE_SIZE && !(PAGE_HEADER_SIZE + 2 * start <= k < PAGE_HEADER_SIZE + 2
                    * i) ==> data@[k] == old(data)@[k],
            forall|j: int|
                start <= j < i ==> data@.subrange(12 + 2 * j, 14 + 2 * j) == spec_u16_to_le(
                    ptrs@[j],
                ),
        decreases n - i,
    {
        let ghost before = data@;
        write_u16_le(data, PAGE_HEADER_SIZE + 2 * i, ptrs[i]);
        proof {
            assert forall|j: int|
                start <= j < i + 1 implies data@.subrange(12 + 2 * j, 14 + 2 * j)
                == spec_u16_to_le(ptrs@[j]) by {
                if j < i {
                    assert(data@.subrange(12 + 2 * j, 14 + 2 * j) =~= before.subrange(
                        12 + 2 * j,
                        14 + 2 * j,
                    ));
                } else {
                    assert(data@.subrange(12 + 2 * j, 14 + 2 * j) =~= spec_u16_to_le(ptrs@[j]));
                }
            }
        }
        i += 1;
    }
}

/// An image whose pointer-array prefix kept its old bytes and whose tail
/// was rewritten from `new_ptrs` parses back exactly `new_ptrs`.
proof fn lemma_parsed_ptrs_after_rewrite(d0: Seq<u8>, d3: Seq<u8>, new_ptrs: Seq<u16>, p: int)
    requires
        d0.len() == PAGE_SIZE,
        d3.len() == PAGE_SIZE,
        spec_parsed_num_cells(d3) == new_ptrs.len(),
        PAGE_HEADER_SIZE + 2 * new_ptrs.len() <= PAGE_SIZE,
        0 <= p <= new_ptrs.len(),
        p <= spec_parsed_ptrs(d0).len(),
        forall|j: int| 0 <= j < p ==> new_ptrs[j] == spec_parsed_ptrs(d0)[j],
        forall|k: int| 12 <= k < 12 + 2 * p ==> d3[k] == d0[k],
        forall|j: int|
            p <= j < new_ptrs.len() ==> d3.subrange(12 + 2 * j, 14 + 2 * j) == spec_u16_to_le(
                new_ptrs[j],
            ),
    ensures
        spec_parsed_ptrs(d3) == new_ptrs,
{
    assert forall|j: int| 0 <= j < new_ptrs.len() implies #[trigger] spec_parsed_ptrs(d3)[j]
        == new_ptrs[j] by {
        if j < p {
            assert(d3.subrange(12 + 2 * j, 14 + 2 * j) =~= d0.subrange(12 + 2 * j, 14 + 2 * j));
        } else {
            lemma_u16_le_round_trip(new_ptrs[j]);
        }
    }
    assert(spec_parsed_ptrs(d3) =~= new_ptrs);
}

/// After writing a new cell at `ns`, updating the header counts and
/// inserting its pointer at position `p`, the image is again well formed
/// and holds the old cells with the new one inserted at `p`.
#[verifier::rlimit(100)]
proof fn lemma_insert_reestablish(
    d0: Seq<u8>,
    d1: Seq<u8>,
    d3: Seq<u8>,
    p: int,
    ns: int,
    c: CellModel,
    key: u64,
)
    requires
        spec_page_wf(d0),
        c.key == key,
        c.payload.len() <= MAX_CELL_PAYLOAD,
        0 <= p <= spec_parsed_num_cells(d0),
        PAGE_HEADER_SIZE + 2 * (spec_parsed_num_cells(d0) + 1) <= ns,
        ns + CELL_FIXED_SIZE + c.payload.len() == spec_parsed_cells_start(d0),
        d1 == spec_write(d0, ns, spec_cell_bytes(c)),
        d3.len() == PAGE_SIZE,
        d3[0] == d0[0],
        spec_parsed_num_cells(d3) == spec_parsed_num_cells(d0) + 1,
        spec_parsed_cells_start(d3) == ns,
        spec_parsed_ptrs(d3) == spec_parsed_ptrs(d0).insert(p, ns as u16),
        forall|k: int| ns <= k < PAGE_SIZE ==> d3[k] == d1[k],
        forall|j: int| 0 <= j < p ==> spec_page_cells(d0)[j].key < key,
        forall|j: int| p <= j < spec_parsed_num_cells(d0) ==> spec_page_cells(d0)[j].key > key,
    ensures
        spec_page_wf(d3),
        spec_page_cells(d3) == spec_page_cells(d0).insert(p, c),
{
    let n0 = spec_parsed_num_cells(d0) as int;
    let nn = n0 + 1;
    let cs0 = spec_parsed_cells_start(d0) as int;
    let ptrs0 = spec_parsed_ptrs(d0);
    let ptrs3 = spec_parsed_ptrs(d3);
    ptrs0.insert_ensures(p, ns as u16);
    spec_page_cells(d0).insert_ensures(p, c);
    lemma_cell_encode_decode(d0, ns, c);
    // The new cell reads back from the final image.
    assert(forall|k: int| ns <= k < spec_cell_end(d1, ns) ==> d3[k] == d1[k]);
    lemma_cell_at_agree(d1, d3, ns);
    assert(spec_cell_at(d3, ns) == c);
    assert(spec_cell_end(d3, ns) == cs0);
    // Bytes of the old content area are identical in all three images.
    assert(forall|k: int| cs0 <= k < PAGE_SIZE ==> d1[k] == d0[k]);
    assert(forall|k: int| cs0 <= k < PAGE_SIZE ==> d3[k] == d0[k]);
    // Each old cell reads back unchanged.
    assert forall|j: int| 0 <= j < n0 implies {
        &&& spec_cell_in_bounds(d3, #[trigger] ptrs0[j] as int)
        &&& spec_cell_at(d3, ptrs0[j] as int) == spec_cell_at(d0, ptrs0[j] as int)
        &&& spec_cell_end(d3, ptrs0[j] as int) == spec_cell_end(d0, ptrs0[j] as int)
    } by {
        assert(spec_cell_in_bounds(d0, ptrs0[j] as int));
        assert(cs0 <= ptrs0[j]);
        lemma_cell_at_agree(d0, d3, ptrs0[j] as int);
    }
    // The cell list is the old one with `c` inserted at `p`.
    assert forall|j: int| 0 <= j < nn implies #[trigger] spec_page_cells(d3)[j] == spec_page_cells(
        d0,
    ).insert(p, c)[j] by {
        if j < p {
            assert(ptrs3[j] == ptrs0[j]);
        } else if j == p {
            assert(ptrs3[j] == ns as u16);
        } else {
            assert(ptrs3[j] == ptrs0[j - 1]);
        }
    }
    assert(spec_page_cells(d3) =~= spec_page_cells(d0).insert(p, c));
    // Pointer bounds.
    assert forall|j: int| 0 <= j < nn implies spec_parsed_cells_start(d3)
        <= #[trigger] ptrs3[j] by {
        if j != p {
            let oj = if j < p {
                j
            } else {
                j - 1
            };
            assert(ptrs3[j] == ptrs0[oj]);
            assert(cs0 <= ptrs0[oj]);
        }
    }
    assert forall|j: int| 0 <= j < nn implies spec_cell_in_bounds(
        d3,
        #[trigger] ptrs3[j] as int,
    ) by {
        if j != p {
            let oj = if j < p {
                j
            } else {
                j - 1
            };
            assert(ptrs3[j] == ptrs0[oj]);
        }
    }
    // Disjointness: the new cell sits just below every old cell.
    assert forall|j: int, k: int| 0 <= j < k < nn implies spec_cell_end(
        d3,
        #[trigger] ptrs3[j] as int,
    ) <= ptrs3[k] || spec_cell_end(d3, #[trigger] ptrs3[k] as int) <= ptrs3[j] by {
        let oj = if j < p {
            j
        } else {
            j - 1
        };
        let ok = if k < p {
            k
        } else {
            k - 1
        };
        if j == p {
            assert(ptrs3[k] == ptrs0[ok]);
            assert(cs0 <= ptrs0[ok]);
        } else if k == p {
            assert(ptrs3[j] == ptrs0[oj]);
            assert(cs0 <= ptrs0[oj]);
        } else {
            assert(ptrs3[j] == ptrs0[oj]);
            assert(ptrs3[k] == ptrs0[ok]);
            assert(spec_cell_end(d0, ptrs0[oj] as int) <= ptrs0[ok] || spec_cell_end(
                d0,
                ptrs0[ok] as int,
            ) <= ptrs0[oj]);
        }
    }
    // Key order around the insertion point.
    assert forall|j: int, k: int| 0 <= j < k < nn implies spec_key_at(
        d3,
        #[trigger] ptrs3[j] as int,
    ) < spec_key_at(d3, #[trigger] ptrs3[k] as int) by {
        assert(spec_key_at(d3, ptrs3[j] as int) == spec_page_cells(d3)[j].key);
        assert(spec_key_at(d3, ptrs3[k] as int) == spec_page_cells(d3)[k].key);
        let oj = if j < p {
            j
        } else {
            j - 1
        };
        let ok = if k < p {
            k
        } else {
            k - 1
        };
        if j == p {
            assert(spec_page_cells(d0)[ok].key > key);
        } else if k == p {
            assert(spec_page_cells(d0)[oj].key < key);
        } else {
            assert(spec_key_at(d0, ptrs0[oj] as int) < spec_key_at(d0, ptrs0[ok] as int));
            assert(spec_page_cells(d0)[oj].key == spec_key_at(d0, ptrs0[oj] as int));
            assert(spec_page_cells(d0)[ok].key == spec_key_at(d0, ptrs0[ok] as int));
        }
    }
}

/// After dropping the pointer at position `p` and updating the header
/// counts, the image is again well formed and holds the old cells with the
/// one at `p` removed.
#[verifier::rlimit(100)]
proof fn lemma_delete_reestablish(d0: Seq<u8>, d3: Seq<u8>, p: int, ncs: u16)
    requires
        spec_page_wf(d0),
        0 <= p < spec_parsed_num_cells(d0),
        d3.len() == PAGE_SIZE,
        d3[0] == d0[0],
        spec_parsed_num_cells(d3) == spec_parsed_num_cells(d0) - 1,
        spec_parsed_cells_start(d3) == ncs,
        PAGE_HEADER_SIZE + 2 * (spec_parsed_num_cells(d0) - 1) <= ncs <= PAGE_SIZE,
        forall|j: int|
            0 <= j < spec_parsed_num_cells(d0) - 1 ==> ncs <= #[trigger] spec_parsed_ptrs(d0).remove(
                p,
            )[j],
        spec_parsed_ptrs(d3) == spec_parsed_ptrs(d0).remove(p),
        forall|k: int| spec_parsed_cells_start(d0) <= k < PAGE_SIZE ==> d3[k] == d0[k],
    ensures
        spec_page_wf(d3),
        spec_page_cells(d3) == spec_page_cells(d0).remove(p),
{
    let n0 = spec_parsed_num_cells(d0) as int;
    let nn = n0 - 1;
    let cs0 = spec_parsed_cells_start(d0) as int;
    let ptrs0 = spec_parsed_ptrs(d0);
    let ptrs3 = spec_parsed_ptrs(d3);
    ptrs0.remove_ensures(p);
    spec_page_cells(d0).remove_ensures(p);
    // Every old cell reads back unchanged.
    assert forall|j: int| 0 <= j < n0 implies {
        &&& spec_cell_in_bounds(d3, #[trigger] ptrs0[j] as int)
        &&& spec_cell_at(d3, ptrs0[j] as int) == spec_cell_at(d0, ptrs0[j] as int)
        &&& spec_cell_end(d3, ptrs0[j] as int) == spec_cell_end(d0, ptrs0[j] as int)
    } by {
        assert(spec_cell_in_bounds(d0, ptrs0[j] as int));
        assert(cs0 <= ptrs0[j]);
        lemma_cell_at_agree(d0, d3, ptrs0[j] as int);
    }
    assert forall|j: int| 0 <= j < nn implies #[trigger] spec_page_cells(d3)[j]
        == spec_page_cells(d0).remove(p)[j] by {
        let oj = if j < p {
            j
        } else {
            j + 1
        };
        assert(ptrs3[j] == ptrs0[oj]);
    }
    assert(spec_page_cells(d3) =~= spec_page_cells(d0).remove(p));
    assert forall|j: int| 0 <= j < nn implies spec_parsed_cells_start(d3)
        <= #[trigger] ptrs3[j] && spec_cell_in_bounds(d3, ptrs3[j] as int) by {
        let oj = if j < p {
            j
        } else {
            j + 1
        };
        assert(ptrs3[j] == ptrs0[oj]);
        assert(ncs <= ptrs0.remove(p)[j]);
    }
    assert forall|j: int, k: int| 0 <= j < k < nn implies (spec_cell_end(
        d3,
        #[trigger] ptrs3[j] as int,
    ) <= ptrs3[k] || spec_cell_end(d3, #[trigger] ptrs3[k] as int) <= ptrs3[j]) && spec_key_at(
        d3,
        ptrs3[j] as int,
    ) < spec_key_at(d3, ptrs3[k] as int) by {
        let oj = if j < p {
            j
        } else {
            j + 1
        };
        let ok = if k < p {
            k
        } else {
            k + 1
        };
        assert(ptrs3[j] == ptrs0[oj]);
        assert(ptrs3[k] == ptrs0[ok]);
        assert(spec_cell_end(d0, ptrs0[oj] as int) <= ptrs0[ok] || spec_cell_end(
            d0,
            ptrs0[ok] as int,
        ) <= ptrs0[oj]);
        assert(spec_key_at(d0, ptrs0[oj] as int) < spec_key_at(d0, ptrs0[ok] as int));
        assert(spec_key_at(d3, ptrs3[j] as int) == spec_cell_at(d3, ptrs3[j] as int).key);
        assert(spec_key_at(d3, ptrs3[k] as int) == spec_cell_at(d3, ptrs3[k] as int).key);
    }
}

/// After overwriting the cell at pointer index `p` with a same-sized,
/// same-keyed cell, the image is again well formed and holds the old cells
/// with the one at `p` replaced.
#[verifier::rlimit(100)]
proof fn lemma_update_reestablish(d0: Seq<u8>, d1: Seq<u8>, p: int, c: CellModel)
    requires
        spec_page_wf(d0),
        0 <= p < spec_parsed_num_cells(d0),
        c.key == spec_page_cells(d0)[p].key,
        c.payload.len() == spec_page_cells(d0)[p].payload.len(),
        d1 == spec_write(d0, spec_parsed_ptrs(d0)[p] as int, spec_cell_bytes(c)),
    ensures
        spec_page_wf(d1),
        d1[0] == d0[0],
        spec_parsed_num_cells(d1) == spec_parsed_num_cells(d0),
        spec_parsed_cells_start(d1) == spec_parsed_cells_start(d0),
        spec_parsed_right_pointer(d1) == spec_parsed_right_pointer(d0),
        spec_parsed_ptrs(d1) == spec_parsed_ptrs(d0),
        spec_page_cells(d1) == spec_page_cells(d0).update(p, c),
{
    let n0 = spec_parsed_num_cells(d0) as int;
    let cs0 = spec_parsed_cells_start(d0) as int;
    let ptrs0 = spec_parsed_ptrs(d0);
    let ptr_p = ptrs0[p] as int;
    let wb = spec_cell_bytes(c);
    assert(spec_cell_in_bounds(d0, ptr_p));
    assert(spec_page_cells(d0)[p] == spec_cell_at(d0, ptr_p));
    assert(c.payload.len() == spec_payload_size_at(d0, ptr_p));
    assert(cs0 <= ptrs0[p]);
    lemma_cell_encode_decode(d0, ptr_p, c);
    assert(wb.len() == spec_cell_end(d0, ptr_p) - ptr_p);
    // Header and pointer-array bytes are below the write.
    crate::bytes::lemma_spec_write_outside(d0, ptr_p, wb, 3, 5);
    crate::bytes::lemma_spec_write_outside(d0, ptr_p, wb, 5, 7);
    crate::bytes::lemma_spec_write_outside(d0, ptr_p, wb, 8, 12);
    assert forall|i: int| 0 <= i < n0 implies #[trigger] spec_parsed_ptrs(d1)[i]
        == spec_parsed_ptrs(d0)[i] by {
        crate::bytes::lemma_spec_write_outside(d0, ptr_p, wb, 12 + 2 * i, 14 + 2 * i);
    }
    assert(spec_parsed_ptrs(d1) =~= spec_parsed_ptrs(d0));
    // The overwritten cell reads back as `c`; all other cells are outside
    // the written range and read back unchanged.
    assert forall|j: int| 0 <= j < n0 && j != p implies {
        &&& spec_cell_in_bounds(d1, #[trigger] ptrs0[j] as int)
        &&& spec_cell_at(d1, ptrs0[j] as int) == spec_cell_at(d0, ptrs0[j] as int)
        &&& spec_cell_end(d1, ptrs0[j] as int) == spec_cell_end(d0, ptrs0[j] as int)
    } by {
        assert(spec_cell_in_bounds(d0, ptrs0[j] as int));
        if j < p {
            assert(spec_cell_end(d0, ptrs0[j] as int) <= ptrs0[p] || spec_cell_end(d0, ptr_p)
                <= ptrs0[j]);
        } else {
            assert(spec_cell_end(d0, ptr_p) <= ptrs0[j] || spec_cell_end(d0, ptrs0[j] as int)
                <= ptrs0[p]);
        }
        lemma_cell_at_agree(d0, d1, ptrs0[j] as int);
    }
    assert forall|j: int| 0 <= j < n0 implies #[trigger] spec_page_cells(d1)[j]
        == spec_page_cells(d0).update(p, c)[j] by {
        if j == p {
            assert(spec_cell_at(d1, ptr_p) == c);
        }
    }
    assert(spec_page_cells(d1) =~= spec_page_cells(d0).update(p, c));
    assert forall|j: int, k: int| 0 <= j < k < n0 implies spec_key_at(
        d1,
        #[trigger] spec_parsed_ptrs(d1)[j] as int,
    ) < spec_key_at(d1, #[trigger] spec_parsed_ptrs(d1)[k] as int) by {
        assert(spec_key_at(d1, ptrs0[j] as int) == spec_page_cells(d1)[j].key);
        assert(spec_key_at(d1, ptrs0[k] as int) == spec_page_cells(d1)[k].key);
        assert(spec_key_at(d0, ptrs0[j] as int) < spec_key_at(d0, ptrs0[k] as int));
        assert(spec_key_at(d0, ptrs0[j] as int) == spec_page_cells(d0)[j].key);
        assert(spec_key_at(d0, ptrs0[k] as int) == spec_page_cells(d0)[k].key);
    }
}

/// The left children of a cell list, in order, skipping absent entries.
pub open spec fn spec_child_list(cells: Seq<CellModel>) -> Seq<u32>
    decreases cells.len(),
{
    if cells.len() == 0 {
        Seq::<u32>::empty()
    } else {
        spec_child_list(cells.drop_last()) + (if cells.last().left_child == INVALID_PAGE_NUM {
            Seq::<u32>::empty()
        } else {
            seq![cells.last().left_child]
        })
    }
}

/// Split law: the two halves of a split carry exactly the original cells
/// in order, and every key on the left half is below every key on the
/// right half.
pub proof fn lemma_split_preserves_order(orig: Page, left: Page, right: Page)
    requires
        orig.inv(),
        left@ == orig@.take(spec_split_point(orig@.len() as int)),
        right@ == orig@.skip(spec_split_point(orig@.len() as int)),
    ensures
        left@ + right@ == orig@,
        right@.len() > 0 ==> left@.len() > 0 && left@.last().key < right@[0].key,
{
    assert(left@ + right@ =~= orig@);
    orig.lemma_keys_sorted();
    let sp = spec_split_point(orig@.len() as int);
    if right@.len() > 0 {
        assert(orig.spec_keys()[sp - 1] < orig.spec_keys()[sp]);
        assert(left@.last() == orig@[sp - 1]);
        assert(right@[0] == orig@[sp]);
    }
}

/// The number of cells a split sends to the left half: the ceiling of half
/// the cell count.
pub open spec fn spec_split_point(n: int) -> int {
    (n + 1) / 2
}

/// Append a cell whose key is above every key already on the page, given
/// that the page has room for it.
#[verifier::rlimit(60)]
fn push_max_cell(target: &mut Page, cell: &DBCell)
    requires
        old(target).inv(),
        cell.wf(),
        forall|j: int| 0 <= j < old(target)@.len() ==> #[trigger] old(target)@[j].key < cell.key,
        spec_cells_bytes_len(old(target)@) + CELL_FIXED_SIZE + cell.payload@.len()
            + PAGE_HEADER_SIZE + 2 * (old(target)@.len() + 1) <= PAGE_SIZE,
        old(target).num_cells == old(target)@.len(),
        old(target).cells_start == PAGE_SIZE - spec_cells_bytes_len(old(target)@),
    ensures
        final(target).inv(),
        final(target)@ == old(target)@.push(cell@),
        final(target).page_type == old(target).page_type,
        final(target).right_pointer == old(target).right_pointer,
        final(target).num_cells == old(target)@.len() + 1,
        final(target).cells_start == PAGE_SIZE - spec_cells_bytes_len(final(target)@),
{
    proof {
        lemma_spec_partition(target.spec_keys(), cell.key);
        assert forall|j: int|
            0 <= j < target.spec_keys().len() implies #[trigger] target.spec_keys()[j]
            != cell.key by {
            assert(target@[j].key < cell.key);
        }
        assert(!target.spec_keys().contains(cell.key));
        if spec_partition(target.spec_keys(), cell.key) < target@.len() {
            assert(target.spec_keys()[spec_partition(target.spec_keys(), cell.key)] < cell.key);
        }
        assert(spec_partition(target.spec_keys(), cell.key) == target@.len());
        lemma_cells_bytes_len_nonneg(target@);
        assert(target.spec_has_room(cell.payload@.len() as int));
    }
    let res = target.insert(cell.key, cell.payload.as_slice(), Some(cell.left_child));
    proof {
        assert(res is Ok);
        assert(target@ =~= old(target)@.push(cell@));
        lemma_cells_bytes_len_insert(old(target)@, old(target)@.len() as int, cell@);
        assert(old(target)@.insert(old(target)@.len() as int, cell@) =~= old(target)@.push(
            cell@,
        ));
    }
}

/// One step of distributing sorted cells into a fresh page: the next cell's
/// key is above everything taken so far, appending it extends the taken
/// range, and the page has room for it.
proof fn lemma_split_step(v: Seq<CellModel>, t: Seq<CellModel>, c: CellModel, a: int, i: int)
    requires
        forall|j: int, k: int| 0 <= j < k < v.len() ==> #[trigger] v[j].key < #[trigger] v[k].key,
        spec_cells_bytes_len(v) + PAGE_HEADER_SIZE + 2 * v.len() <= PAGE_SIZE,
        0 <= a <= i < v.len(),
        t == v.subrange(a, i),
        c == v[i],
    ensures
        forall|j: int| 0 <= j < t.len() ==> #[trigger] t[j].key < c.key,
        spec_cells_bytes_len(v.subrange(a, i + 1)) == spec_cells_bytes_len(t) + CELL_FIXED_SIZE
            + c.payload.len(),
        spec_cells_bytes_len(t) + CELL_FIXED_SIZE + c.payload.len() + PAGE_HEADER_SIZE + 2 * (
        t.len() + 1) <= PAGE_SIZE,
        t.insert(t.len() as int, c) == v.subrange(a, i + 1),
{
    assert forall|j: int| 0 <= j < t.len() implies #[trigger] t[j].key < c.key by {
        assert(t[j] == v[a + j]);
    }
    assert(t.insert(t.len() as int, c) =~= v.subrange(a, i + 1));
    lemma_cells_bytes_len_insert(t, t.len() as int, c);
    assert(v =~= v.subrange(0, a) + (v.subrange(a, i + 1) + v.subrange(i + 1, v.len() as int)));
    lemma_cells_bytes_len_concat(
        v.subrange(0, a),
        v.subrange(a, i + 1) + v.subrange(i + 1, v.len() as int),
    );
    lemma_cells_bytes_len_concat(v.subrange(a, i + 1), v.subrange(i + 1, v.len() as int));
    lemma_cells_bytes_len_nonneg(v.subrange(0, a));
    lemma_cells_bytes_len_nonneg(v.subrange(i + 1, v.len() as int));
}

/// The partition point of `key` in `keys`: the length of the longest prefix
/// of keys strictly below `key`.
pub open spec fn spec_partition(keys: Seq<u64>, key: u64) -> int
    decreases keys.len(),
{
    if keys.len() == 0 {
        0
    } else if keys[0] < key {
        1 + spec_partition(keys.drop_first(), key)
    } else {
        0
    }
}

/// The partition point is in range, everything before it is below `key`,
/// and the key at it (when it exists) is at least `key`.
pub proof fn lemma_spec_partition(keys: Seq<u64>, key: u64)
    ensures
        0 <= spec_partition(keys, key) <= keys.len(),
        forall|j: int| 0 <= j < spec_partition(keys, key) ==> keys[j] < key,
        spec_partition(keys, key) < keys.len() ==> keys[spec_partition(keys, key)] >= key,
    decreases keys.len(),
{
    if keys.len() == 0 {
    } else if keys[0] < key {
        lemma_spec_partition(keys.drop_first(), key);
        let p = spec_partition(keys, key);
        assert forall|j: int| 0 <= j < p implies keys[j] < key by {
            if j > 0 {
                assert(keys.drop_first()[j - 1] < key);
            }
        }
        if p < keys.len() {
            assert(keys[p] == keys.drop_first()[p - 1]);
        }
    } else {
    }
}

/// The rescanned content-area start after a delete: the lowest remaining
/// cell offset, or the end of the page when no cell remains.
pub open spec fn spec_is_min_cells_start(cs: u16, ptrs: Seq<u16>) -> bool {
    &&& (ptrs.len() == 0 ==> cs == PAGE_SIZE)
    &&& (forall|j: int| 0 <= j < ptrs.len() ==> cs <= #[trigger] ptrs[j])
    &&& (ptrs.len() > 0 ==> exists|j: int| 0 <= j < ptrs.len() && cs == #[trigger] ptrs[j])
}

/// From strictly ascending adjacent keys up to index `i`, extend the strict
/// order to every earlier pair ending at `i`.
proof fn lemma_sorted_extend(keys: Seq<u64>, i: int)
    requires
        0 < i < keys.len(),
        forall|j: int, k: int| 0 <= j < k < i ==> keys[j] < keys[k],
        keys[i - 1] < keys[i],
    ensures
        forall|j: int, k: int| 0 <= j < k <= i ==> keys[j] < keys[k],
{
}

/// Write all header fields into the first 12 bytes of a page buffer; the
/// reserved fields are written as zero.
fn write_header(data: &mut Vec<u8>, page_type: PageType, num_cells: u16, cells_start: u16, right_pointer: u32)
    requires
        old(data)@.len() >= PAGE_HEADER_SIZE,
    ensures
        final(data)@.len() == old(data)@.len(),
        final(data)@[0] == page_type.spec_tag(),
        final(data)@[1] == 0u8,
        final(data)@[2] == 0u8,
        final(data)@[7] == 0u8,
        spec_parsed_num_cells(final(data)@) == num_cells,
        spec_parsed_cells_start(final(data)@) == cells_start,
        spec_parsed_right_pointer(final(data)@) == right_pointer,
        forall|i: int|
            PAGE_HEADER_SIZE <= i < old(data)@.len() ==> final(data)@[i] == old(data)@[i],
{
    let data_len = data.len();
    data.set(0, page_type.tag());
    data.set(1, 0);
    data.set(2, 0);
    write_u16_be(data, 3, num_cells);
    write_u16_be(data, 5, cells_start);
    data.set(7, 0);
    write_u32_be(data, 8, right_pointer);
    proof {
        lemma_u16_be_round_trip(num_cells);
        lemma_u16_be_round_trip(cells_start);
        lemma_u32_be_round_trip(right_pointer);
        assert(data@.subrange(3, 5) =~= spec_u16_to_be(num_cells));
        assert(data@.subrange(5, 7) =~= spec_u16_to_be(cells_start));
        assert(data@.subrange(8, 12) =~= spec_u32_to_be(right_pointer));
    }
}

} // verus!
