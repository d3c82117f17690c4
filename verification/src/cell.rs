//! The cell codec: one tree entry (a leaf record or an interior routing
//! entry) encoded as a self-delimiting byte string with a fixed-width
//! big-endian prefix.
//!
//! Layout: `payload_size: u16` · `key: u64` · `payload: [u8; payload_size]`
//! · `left_child: u32`, so a cell occupies `14 + payload_size` bytes.

use crate::bytes::{
    lemma_spec_write_inside, lemma_spec_write_outside, lemma_u16_be_round_trip,
    lemma_u32_be_round_trip, lemma_u64_be_round_trip, read_u16_be, read_u32_be, read_u64_be,
    spec_u16_from_be, spec_u16_to_be, spec_u32_from_be, spec_u32_to_be, spec_u64_from_be,
    spec_u64_to_be, spec_write, write_bytes, write_u16_be, write_u32_be, write_u64_be,
};
use crate::{INVALID_PAGE_NUM, PAGE_HEADER_SIZE, PAGE_SIZE};
use vstd::prelude::*;

verus! {

use vstd::slice::slice_to_vec;

/// Number of bytes of a cell besides its payload.
pub const CELL_FIXED_SIZE: usize = 14;

/// Largest payload a cell may carry, bounded by its two-byte size prefix.
pub const MAX_CELL_PAYLOAD: usize = 65535;

/// Mathematical content of one cell.
pub ghost struct CellModel {
    pub key: u64,
    pub payload: Seq<u8>,
    pub left_child: u32,
}

/// The encoding of a cell as a byte sequence.
pub open spec fn spec_cell_bytes(c: CellModel) -> Seq<u8>
    recommends
        c.payload.len() <= MAX_CELL_PAYLOAD,
{
    spec_u16_to_be(c.payload.len() as u16) + spec_u64_to_be(c.key) + c.payload + spec_u32_to_be(
        c.left_child,
    )
}

/// Payload size recorded in the prefix of the cell starting at `off`.
pub open spec fn spec_payload_size_at(data: Seq<u8>, off: int) -> u16
    recommends
        0 <= off,
        off + 2 <= data.len(),
{
    spec_u16_from_be(data.subrange(off, off + 2))
}

/// Total size of the cell starting at `off`, prefix included.
pub open spec fn spec_cell_end(data: Seq<u8>, off: int) -> int
    recommends
        0 <= off,
        off + 2 <= data.len(),
{
    off + CELL_FIXED_SIZE + spec_payload_size_at(data, off)
}

/// The cell starting at `off` lies entirely within `data`.
pub open spec fn spec_cell_in_bounds(data: Seq<u8>, off: int) -> bool {
    &&& 0 <= off
    &&& off + CELL_FIXED_SIZE <= data.len()
    &&& spec_cell_end(data, off) <= data.len()
}

/// Key recorded in the cell starting at `off`.
pub open spec fn spec_key_at(data: Seq<u8>, off: int) -> u64
    recommends
        0 <= off,
        off + 10 <= data.len(),
{
    spec_u64_from_be(data.subrange(off + 2, off + 10))
}

/// The decoded cell starting at `off`.
pub open spec fn spec_cell_at(data: Seq<u8>, off: int) -> CellModel
    recommends
        spec_cell_in_bounds(data, off),
{
    let ps = spec_payload_size_at(data, off) as int;
    CellModel {
        key: spec_key_at(data, off),
        payload: data.subrange(off + 10, off + 10 + ps),
        left_child: spec_u32_from_be(data.subrange(off + 10 + ps, off + 14 + ps)),
    }
}

/// Decoding reads back exactly what encoding wrote: the cell found at `off`
/// after writing `spec_cell_bytes(c)` there is `c` itself.
pub proof fn lemma_cell_encode_decode(data: Seq<u8>, off: int, c: CellModel)
    requires
        c.payload.len() <= MAX_CELL_PAYLOAD,
        0 <= off,
        off + 14 + c.payload.len() <= data.len(),
    ensures
        spec_cell_bytes(c).len() == 14 + c.payload.len(),
        spec_payload_size_at(spec_write(data, off, spec_cell_bytes(c)), off) == c.payload.len(),
        spec_cell_in_bounds(spec_write(data, off, spec_cell_bytes(c)), off),
        spec_cell_end(spec_write(data, off, spec_cell_bytes(c)), off) == off + 14
            + c.payload.len(),
        spec_cell_at(spec_write(data, off, spec_cell_bytes(c)), off) == c,
{
    let b = spec_cell_bytes(c);
    let n = c.payload.len() as int;
    let w = spec_write(data, off, b);
    lemma_u16_be_round_trip(c.payload.len() as u16);
    lemma_u64_be_round_trip(c.key);
    lemma_u32_be_round_trip(c.left_child);
    assert(b.len() == 14 + n);
    lemma_spec_write_inside(data, off, b, off, off + 2);
    assert(b.subrange(0, 2) =~= spec_u16_to_be(c.payload.len() as u16));
    assert(spec_payload_size_at(w, off) == c.payload.len());
    lemma_spec_write_inside(data, off, b, off + 2, off + 10);
    assert(b.subrange(2, 10) =~= spec_u64_to_be(c.key));
    lemma_spec_write_inside(data, off, b, off + 10, off + 10 + n);
    assert(b.subrange(10, 10 + n) =~= c.payload);
    lemma_spec_write_inside(data, off, b, off + 10 + n, off + 14 + n);
    assert(b.subrange(10 + n, 14 + n) =~= spec_u32_to_be(c.left_child));
}

/// A cell decodes the same after a write that does not touch its bytes.
pub proof fn lemma_cell_at_frame(data: Seq<u8>, woff: int, b: Seq<u8>, off: int)
    requires
        0 <= woff,
        woff + b.len() <= data.len(),
        spec_cell_in_bounds(data, off),
        spec_cell_end(data, off) <= woff || woff + b.len() <= off,
    ensures
        spec_cell_in_bounds(spec_write(data, woff, b), off),
        spec_cell_at(spec_write(data, woff, b), off) == spec_cell_at(data, off),
        spec_cell_end(spec_write(data, woff, b), off) == spec_cell_end(data, off),
{
    let w = spec_write(data, woff, b);
    let ps = spec_payload_size_at(data, off) as int;
    lemma_spec_write_outside(data, woff, b, off, off + 2);
    assert(spec_payload_size_at(w, off) == spec_payload_size_at(data, off));
    lemma_spec_write_outside(data, woff, b, off + 2, off + 10);
    lemma_spec_write_outside(data, woff, b, off + 10, off + 10 + ps);
    lemma_spec_write_outside(data, woff, b, off + 10 + ps, off + 14 + ps);
}

/// The left child stored for an optional child pointer: the page number
/// itself, or the `INVALID_PAGE_NUM` sentinel when absent.
pub open spec fn spec_child_or_invalid(o: Option<u32>) -> u32 {
    match o {
        Some(p) => p,
        None => INVALID_PAGE_NUM,
    }
}

/// Round-trip law of the cell codec: decoding the encoding of any cell
/// whose payload fits a page gives the cell back, key, payload and left
/// child alike.
pub proof fn lemma_cell_round_trip(c: CellModel)
    requires
        c.payload.len() <= PAGE_SIZE - CELL_FIXED_SIZE - PAGE_HEADER_SIZE - 2,
    ensures
        spec_cell_bytes(c).len() == CELL_FIXED_SIZE + c.payload.len(),
        spec_cell_in_bounds(spec_cell_bytes(c), 0),
        spec_cell_at(spec_cell_bytes(c), 0) == c,
{
    let b = spec_cell_bytes(c);
    lemma_cell_encode_decode(b, 0, c);
    assert(spec_write(b, 0, b) =~= b);
}

/// A cell decodes the same from two images that agree on its bytes.
pub proof fn lemma_cell_at_agree(b1: Seq<u8>, b2: Seq<u8>, off: int)
    requires
        b1.len() == b2.len(),
        spec_cell_in_bounds(b1, off),
        forall|k: int| off <= k < spec_cell_end(b1, off) ==> b2[k] == b1[k],
    ensures
        spec_cell_in_bounds(b2, off),
        spec_cell_end(b2, off) == spec_cell_end(b1, off),
        spec_cell_at(b2, off) == spec_cell_at(b1, off),
{
    assert(b2.subrange(off, off + 2) =~= b1.subrange(off, off + 2));
    let ps = spec_payload_size_at(b1, off) as int;
    assert(b2.subrange(off + 2, off + 10) =~= b1.subrange(off + 2, off + 10));
    assert(b2.subrange(off + 10, off + 10 + ps) =~= b1.subrange(off + 10, off + 10 + ps));
    assert(b2.subrange(off + 10 + ps, off + 14 + ps) =~= b1.subrange(off + 10 + ps, off + 14 + ps));
}

/// Errors of the cell codec.
#[derive(Clone, Copy, Debug, PartialEq, Eq, Structural)]
pub enum CellError {
    /// The payload does not fit the cell's two-byte size prefix.
    PayloadTooLarge,
    /// The input ends before the cell does.
    Truncated,
}

/// One decoded cell: a record of a leaf page or a routing entry of an
/// interior page.
#[derive(Clone, Debug)]
pub struct DBCell {
    pub payload_size: u16,
    pub key: u64,
    pub payload: Vec<u8>,
    pub left_child: u32,
}

impl View for DBCell {
    type V = CellModel;

    open spec fn view(&self) -> CellModel {
        CellModel { key: self.key, payload: self.payload@, left_child: self.left_child }
    }
}

impl DBCell {
    /// The recorded payload size agrees with the payload itself.
    pub open spec fn wf(self) -> bool {
        self.payload_size == self.payload@.len()
    }

    /// Build a cell from a key, a payload and an optional left child; a
    /// missing child is stored as `INVALID_PAGE_NUM`.
    pub fn new(key: u64, data: &[u8], left_child_optn: Option<u32>) -> (r: Result<Self, CellError>)
        ensures
            r is Ok <==> data@.len() <= MAX_CELL_PAYLOAD,
            r matches Ok(c) ==> c.wf() && c@ == (CellModel {
                key,
                payload: data@,
                left_child: match left_child_optn {
                    Some(p) => p,
                    None => INVALID_PAGE_NUM,
                },
            }),
    {
        if data.len() > MAX_CELL_PAYLOAD {
            return Err(CellError::PayloadTooLarge);
        }
        let left_child = match left_child_optn {
            Some(p) => p,
            None => INVALID_PAGE_NUM,
        };
        Ok(
            DBCell {
                payload_size: data.len() as u16,
                key,
                payload: slice_to_vec(data),
                left_child,
            },
        )
    }

    /// Serialize the cell into its on-page byte string.
    pub fn to_bytes(&self) -> (r: Vec<u8>)
        requires
            self.wf(),
        ensures
            r@ == spec_cell_bytes(self@),
            r@.len() == 14 + self.payload@.len(),
    {
        let ps = self.payload.len();
        let total = CELL_FIXED_SIZE + ps;
        let mut v: Vec<u8> = vec![0u8; total];
        write_u16_be(&mut v, 0, self.payload_size);
        write_u64_be(&mut v, 2, self.key);
        write_bytes(&mut v, 10, &self.payload);
        write_u32_be(&mut v, 10 + ps, self.left_child);
        proof {
            assert(v@ =~= spec_cell_bytes(self@));
        }
        v
    }

    /// Decode the cell that starts at the beginning of `bytes`; bytes after
    /// the cell's end are ignored. Fails only on a truncated input.
    pub fn from_bytes(bytes: &[u8]) -> (r: Result<Self, CellError>)
        ensures
            r is Ok <==> spec_cell_in_bounds(bytes@, 0),
            r matches Ok(c) ==> c.wf() && c@ == spec_cell_at(bytes@, 0),
    {
        let v = slice_to_vec(bytes);
        let n = v.len();
        if n < CELL_FIXED_SIZE {
            return Err(CellError::Truncated);
        }
        let payload_size = read_u16_be(&v, 0);
        if (payload_size as usize) > n - CELL_FIXED_SIZE {
            return Err(CellError::Truncated);
        }
        let key = read_u64_be(&v, 2);
        let mut payload: Vec<u8> = Vec::new();
        let mut i: usize = 0;
        while i < payload_size as usize
            invariant
                i <= payload_size,
                10 + payload_size <= v@.len(),
                v@ == bytes@,
                payload@ =~= v@.subrange(10, 10 + i),
            decreases payload_size as int - i,
        {
            payload.push(v[10 + i]);
            proof {
                assert(payload@ =~= v@.subrange(10, 10 + i + 1));
            }
            i += 1;
        }
        let left_child = read_u32_be(&v, 10 + payload_size as usize);
        proof {
            assert(spec_cell_in_bounds(bytes@, 0));
        }
        Ok(DBCell { payload_size, key, payload, left_child })
    }

    /// Read just the key from the first ten bytes of a cell image.
    pub fn id_from_slice(bytes: &[u8]) -> (r: Result<u64, ()>)
        ensures
            r is Ok <==> bytes@.len() >= 10,
            r matches Ok(k) ==> k == spec_key_at(bytes@, 0),
    {
        let v = slice_to_vec(bytes);
        if v.len() < 10 {
            return Err(());
        }
        Ok(read_u64_be(&v, 2))
    }
}

} // verus!
