//! Fixed-width integer encodings used by the on-disk format: big-endian
//! integers in page headers and cell prefixes, little-endian entries in the
//! cell-pointer array, together with in-place writes into a page buffer.

use vstd::prelude::*;

verus! {

use vstd::arithmetic::div_mod::lemma_div_denominator;
use vstd::arithmetic::div_mod::lemma_fundamental_div_mod;
use vstd::arithmetic::div_mod::lemma_fundamental_div_mod_converse;

/// The sequence `s` with the range starting at `off` overwritten by `b`.
pub open spec fn spec_write(s: Seq<u8>, off: int, b: Seq<u8>) -> Seq<u8> {
    Seq::new(s.len(), |i: int| if off <= i < off + b.len() { b[i - off] } else { s[i] })
}

pub open spec fn spec_u16_from_be(s: Seq<u8>) -> u16
    recommends
        s.len() == 2,
{
    (s[0] * 256 + s[1]) as u16
}

pub open spec fn spec_u16_to_be(x: u16) -> Seq<u8> {
    seq![(x / 256) as u8, (x % 256) as u8]
}

pub open spec fn spec_u16_from_le(s: Seq<u8>) -> u16
    recommends
        s.len() == 2,
{
    (s[1] * 256 + s[0]) as u16
}

pub open spec fn spec_u16_to_le(x: u16) -> Seq<u8> {
    seq![(x % 256) as u8, (x / 256) as u8]
}

pub open spec fn spec_u32_from_be(s: Seq<u8>) -> u32
    recommends
        s.len() == 4,
{
    (s[0] * 0x1000000 + s[1] * 0x10000 + s[2] * 0x100 + s[3]) as u32
}

pub open spec fn spec_u32_to_be(x: u32) -> Seq<u8> {
    seq![
        ((x / 0x1000000) % 256) as u8,
        ((x / 0x10000) % 256) as u8,
        ((x / 0x100) % 256) as u8,
        (x % 256) as u8,
    ]
}

pub open spec fn spec_u64_from_be(s: Seq<u8>) -> u64
    recommends
        s.len() == 8,
{
    (s[0] * 0x100000000000000 + s[1] * 0x1000000000000 + s[2] * 0x10000000000 + s[3] * 0x100000000
        + s[4] * 0x1000000 + s[5] * 0x10000 + s[6] * 0x100 + s[7]) as u64
}

pub open spec fn spec_u64_to_be(x: u64) -> Seq<u8> {
    seq![
        ((x / 0x100000000000000) % 256) as u8,
        ((x / 0x1000000000000) % 256) as u8,
        ((x / 0x10000000000) % 256) as u8,
        ((x / 0x100000000) % 256) as u8,
        ((x / 0x1000000) % 256) as u8,
        ((x / 0x10000) % 256) as u8,
        ((x / 0x100) % 256) as u8,
        (x % 256) as u8,
    ]
}

/// Reading inside a written range sees the written bytes.
pub proof fn lemma_spec_write_inside(s: Seq<u8>, off: int, b: Seq<u8>, a1: int, a2: int)
    requires
        0 <= off,
        off + b.len() <= s.len(),
        off <= a1 <= a2 <= off + b.len(),
    ensures
        spec_write(s, off, b).subrange(a1, a2) == b.subrange(a1 - off, a2 - off),
{
    assert(spec_write(s, off, b).subrange(a1, a2) =~= b.subrange(a1 - off, a2 - off));
}

/// Reading a range disjoint from a written range sees the old bytes.
pub proof fn lemma_spec_write_outside(s: Seq<u8>, off: int, b: Seq<u8>, a1: int, a2: int)
    requires
        0 <= off,
        off + b.len() <= s.len(),
        0 <= a1 <= a2 <= s.len(),
        a2 <= off || a1 >= off + b.len(),
    ensures
        spec_write(s, off, b).subrange(a1, a2) == s.subrange(a1, a2),
{
    assert(spec_write(s, off, b).subrange(a1, a2) =~= s.subrange(a1, a2));
}

pub proof fn lemma_u16_be_round_trip(x: u16)
    ensures
        spec_u16_to_be(x).len() == 2,
        spec_u16_from_be(spec_u16_to_be(x)) == x,
{
}

pub proof fn lemma_u16_be_bytes_round_trip(s: Seq<u8>)
    requires
        s.len() == 2,
    ensures
        spec_u16_to_be(spec_u16_from_be(s)) == s,
{
    assert(spec_u16_to_be(spec_u16_from_be(s)) =~= s);
}

pub proof fn lemma_u16_le_round_trip(x: u16)
    ensures
        spec_u16_to_le(x).len() == 2,
        spec_u16_from_le(spec_u16_to_le(x)) == x,
{
}

pub proof fn lemma_u16_le_bytes_round_trip(s: Seq<u8>)
    requires
        s.len() == 2,
    ensures
        spec_u16_to_le(spec_u16_from_le(s)) == s,
{
    assert(spec_u16_to_le(spec_u16_from_le(s)) =~= s);
}

pub proof fn lemma_u32_be_round_trip(x: u32)
    ensures
        spec_u32_to_be(x).len() == 4,
        spec_u32_from_be(spec_u32_to_be(x)) == x,
{
}

pub proof fn lemma_u32_be_bytes_round_trip(s: Seq<u8>)
    requires
        s.len() == 4,
    ensures
        spec_u32_to_be(spec_u32_from_be(s)) == s,
{
    let x0: int = s[0] * 0x1000000 + s[1] * 0x10000 + s[2] * 0x100 + s[3];
    lemma_fundamental_div_mod_converse(x0, 0x1000000, s[0] as int, (x0 - s[0] * 0x1000000) as int);
    lemma_fundamental_div_mod_converse(
        x0,
        0x10000,
        s[0] * 0x100 + s[1],
        (x0 - (s[0] * 0x100 + s[1]) * 0x10000) as int,
    );
    lemma_fundamental_div_mod_converse(
        x0,
        0x100,
        s[0] * 0x10000 + s[1] * 0x100 + s[2],
        s[3] as int,
    );
    lemma_fundamental_div_mod_converse(s[0] * 0x100 + s[1], 0x100, s[0] as int, s[1] as int);
    lemma_fundamental_div_mod_converse(
        s[0] * 0x10000 + s[1] * 0x100 + s[2],
        0x100,
        s[0] * 0x100 + s[1],
        s[2] as int,
    );
    lemma_fundamental_div_mod_converse(s[0] as int, 0x100, 0, s[0] as int);
    assert(spec_u32_to_be(spec_u32_from_be(s)) =~= s);
}

pub proof fn lemma_u64_be_round_trip(x: u64)
    ensures
        spec_u64_to_be(x).len() == 8,
        spec_u64_from_be(spec_u64_to_be(x)) == x,
{
    let x0 = x as int;
    lemma_div_denominator(x0, 0x100, 0x100);
    lemma_div_denominator(x0, 0x10000, 0x100);
    lemma_div_denominator(x0, 0x1000000, 0x100);
    lemma_div_denominator(x0, 0x100000000, 0x100);
    lemma_div_denominator(x0, 0x10000000000, 0x100);
    lemma_div_denominator(x0, 0x1000000000000, 0x100);
    lemma_fundamental_div_mod(x0, 0x100);
    lemma_fundamental_div_mod(x0 / 0x100, 0x100);
    lemma_fundamental_div_mod(x0 / 0x10000, 0x100);
    lemma_fundamental_div_mod(x0 / 0x1000000, 0x100);
    lemma_fundamental_div_mod(x0 / 0x100000000, 0x100);
    lemma_fundamental_div_mod(x0 / 0x10000000000, 0x100);
    lemma_fundamental_div_mod(x0 / 0x1000000000000, 0x100);
    lemma_fundamental_div_mod(x0 / 0x100000000000000, 0x100);
}

pub proof fn lemma_u64_be_bytes_round_trip(s: Seq<u8>)
    requires
        s.len() == 8,
    ensures
        spec_u64_from_be(s) == (s[0] * 0x100000000000000 + s[1] * 0x1000000000000 + s[2]
            * 0x10000000000 + s[3] * 0x100000000 + s[4] * 0x1000000 + s[5] * 0x10000 + s[6] * 0x100
            + s[7]),
        spec_u64_to_be(spec_u64_from_be(s)) == s,
{
    let x0: int = s[0] * 0x100000000000000 + s[1] * 0x1000000000000 + s[2] * 0x10000000000 + s[3]
        * 0x100000000 + s[4] * 0x1000000 + s[5] * 0x10000 + s[6] * 0x100 + s[7];
    lemma_fundamental_div_mod_converse(x0, 0x100000000000000, s[0] as int, (x0 - s[0]
        * 0x100000000000000) as int);
    lemma_fundamental_div_mod_converse(
        x0,
        0x1000000000000,
        s[0] * 0x100 + s[1],
        (x0 - (s[0] * 0x100 + s[1]) * 0x1000000000000) as int,
    );
    lemma_fundamental_div_mod_converse(
        x0,
        0x10000000000,
        s[0] * 0x10000 + s[1] * 0x100 + s[2],
        (x0 - (s[0] * 0x10000 + s[1] * 0x100 + s[2]) * 0x10000000000) as int,
    );
    lemma_fundamental_div_mod_converse(
        x0,
        0x100000000,
        s[0] * 0x1000000 + s[1] * 0x10000 + s[2] * 0x100 + s[3],
        (x0 - (s[0] * 0x1000000 + s[1] * 0x10000 + s[2] * 0x100 + s[3]) * 0x100000000) as int,
    );
    lemma_fundamental_div_mod_converse(
        x0,
        0x1000000,
        s[0] * 0x100000000 + s[1] * 0x1000000 + s[2] * 0x10000 + s[3] * 0x100 + s[4],
        (x0 - (s[0] * 0x100000000 + s[1] * 0x1000000 + s[2] * 0x10000 + s[3] * 0x100 + s[4])
            * 0x1000000) as int,
    );
    lemma_fundamental_div_mod_converse(
        x0,
        0x10000,
        s[0] * 0x10000000000 + s[1] * 0x100000000 + s[2] * 0x1000000 + s[3] * 0x10000 + s[4]
            * 0x100 + s[5],
        (x0 - (s[0] * 0x10000000000 + s[1] * 0x100000000 + s[2] * 0x1000000 + s[3] * 0x10000 + s[4]
            * 0x100 + s[5]) * 0x10000) as int,
    );
    lemma_fundamental_div_mod_converse(
        x0,
        0x100,
        s[0] * 0x1000000000000 + s[1] * 0x10000000000 + s[2] * 0x100000000 + s[3] * 0x1000000 + s[4]
            * 0x10000 + s[5] * 0x100 + s[6],
        s[7] as int,
    );
    lemma_fundamental_div_mod_converse(s[0] * 0x100 + s[1], 0x100, s[0] as int, s[1] as int);
    lemma_fundamental_div_mod_converse(
        s[0] * 0x10000 + s[1] * 0x100 + s[2],
        0x100,
        s[0] * 0x100 + s[1],
        s[2] as int,
    );
    lemma_fundamental_div_mod_converse(
        s[0] * 0x1000000 + s[1] * 0x10000 + s[2] * 0x100 + s[3],
        0x100,
        s[0] * 0x10000 + s[1] * 0x100 + s[2],
        s[3] as int,
    );
    lemma_fundamental_div_mod_converse(
        s[0] * 0x100000000 + s[1] * 0x1000000 + s[2] * 0x10000 + s[3] * 0x100 + s[4],
        0x100,
        s[0] * 0x1000000 + s[1] * 0x10000 + s[2] * 0x100 + s[3],
        s[4] as int,
    );
    lemma_fundamental_div_mod_converse(
        s[0] * 0x10000000000 + s[1] * 0x100000000 + s[2] * 0x1000000 + s[3] * 0x10000 + s[4] * 0x100
            + s[5],
        0x100,
        s[0] * 0x100000000 + s[1] * 0x1000000 + s[2] * 0x10000 + s[3] * 0x100 + s[4],
        s[5] as int,
    );
    lemma_fundamental_div_mod_converse(
        s[0] * 0x1000000000000 + s[1] * 0x10000000000 + s[2] * 0x100000000 + s[3] * 0x1000000 + s[4]
            * 0x10000 + s[5] * 0x100 + s[6],
        0x100,
        s[0] * 0x10000000000 + s[1] * 0x100000000 + s[2] * 0x1000000 + s[3] * 0x10000 + s[4] * 0x100
            + s[5],
        s[6] as int,
    );
    lemma_fundamental_div_mod_converse(s[0] as int, 0x100, 0, s[0] as int);
    assert(spec_u64_to_be(spec_u64_from_be(s)) =~= s);
}

pub fn read_u16_be(data: &Vec<u8>, off: usize) -> (r: u16)
    requires
        off + 2 <= data@.len(),
    ensures
        r == spec_u16_from_be(data@.subrange(off as int, off + 2)),
{
    let data_len = data.len();
    let r = (data[off] as u16) * 256 + (data[off + 1] as u16);
    proof {
        let s = data@.subrange(off as int, off + 2);
        assert(s[0] == data@[off as int]);
        assert(s[1] == data@[off as int + 1]);
    }
    r
}

pub fn read_u16_le(data: &Vec<u8>, off: usize) -> (r: u16)
    requires
        off + 2 <= data@.len(),
    ensures
        r == spec_u16_from_le(data@.subrange(off as int, off + 2)),
{
    let data_len = data.len();
    let r = (data[off + 1] as u16) * 256 + (data[off] as u16);
    proof {
        let s = data@.subrange(off as int, off + 2);
        assert(s[0] == data@[off as int]);
        assert(s[1] == data@[off as int + 1]);
    }
    r
}

pub fn read_u32_be(data: &Vec<u8>, off: usize) -> (r: u32)
    requires
        off + 4 <= data@.len(),
    ensures
        r == spec_u32_from_be(data@.subrange(off as int, off + 4)),
{
    let data_len = data.len();
    let r = (data[off] as u32) * 0x1000000 + (data[off + 1] as u32) * 0x10000 + (data[off
        + 2] as u32) * 0x100 + (data[off + 3] as u32);
    proof {
        let s = data@.subrange(off as int, off + 4);
        assert(s[0] == data@[off as int]);
        assert(s[1] == data@[off as int + 1]);
        assert(s[2] == data@[off as int + 2]);
        assert(s[3] == data@[off as int + 3]);
    }
    r
}

pub fn read_u64_be(data: &Vec<u8>, off: usize) -> (r: u64)
    requires
        off + 8 <= data@.len(),
    ensures
        r == spec_u64_from_be(data@.subrange(off as int, off + 8)),
{
    let data_len = data.len();
    let r = (data[off] as u64) * 0x100000000000000 + (data[off + 1] as u64) * 0x1000000000000 + (
    data[off + 2] as u64) * 0x10000000000 + (data[off + 3] as u64) * 0x100000000 + (data[off
        + 4] as u64) * 0x1000000 + (data[off + 5] as u64) * 0x10000 + (data[off + 6] as u64) * 0x100
        + (data[off + 7] as u64);
    proof {
        let s = data@.subrange(off as int, off + 8);
        assert(s[0] == data@[off as int]);
        assert(s[1] == data@[off as int + 1]);
        assert(s[2] == data@[off as int + 2]);
        assert(s[3] == data@[off as int + 3]);
        assert(s[4] == data@[off as int + 4]);
        assert(s[5] == data@[off as int + 5]);
        assert(s[6] == data@[off as int + 6]);
        assert(s[7] == data@[off as int + 7]);
    }
    r
}

pub fn write_u16_be(data: &mut Vec<u8>, off: usize, x: u16)
    requires
        off + 2 <= old(data)@.len(),
    ensures
        final(data)@ == spec_write(old(data)@, off as int, spec_u16_to_be(x)),
{
    let data_len = data.len();
    data.set(off, (x / 256) as u8);
    data.set(off + 1, (x % 256) as u8);
    proof {
        assert(data@ =~= spec_write(old(data)@, off as int, spec_u16_to_be(x)));
    }
}

pub fn write_u16_le(data: &mut Vec<u8>, off: usize, x: u16)
    requires
        off + 2 <= old(data)@.len(),
    ensures
        final(data)@ == spec_write(old(data)@, off as int, spec_u16_to_le(x)),
{
    let data_len = data.len();
    data.set(off, (x % 256) as u8);
    data.set(off + 1, (x / 256) as u8);
    proof {
        assert(data@ =~= spec_write(old(data)@, off as int, spec_u16_to_le(x)));
    }
}

pub fn write_u32_be(data: &mut Vec<u8>, off: usize, x: u32)
    requires
        off + 4 <= old(data)@.len(),
    ensures
        final(data)@ == spec_write(old(data)@, off as int, spec_u32_to_be(x)),
{
    let data_len = data.len();
    data.set(off, ((x / 0x1000000) % 256) as u8);
    data.set(off + 1, ((x / 0x10000) % 256) as u8);
    data.set(off + 2, ((x / 0x100) % 256) as u8);
    data.set(off + 3, (x % 256) as u8);
    proof {
        assert(data@ =~= spec_write(old(data)@, off as int, spec_u32_to_be(x)));
    }
}

pub fn write_u64_be(data: &mut Vec<u8>, off: usize, x: u64)
    requires
        off + 8 <= old(data)@.len(),
    ensures
        final(data)@ == spec_write(old(data)@, off as int, spec_u64_to_be(x)),
{
    let data_len = data.len();
    data.set(off, ((x / 0x100000000000000) % 256) as u8);
    data.set(off + 1, ((x / 0x1000000000000) % 256) as u8);
    data.set(off + 2, ((x / 0x10000000000) % 256) as u8);
    data.set(off + 3, ((x / 0x100000000) % 256) as u8);
    data.set(off + 4, ((x / 0x1000000) % 256) as u8);
    data.set(off + 5, ((x / 0x10000) % 256) as u8);
    data.set(off + 6, ((x / 0x100) % 256) as u8);
    data.set(off + 7, (x % 256) as u8);
    proof {
        assert(data@ =~= spec_write(old(data)@, off as int, spec_u64_to_be(x)));
    }
}

/// Overwrite `data[off .. off + src.len()]` with the contents of `src`.
pub fn write_bytes(data: &mut Vec<u8>, off: usize, src: &Vec<u8>) -> (nothing: ())
    requires
        off + src@.len() <= old(data)@.len(),
    ensures
        final(data)@ == spec_write(old(data)@, off as int, src@),
{
    let data_len = data.len();
    let n = src.len();
    let mut i: usize = 0;
    while i < n
        invariant
            n == src@.len(),
            off + n <= data@.len(),
            off + n <= usize::MAX,
            i <= n,
            data@.len() == old(data)@.len(),
            forall|j: int| 0 <= j < i ==> data@[off + j] == src@[j],
            forall|j: int|
                0 <= j < data@.len() && !(off <= j < off + i) ==> data@[j] == old(data)@[j],
        decreases n - i,
    {
        data.set(off + i, src[i]);
        i += 1;
    }
    proof {
        assert(data@ =~= spec_write(old(data)@, off as int, src@));
    }
}

} // verus!
