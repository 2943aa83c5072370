use vstd::prelude::*;
use crate::blocks::ELEMENT_SIZE;

verus! {

/// Reads a 40-bit unsigned value as a 40-bit two's-complement signed value.
pub open spec fn spec_u40_as_i40(u40: int) -> int {
    if u40 < 0x80_0000_0000 {
        u40
    } else {
        u40 - 0x100_0000_0000
    }
}

/// Writes a signed value back as its 40-bit unsigned representation.
pub open spec fn spec_i40_as_u40(i40: int) -> int {
    if i40 < 0 {
        i40 + 0x100_0000_0000
    } else {
        i40
    }
}

/// The little-endian value of a group of five bytes.
pub open spec fn le_bytes_as_u40(b: Seq<u8>) -> int {
    b[0] + b[1] * 0x100 + b[2] * 0x1_0000 + b[3] * 0x100_0000 + b[4] * 0x1_0000_0000
}

pub open spec fn pow256(k: int) -> int {
    if k <= 0 {
        1
    } else if k == 1 {
        0x100
    } else if k == 2 {
        0x1_0000
    } else if k == 3 {
        0x100_0000
    } else {
        0x1_0000_0000
    }
}

/// Byte `k` (little-endian) of the low 40 bits of `v`.
pub open spec fn u40_byte(v: int, k: int) -> u8 {
    ((v / pow256(k)) % 0x100) as u8
}

/// The signed 64-bit elements encoded by `bytes`, five bytes each.
pub open spec fn joined_elements(bytes: Seq<u8>) -> Seq<i64> {
    Seq::new(
        bytes.len() / 5,
        |i: int| spec_u40_as_i40(le_bytes_as_u40(bytes.subrange(5 * i, 5 * i + 5))) as i64,
    )
}

/// The five little-endian bytes of each element, concatenated.
pub open spec fn split_elements(data: Seq<i64>) -> Seq<u8> {
    Seq::new(data.len() * 5, |j: int| u40_byte(spec_i40_as_u40(data[j / 5] as int), j % 5))
}

/// An element that `split_bytes` accepts: the residue left after its low
/// 40 bits are consumed must be 0 or 1.
pub open spec fn element_in_range(v: i64) -> bool {
    -0x100_0000_0000 <= v < 0x200_0000_0000
}

pub fn u40_as_i40(u40: u64) -> (r: i64)
    requires
        u40 < 0x100_0000_0000,
    ensures
        r == spec_u40_as_i40(u40 as int),
{
    let half: u64 = 0x80_0000_0000;
    if u40 < half {
        u40 as i64
    } else {
        (u40 as i64) - 0x100_0000_0000i64
    }
}

pub fn i40_as_u40(i40: i64) -> (r: u64)
    requires
        element_in_range(i40),
    ensures
        r == spec_i40_as_u40(i40 as int),
{
    if i40 < 0 {
        (i40 + 0x100_0000_0000i64) as u64
    } else {
        i40 as u64
    }
}

/// Decodes `bytes` in groups of five into signed 40-bit elements.
pub fn join_bytes(bytes: &[u8], data: &mut Vec<i64>)
    requires
        bytes@.len() % 5 == 0,
        old(data)@.len() == bytes@.len() / 5,
    ensures
        final(data)@ == joined_elements(bytes@),
{
    let n = bytes.len();
    let mut i: usize = 0;
    while i < n
        invariant
            0 <= i <= n,
            i % 5 == 0,
            n % 5 == 0,
            n == bytes@.len(),
            data@.len() == n / 5,
            forall|j: int| 0 <= j < i / 5 ==> data@[j] == joined_elements(bytes@)[j],
        decreases n - i,
    {
        let b0 = bytes[i] as u64;
        let b1 = bytes[i + 1] as u64;
        let b2 = bytes[i + 2] as u64;
        let b3 = bytes[i + 3] as u64;
        let b4 = bytes[i + 4] as u64;
        let element: u64 = b0 + b1 * 0x100 + b2 * 0x1_0000 + b3 * 0x100_0000 + b4
            * 0x1_0000_0000;
        let index = i / ELEMENT_SIZE;
        proof {
            let sub = bytes@.subrange(5 * index as int, 5 * index as int + 5);
            assert(sub[0] == b0 && sub[1] == b1 && sub[2] == b2 && sub[3] == b3 && sub[4] == b4);
        }
        let value = u40_as_i40(element);
        data.set(index, value);
        i = i + 5;
    }
    proof {
        assert(data@ =~= joined_elements(bytes@));
    }
}

/// Encodes each element as five little-endian bytes of its 40-bit
/// representation.
pub fn split_bytes(data: &[i64], bytes: &mut Vec<u8>)
    requires
        forall|i: int| 0 <= i < data@.len() ==> element_in_range(#[trigger] data@[i]),
        old(bytes)@.len() == data@.len() * 5,
    ensures
        final(bytes)@ == split_elements(data@),
{
    let n = data.len();
    let total = bytes.len();
    let mut i: usize = 0;
    while i < n
        invariant
            0 <= i <= n,
            n == data@.len(),
            bytes@.len() == n * 5,
            total == n * 5,
            forall|k: int| 0 <= k < data@.len() ==> element_in_range(#[trigger] data@[k]),
            forall|j: int| 0 <= j < 5 * i ==> bytes@[j] == split_elements(data@)[j],
        decreases n - i,
    {
        let e = i40_as_u40(data[i]);
        let base = i * ELEMENT_SIZE;
        bytes.set(base, (e % 0x100) as u8);
        bytes.set(base + 1, ((e / 0x100) % 0x100) as u8);
        bytes.set(base + 2, ((e / 0x1_0000) % 0x100) as u8);
        bytes.set(base + 3, ((e / 0x100_0000) % 0x100) as u8);
        bytes.set(base + 4, ((e / 0x1_0000_0000) % 0x100) as u8);
        i = i + 1;
    }
    proof {
        assert(bytes@ =~= split_elements(data@));
    }
}

/// Converting a 40-bit unsigned value to signed and back yields the value
/// unchanged.
pub proof fn u40_as_i40_can_be_reversed(u40: int)
    requires
        0 <= u40 < 0x100_0000_0000,
    ensures
        spec_i40_as_u40(spec_u40_as_i40(u40)) == u40,
{
}

/// Splitting elements into bytes and joining the bytes again yields the
/// elements unchanged, for every element within the signed 40-bit range.
pub proof fn join_bytes_can_be_reversed(data: Seq<i64>)
    requires
        forall|i: int| 0 <= i < data.len() ==> -0x80_0000_0000 <= #[trigger] data[i]
            < 0x80_0000_0000,
    ensures
        joined_elements(split_elements(data)) == data,
{
    let bytes = split_elements(data);
    assert forall|i: int| 0 <= i < data.len() implies joined_elements(bytes)[i] == data[i] by {
        let v = spec_i40_as_u40(data[i] as int);
        let sub = bytes.subrange(5 * i, 5 * i + 5);
        assert(sub[0] == u40_byte(v, 0) && sub[1] == u40_byte(v, 1) && sub[2] == u40_byte(v, 2)
            && sub[3] == u40_byte(v, 3) && sub[4] == u40_byte(v, 4));
        lemma_u40_bytes_rejoin(v);
        assert(spec_u40_as_i40(v) == data[i]);
    }
    assert(joined_elements(split_elements(data)) =~= data);
}

/// Joining bytes into elements and splitting again yields the bytes
/// unchanged, for any byte sequence whose length is a multiple of five.
pub proof fn split_bytes_can_be_reversed(bytes: Seq<u8>)
    requires
        bytes.len() % 5 == 0,
    ensures
        split_elements(joined_elements(bytes)) == bytes,
{
    let data = joined_elements(bytes);
    assert(data.len() == bytes.len() / 5);
    assert forall|j: int| 0 <= j < bytes.len() implies split_elements(data)[j] == bytes[j] by {
        let i = j / 5;
        let k = j % 5;
        let sub = bytes.subrange(5 * i, 5 * i + 5);
        let u = le_bytes_as_u40(sub);
        lemma_le_bytes_in_range(sub);
        assert(spec_i40_as_u40(spec_u40_as_i40(u)) == u);
        lemma_u40_split(sub);
        assert(sub[k] == bytes[j]);
        assert(split_elements(data)[j] == u40_byte(u, k));
    }
    assert(split_elements(joined_elements(bytes)) =~= bytes);
}

/// Every decoded element lies in the signed 40-bit range.
pub proof fn lemma_joined_elements_in_range(bytes: Seq<u8>)
    ensures
        forall|i: int|
            0 <= i < bytes.len() / 5 ==> -0x80_0000_0000 <= #[trigger] joined_elements(bytes)[i]
                < 0x80_0000_0000,
{
    assert forall|i: int|
        0 <= i < bytes.len() / 5 implies -0x80_0000_0000 <= #[trigger] joined_elements(bytes)[i]
        < 0x80_0000_0000 by {
        lemma_le_bytes_in_range(bytes.subrange(5 * i, 5 * i + 5));
    }
}

/// The little-endian value of five bytes lies below 2^40.
proof fn lemma_le_bytes_in_range(b: Seq<u8>)
    requires
        b.len() == 5,
    ensures
        0 <= le_bytes_as_u40(b) < 0x100_0000_0000,
{
}

/// Extracting each little-endian byte of a 40-bit value gives back the
/// bytes it was assembled from.
proof fn lemma_u40_split(b: Seq<u8>)
    requires
        b.len() == 5,
    ensures
        u40_byte(le_bytes_as_u40(b), 0) == b[0],
        u40_byte(le_bytes_as_u40(b), 1) == b[1],
        u40_byte(le_bytes_as_u40(b), 2) == b[2],
        u40_byte(le_bytes_as_u40(b), 3) == b[3],
        u40_byte(le_bytes_as_u40(b), 4) == b[4],
{
    let x0 = b[0];
    let x1 = b[1];
    let x2 = b[2];
    let x3 = b[3];
    let x4 = b[4];
    assert((x0 + x1 * 0x100 + x2 * 0x1_0000 + x3 * 0x100_0000 + x4 * 0x1_0000_0000) % 0x100
        == x0) by (bit_vector);
    assert((x0 + x1 * 0x100 + x2 * 0x1_0000 + x3 * 0x100_0000 + x4 * 0x1_0000_0000) / 0x100
        % 0x100 == x1) by (bit_vector);
    assert((x0 + x1 * 0x100 + x2 * 0x1_0000 + x3 * 0x100_0000 + x4 * 0x1_0000_0000) / 0x1_0000
        % 0x100 == x2) by (bit_vector);
    assert((x0 + x1 * 0x100 + x2 * 0x1_0000 + x3 * 0x100_0000 + x4 * 0x1_0000_0000) / 0x100_0000
        % 0x100 == x3) by (bit_vector);
    assert((x0 + x1 * 0x100 + x2 * 0x1_0000 + x3 * 0x100_0000 + x4 * 0x1_0000_0000)
        / 0x1_0000_0000 % 0x100 == x4) by (bit_vector);
}

/// Reassembling the five little-endian bytes of a 40-bit value gives the
/// value back.
proof fn lemma_u40_bytes_rejoin(v: int)
    requires
        0 <= v < 0x100_0000_0000,
    ensures
        u40_byte(v, 0) + u40_byte(v, 1) * 0x100 + u40_byte(v, 2) * 0x1_0000 + u40_byte(v, 3)
            * 0x100_0000 + u40_byte(v, 4) * 0x1_0000_0000 == v,
{
    let w = v as u64;
    assert(w % 0x100 + (w / 0x100 % 0x100) * 0x100 + (w / 0x1_0000 % 0x100) * 0x1_0000 + (w
        / 0x100_0000 % 0x100) * 0x100_0000 + (w / 0x1_0000_0000 % 0x100) * 0x1_0000_0000 == w)
        by (bit_vector)
        requires
            w < 0x100_0000_0000,
    ;
}

} // verus!
