use vstd::prelude::*;
use vstd::arithmetic::div_mod::{
    lemma_add_mod_noop_right, lemma_fundamental_div_mod, lemma_fundamental_div_mod_converse_mod,
    lemma_mod_bound, lemma_mul_mod_noop_left, lemma_add_mod_noop, lemma_small_mod,
    lemma_sub_mod_noop, lemma_sub_mod_noop_right,
};

verus! {

/// The unsigned 8-bit representation of a signed byte.
pub open spec fn u8_of_i8(x: i8) -> u8 {
    (if x < 0 {
        x + 256
    } else {
        x as int
    }) as u8
}

/// The signed reading of an unsigned byte.
pub open spec fn i8_of_u8(x: u8) -> i8 {
    (if x < 128 {
        x as int
    } else {
        x - 256
    }) as i8
}

pub open spec fn bytes_of_signed(s: Seq<i8>) -> Seq<u8> {
    s.map_values(|x: i8| u8_of_i8(x))
}

pub open spec fn signed_of_bytes(s: Seq<u8>) -> Seq<i8> {
    s.map_values(|x: u8| i8_of_u8(x))
}

/// Bit `i` of a byte, counting from the least significant bit.
pub open spec fn bit8(x: u8, i: u8) -> u8 {
    (x >> i) & 1
}

/// Bit `p` of a byte string, bytes in order of increasing index, most
/// significant bit first within each byte.
pub open spec fn bit_at(s: Seq<u8>, p: int) -> u8 {
    bit8(s[p / 8], (7 - p % 8) as u8)
}

/// The value of a big-endian byte string as a natural number.
pub open spec fn be_bytes_as_nat(s: Seq<u8>) -> nat
    decreases s.len(),
{
    if s.len() == 0 {
        0
    } else {
        be_bytes_as_nat(s.drop_last()) * 256 + (s.last() as nat)
    }
}

/// `dst` is `src` rotated left at the bit level by `s` positions: bits
/// that fall off the left re-enter at the right.
pub open spec fn is_rotl(src: Seq<u8>, dst: Seq<u8>, s: nat) -> bool {
    &&& dst.len() == src.len()
    &&& forall|p: int|
        0 <= p < 8 * src.len() ==> #[trigger] bit_at(dst, p) == bit_at(
            src,
            (p + s) % (8 * src.len() as int),
        )
}

/// `dst` is `src` rotated right at the bit level by `s` positions.
pub open spec fn is_rotr(src: Seq<u8>, dst: Seq<u8>, s: nat) -> bool {
    &&& dst.len() == src.len()
    &&& forall|p: int|
        0 <= p < 8 * src.len() ==> #[trigger] bit_at(dst, p) == bit_at(
            src,
            (p - s) % (8 * src.len() as int),
        )
}

pub(crate) fn i8_to_u8(x: i8) -> (r: u8)
    ensures
        r == u8_of_i8(x),
{
    if x >= 0 {
        x as u8
    } else {
        ((x as i16) + 256) as u8
    }
}

pub(crate) fn u8_to_i8(x: u8) -> (r: i8)
    ensures
        r == i8_of_u8(x),
{
    if x < 128 {
        x as i8
    } else {
        ((x as i16) - 256) as i8
    }
}

/// Reduces a big-endian number modulo `m`, one byte at a time.
fn mod_be_bytes(bytes: &[u8], m: u64) -> (r: u64)
    requires
        m > 0,
    ensures
        r == be_bytes_as_nat(bytes@) % (m as nat),
{
    let n = bytes.len();
    let mut acc: u64 = 0;
    let mut i: usize = 0;
    proof {
        assert(bytes@.take(0).len() == 0);
        lemma_small_mod(0nat, m as nat);
    }
    while i < n
        invariant
            0 <= i <= n,
            n == bytes@.len(),
            m > 0,
            acc < m,
            acc == be_bytes_as_nat(bytes@.take(i as int)) % (m as nat),
        decreases n - i,
    {
        let b = bytes[i];
        let t: u128 = (acc as u128) * 256 + (b as u128);
        let next: u64 = (t % (m as u128)) as u64;
        proof {
            let prefix = bytes@.take(i as int);
            let prefix1 = bytes@.take(i as int + 1);
            assert(prefix1.drop_last() =~= prefix);
            assert(prefix1.last() == b);
            let v = be_bytes_as_nat(prefix) as int;
            let mi = m as int;
            lemma_mul_mod_noop_left(v, 256, mi);
            lemma_add_mod_noop(v * 256, b as int, mi);
            lemma_add_mod_noop((v % mi) * 256, b as int, mi);
            assert(t == (v % mi) * 256 + b);
            assert(t % (m as u128) == ((v % mi) * 256 + b) % mi);
        }
        acc = next;
        i = i + 1;
    }
    proof {
        assert(bytes@.take(n as int) =~= bytes@);
    }
    acc
}

#[inline]
fn exchange_bits_left(a: i8, b: i8, bits_to_exchange: u8) -> (r: u8)
    requires
        0 < bits_to_exchange < 8,
    ensures
        r == (u8_of_i8(a) << bits_to_exchange) | (u8_of_i8(b) >> ((8 - bits_to_exchange) as u8)),
{
    (i8_to_u8(a) << bits_to_exchange) | (i8_to_u8(b) >> (8 - bits_to_exchange))
}

#[inline]
fn exchange_bits_right(a: u8, b: u8, bits_to_exchange: u8) -> (r: i8)
    requires
        0 < bits_to_exchange < 8,
    ensures
        u8_of_i8(r) == (a << ((8 - bits_to_exchange) as u8)) | (b >> bits_to_exchange),
{
    let raw: u8 = (a << (8 - bits_to_exchange)) | (b >> bits_to_exchange);
    let r = u8_to_i8(raw);
    proof {
        assert(u8_of_i8(i8_of_u8(raw)) == raw);
    }
    r
}

/// How each bit of the byte spliced for a left rotation relates to the
/// bits of the two source bytes.
proof fn lemma_exchange_left_bits(a: u8, b: u8, s: u8, i: u8)
    requires
        0 < s < 8,
        i < 8,
    ensures
        bit8((a << s) | (b >> ((8 - s) as u8)), i) == if i >= s {
            bit8(a, (i - s) as u8)
        } else {
            bit8(b, ((i + 8) - s) as u8)
        },
{
    assert(bit8((a << s) | (b >> ((8 - s) as u8)), i) == if i >= s {
        bit8(a, (i - s) as u8)
    } else {
        bit8(b, ((i + 8) - s) as u8)
    }) by (bit_vector)
        requires
            0 < s < 8,
            i < 8,
    ;
}

/// How each bit of the byte spliced for a right rotation relates to the
/// bits of the two source bytes.
proof fn lemma_exchange_right_bits(a: u8, b: u8, s: u8, i: u8)
    requires
        0 < s < 8,
        i < 8,
    ensures
        bit8((a << ((8 - s) as u8)) | (b >> s), i) == if i + s >= 8 {
            bit8(a, ((i + s) - 8) as u8)
        } else {
            bit8(b, (i + s) as u8)
        },
{
    assert(bit8((a << ((8 - s) as u8)) | (b >> s), i) == if i + s >= 8 {
        bit8(a, ((i + s) - 8) as u8)
    } else {
        bit8(b, (i + s) as u8)
    }) by (bit_vector)
        requires
            0 < s < 8,
            i < 8,
    ;
}

/// Two bytes with the same eight bits are the same byte.
proof fn lemma_byte_from_bits(x: u8, y: u8)
    requires
        forall|i: u8| i < 8 ==> #[trigger] bit8(x, i) == bit8(y, i),
    ensures
        x == y,
{
    assert(bit8(x, 0) == bit8(y, 0));
    assert(bit8(x, 1) == bit8(y, 1));
    assert(bit8(x, 2) == bit8(y, 2));
    assert(bit8(x, 3) == bit8(y, 3));
    assert(bit8(x, 4) == bit8(y, 4));
    assert(bit8(x, 5) == bit8(y, 5));
    assert(bit8(x, 6) == bit8(y, 6));
    assert(bit8(x, 7) == bit8(y, 7));
    assert(x == y) by (bit_vector)
        requires
            (x >> 0u8) & 1 == (y >> 0u8) & 1,
            (x >> 1u8) & 1 == (y >> 1u8) & 1,
            (x >> 2u8) & 1 == (y >> 2u8) & 1,
            (x >> 3u8) & 1 == (y >> 3u8) & 1,
            (x >> 4u8) & 1 == (y >> 4u8) & 1,
            (x >> 5u8) & 1 == (y >> 5u8) & 1,
            (x >> 6u8) & 1 == (y >> 6u8) & 1,
            (x >> 7u8) & 1 == (y >> 7u8) & 1,
    ;
}

/// Two byte strings of equal length with the same bits are equal.
pub(crate) proof fn lemma_bytes_eq_from_bits(a: Seq<u8>, b: Seq<u8>)
    requires
        a.len() == b.len(),
        forall|p: int| 0 <= p < 8 * a.len() ==> #[trigger] bit_at(a, p) == bit_at(b, p),
    ensures
        a == b,
{
    assert forall|k: int| 0 <= k < a.len() implies a[k] == b[k] by {
        assert forall|i: u8| i < 8 implies #[trigger] bit8(a[k], i) == bit8(b[k], i) by {
            let p = 8 * k + 7 - i;
            assert(p / 8 == k && p % 8 == 7 - i);
            assert(bit_at(a, p) == bit_at(b, p));
        }
        lemma_byte_from_bits(a[k], b[k]);
    }
    assert(a =~= b);
}

/// A bit position split into its byte and its place in that byte, taken
/// modulo the whole buffer, lands in the byte index modulo the length.
proof fn lemma_bit_index_mod(a: int, r: int, len: int)
    requires
        len > 0,
        0 <= r < 8,
    ensures
        (8 * a + r) % (8 * len) == 8 * (a % len) + r,
{
    let q = a / len;
    let t = a % len;
    lemma_fundamental_div_mod(a, len);
    lemma_mod_bound(a, len);
    assert(8 * a + r == q * (8 * len) + (8 * t + r)) by (nonlinear_arith)
        requires
            a == q * len + t,
    ;
    lemma_fundamental_div_mod_converse_mod(8 * a + r, 8 * len, q, 8 * t + r);
}

/// The byte written at position `k` of a left rotation carries exactly
/// the rotated bits.
proof fn lemma_rotl_byte_ok(src: Seq<u8>, r: u8, k: int, l3: int, l2: u8, s: nat)
    requires
        0 < src.len(),
        0 <= k < src.len(),
        0 <= l3 < src.len(),
        l2 < 8,
        8 * l3 + l2 == (s as int) % (8 * src.len() as int),
        l2 == 0 ==> r == src[(k + l3) % src.len() as int],
        l2 > 0 ==> r == (src[(k + l3) % src.len() as int] << l2) | (src[(k + l3 + 1)
            % src.len() as int] >> ((8 - l2) as u8)),
    ensures
        forall|j: int|
            0 <= j < 8 ==> #[trigger] bit8(r, (7 - j) as u8) == bit_at(
                src,
                (8 * k + j + s) % (8 * src.len() as int),
            ),
{
    let len = src.len() as int;
    let total = 8 * len;
    let t1 = (k + l3) % len;
    let t2 = (k + l3 + 1) % len;
    lemma_mod_bound(k + l3, len);
    lemma_mod_bound(k + l3 + 1, len);
    assert forall|j: int|
        0 <= j < 8 implies #[trigger] bit8(r, (7 - j) as u8) == bit_at(
        src,
        (8 * k + j + s) % total,
    ) by {
        lemma_add_mod_noop_right(8 * k + j, s as int, total);
        assert((8 * k + j + s) % total == (8 * k + j + 8 * l3 + l2) % total);
        if j + l2 < 8 {
            lemma_bit_index_mod(k + l3, j + l2, len);
            assert((8 * k + j + 8 * l3 + l2) % total == 8 * t1 + (j + l2));
            assert(bit_at(src, 8 * t1 + (j + l2)) == bit8(src[t1], (7 - (j + l2)) as u8));
            if l2 == 0 {
                assert(bit8(r, (7 - j) as u8) == bit8(src[t1], (7 - (j + l2)) as u8));
            } else {
                lemma_exchange_left_bits(src[t1], src[t2], l2, (7 - j) as u8);
                assert(((7 - j) as u8) >= l2);
                assert(((7 - j) as u8 - l2) as u8 == (7 - (j + l2)) as u8);
            }
        } else {
            lemma_bit_index_mod(k + l3 + 1, j + l2 - 8, len);
            assert(8 * k + j + 8 * l3 + l2 == 8 * (k + l3 + 1) + (j + l2 - 8));
            assert((8 * k + j + 8 * l3 + l2) % total == 8 * t2 + (j + l2 - 8));
            assert(bit_at(src, 8 * t2 + (j + l2 - 8)) == bit8(src[t2], (7 - (j + l2 - 8)) as u8));
            lemma_exchange_left_bits(src[t1], src[t2], l2, (7 - j) as u8);
            assert(((7 - j) as u8) < l2);
            assert(((((7 - j) as u8) + 8 - l2) as u8) == (7 - (j + l2 - 8)) as u8);
        }
    }
}

/// The byte written at position `k` of a right rotation carries exactly
/// the rotated bits.
proof fn lemma_rotr_byte_ok(src: Seq<u8>, r: u8, k: int, l3: int, l2: u8, s: nat)
    requires
        0 < src.len(),
        0 <= k < src.len(),
        0 <= l3 < src.len(),
        l2 < 8,
        8 * l3 + l2 == (s as int) % (8 * src.len() as int),
        l2 == 0 ==> r == src[(k - l3) % src.len() as int],
        l2 > 0 ==> r == (src[(k - l3 - 1) % src.len() as int] << ((8 - l2) as u8)) | (src[(k - l3)
            % src.len() as int] >> l2),
    ensures
        forall|j: int|
            0 <= j < 8 ==> #[trigger] bit8(r, (7 - j) as u8) == bit_at(
                src,
                (8 * k + j - s) % (8 * src.len() as int),
            ),
{
    let len = src.len() as int;
    let total = 8 * len;
    let t1 = (k - l3 - 1) % len;
    let t2 = (k - l3) % len;
    lemma_mod_bound(k - l3 - 1, len);
    lemma_mod_bound(k - l3, len);
    assert forall|j: int|
        0 <= j < 8 implies #[trigger] bit8(r, (7 - j) as u8) == bit_at(
        src,
        (8 * k + j - s) % total,
    ) by {
        lemma_sub_mod_noop_right(8 * k + j, s as int, total);
        assert((8 * k + j - s) % total == (8 * k + j - (8 * l3 + l2)) % total);
        if j >= l2 {
            lemma_bit_index_mod(k - l3, j - l2, len);
            assert(8 * k + j - (8 * l3 + l2) == 8 * (k - l3) + (j - l2));
            assert((8 * k + j - (8 * l3 + l2)) % total == 8 * t2 + (j - l2));
            assert(bit_at(src, 8 * t2 + (j - l2)) == bit8(src[t2], (7 - (j - l2)) as u8));
            if l2 == 0 {
                assert(bit8(r, (7 - j) as u8) == bit8(src[t2], (7 - (j - l2)) as u8));
            } else {
                lemma_exchange_right_bits(src[t1], src[t2], l2, (7 - j) as u8);
                assert(((7 - j) as u8) + l2 < 8);
                assert(((((7 - j) as u8) + l2) as u8) == (7 - (j - l2)) as u8);
            }
        } else {
            lemma_bit_index_mod(k - l3 - 1, j + 8 - l2, len);
            assert(8 * k + j - (8 * l3 + l2) == 8 * (k - l3 - 1) + (j + 8 - l2));
            assert((8 * k + j - (8 * l3 + l2)) % total == 8 * t1 + (j + 8 - l2));
            assert(bit_at(src, 8 * t1 + (j + 8 - l2)) == bit8(src[t1], (7 - (j + 8 - l2)) as u8));
            lemma_exchange_right_bits(src[t1], src[t2], l2, (7 - j) as u8);
            assert(((7 - j) as u8) + l2 >= 8);
            assert(((((7 - j) as u8) + l2 - 8) as u8) == (7 - (j + 8 - l2)) as u8);
        }
    }
}

/// Rotates the buffer left at the bit level by `bits_to_shift` positions,
/// read as a big-endian number and reduced modulo the buffer's bit count.
pub fn cycle_left(data: &[i8], bits_to_shift: &[u8], cycled_data: &mut Vec<u8>)
    requires
        0 < data@.len() < 0x2000_0000_0000_0000,
        old(cycled_data)@.len() == data@.len(),
    ensures
        is_rotl(bytes_of_signed(data@), final(cycled_data)@, be_bytes_as_nat(bits_to_shift@)),
{
    let len = data.len();
    let total_bits: u64 = 8 * (len as u64);
    let l1: u64 = mod_be_bytes(bits_to_shift, total_bits);
    let l2: u8 = (l1 % 8) as u8;
    let l3: usize = (l1 / 8) as usize;
    let ghost src = bytes_of_signed(data@);
    let ghost s = be_bytes_as_nat(bits_to_shift@);
    let ghost total = 8 * data@.len() as int;
    proof {
        assert(src.len() == data@.len());
        assert(8 * l3 + l2 == (s as int) % total);
        assert(l3 < len);
    }
    let wrap = len - l3;
    let mut k: usize = 0;
    while k < len
        invariant
            0 <= k <= len,
            len == data@.len(),
            0 < len < 0x2000_0000_0000_0000,
            cycled_data@.len() == len,
            l2 < 8,
            l3 < len,
            wrap == len - l3,
            total == 8 * len,
            src == bytes_of_signed(data@),
            8 * l3 + l2 == (s as int) % total,
            forall|p: int|
                0 <= p < 8 * k ==> #[trigger] bit_at(cycled_data@, p) == bit_at(
                    src,
                    (p + s) % total,
                ),
        decreases len - k,
    {
        let idx = if k < wrap {
            k + l3
        } else {
            k - wrap
        };
        proof {
            if k < wrap {
                lemma_small_mod((k + l3) as nat, len as nat);
            } else {
                lemma_fundamental_div_mod_converse_mod(k + l3, len as int, 1, k - wrap);
            }
            assert(idx == (k + l3) % len as int);
        }
        let r: u8;
        if l2 == 0 {
            r = i8_to_u8(data[idx]);
        } else {
            let nxt = if idx + 1 < len {
                idx + 1
            } else {
                0
            };
            proof {
                let q = (k + l3) / len as int;
                lemma_fundamental_div_mod(k + l3, len as int);
                if idx + 1 < len {
                    assert(k + l3 + 1 == q * (len as int) + (idx + 1)) by (nonlinear_arith)
                        requires
                            k + l3 == (len as int) * q + idx,
                    ;
                    lemma_fundamental_div_mod_converse_mod(k + l3 + 1, len as int, q, idx + 1);
                } else {
                    assert(k + l3 + 1 == (q + 1) * (len as int) + 0) by (nonlinear_arith)
                        requires
                            k + l3 == (len as int) * q + idx,
                            idx + 1 == len,
                    ;
                    lemma_fundamental_div_mod_converse_mod(k + l3 + 1, len as int, q + 1, 0);
                }
                assert(nxt == (k + l3 + 1) % len as int);
            }
            r = exchange_bits_left(data[idx], data[nxt], l2);
        }
        let ghost pre = cycled_data@;
        cycled_data.set(k, r);
        proof {
            lemma_rotl_byte_ok(src, r, k as int, l3 as int, l2, s);
            assert forall|p: int|
                0 <= p < 8 * (k + 1) implies #[trigger] bit_at(cycled_data@, p) == bit_at(
                src,
                (p + s) % total,
            ) by {
                if p >= 8 * k {
                    let j = p - 8 * k;
                    assert(p / 8 == k as int && p % 8 == j);
                    assert(bit_at(cycled_data@, p) == bit8(r, (7 - j) as u8));
                } else {
                    assert(p / 8 < k as int);
                    assert(bit_at(pre, p) == bit_at(src, (p + s) % total));
                    assert(cycled_data@[p / 8] == pre[p / 8]);
                }
            }
        }
        k = k + 1;
    }
}

/// Rotates the buffer right at the bit level by `bits_to_shift` positions,
/// read as a big-endian number and reduced modulo the buffer's bit count.
pub fn cycle_right(data: &[u8], bits_to_shift: &[u8], cycled_data: &mut Vec<i8>)
    requires
        0 < data@.len() < 0x2000_0000_0000_0000,
        old(cycled_data)@.len() == data@.len(),
    ensures
        is_rotr(data@, bytes_of_signed(final(cycled_data)@), be_bytes_as_nat(bits_to_shift@)),
{
    let len = data.len();
    let total_bits: u64 = 8 * (len as u64);
    let l1: u64 = mod_be_bytes(bits_to_shift, total_bits);
    let l2: u8 = (l1 % 8) as u8;
    let l3: usize = (l1 / 8) as usize;
    let ghost src = data@;
    let ghost s = be_bytes_as_nat(bits_to_shift@);
    let ghost total = 8 * data@.len() as int;
    proof {
        assert(8 * l3 + l2 == (s as int) % total);
        assert(l3 < len);
    }
    let mut k: usize = 0;
    while k < len
        invariant
            0 <= k <= len,
            len == data@.len(),
            0 < len < 0x2000_0000_0000_0000,
            cycled_data@.len() == len,
            l2 < 8,
            l3 < len,
            total == 8 * len,
            src == data@,
            8 * l3 + l2 == (s as int) % total,
            forall|p: int|
                0 <= p < 8 * k ==> #[trigger] bit8(u8_of_i8(cycled_data@[p / 8]), (7 - p % 8) as u8)
                    == bit_at(src, (p - s) % total),
        decreases len - k,
    {
        let b_idx = if k >= l3 {
            k - l3
        } else {
            k + (len - l3)
        };
        proof {
            if k >= l3 {
                lemma_small_mod((k - l3) as nat, len as nat);
            } else {
                lemma_fundamental_div_mod_converse_mod(
                    k - l3,
                    len as int,
                    -1,
                    k + (len - l3),
                );
            }
            assert(b_idx == (k - l3) % len as int);
        }
        let v: i8;
        if l2 == 0 {
            v = u8_to_i8(data[b_idx]);
        } else {
            let a_idx = if b_idx >= 1 {
                b_idx - 1
            } else {
                len - 1
            };
            proof {
                let q = (k - l3) / len as int;
                lemma_fundamental_div_mod(k - l3, len as int);
                if b_idx >= 1 {
                    assert(k - l3 - 1 == q * (len as int) + (b_idx - 1)) by (nonlinear_arith)
                        requires
                            k - l3 == (len as int) * q + b_idx,
                    ;
                    lemma_fundamental_div_mod_converse_mod(k - l3 - 1, len as int, q, b_idx - 1);
                } else {
                    assert(k - l3 - 1 == (q - 1) * (len as int) + (len - 1)) by (nonlinear_arith)
                        requires
                            k - l3 == (len as int) * q + b_idx,
                            b_idx == 0,
                            len > 0,
                    ;
                    lemma_fundamental_div_mod_converse_mod(k - l3 - 1, len as int, q - 1, len - 1);
                }
                assert(a_idx == (k - l3 - 1) % len as int);
            }
            v = exchange_bits_right(data[a_idx], data[b_idx], l2);
        }
        let ghost pre = cycled_data@;
        cycled_data.set(k, v);
        proof {
            lemma_rotr_byte_ok(src, u8_of_i8(v), k as int, l3 as int, l2, s);
            assert forall|p: int|
                0 <= p < 8 * (k + 1) implies #[trigger] bit8(
                u8_of_i8(cycled_data@[p / 8]),
                (7 - p % 8) as u8,
            ) == bit_at(src, (p - s) % total) by {
                if p >= 8 * k {
                    let j = p - 8 * k;
                    assert(p / 8 == k as int && p % 8 == j);
                } else {
                    assert(p / 8 < k as int);
                    assert(bit8(u8_of_i8(pre[p / 8]), (7 - p % 8) as u8) == bit_at(
                        src,
                        (p - s) % total,
                    ));
                    assert(cycled_data@[p / 8] == pre[p / 8]);
                }
            }
        }
        k = k + 1;
    }
    proof {
        assert forall|p: int|
            0 <= p < 8 * src.len() implies #[trigger] bit_at(bytes_of_signed(cycled_data@), p)
            == bit_at(src, (p - s) % total) by {
            assert(bytes_of_signed(cycled_data@)[p / 8] == u8_of_i8(cycled_data@[p / 8]));
        }
    }
}

/// A source and a shift determine the rotated buffer completely.
pub proof fn lemma_rotl_unique(src: Seq<u8>, d1: Seq<u8>, d2: Seq<u8>, s: nat)
    requires
        src.len() > 0,
        is_rotl(src, d1, s),
        is_rotl(src, d2, s),
    ensures
        d1 == d2,
{
    assert forall|p: int| 0 <= p < 8 * d1.len() implies #[trigger] bit_at(d1, p) == bit_at(
        d2,
        p,
    ) by {
        assert(bit_at(d1, p) == bit_at(src, (p + s) % (8 * src.len() as int)));
        assert(bit_at(d2, p) == bit_at(src, (p + s) % (8 * src.len() as int)));
    }
    lemma_bytes_eq_from_bits(d1, d2);
}

/// A right rotation read backwards is a left rotation by the same
/// amount.
pub proof fn lemma_rotr_converse(a: Seq<u8>, b: Seq<u8>, s: nat)
    requires
        a.len() > 0,
        is_rotr(a, b, s),
    ensures
        is_rotl(b, a, s),
{
    let total = 8 * a.len() as int;
    assert(b.len() == a.len());
    assert forall|p: int| 0 <= p < 8 * b.len() implies #[trigger] bit_at(a, p) == bit_at(
        b,
        (p + s) % total,
    ) by {
        let q = (p + s) % total;
        lemma_mod_bound(p + s, total);
        assert(bit_at(b, q) == bit_at(a, (q - s) % total));
        lemma_sub_mod_noop_right(q, s as int, total);
        lemma_sub_mod_noop(p + s, s as int, total);
        lemma_small_mod(p as nat, total as nat);
        assert((q - s) % total == p);
    }
}

/// Rotating left and then right by the same amount restores the buffer.
pub proof fn cycle_left_can_be_reversed_with_cycle_right(
    src: Seq<i8>,
    mid: Seq<u8>,
    out: Seq<i8>,
    s: nat,
)
    requires
        src.len() > 0,
        is_rotl(bytes_of_signed(src), mid, s),
        is_rotr(mid, bytes_of_signed(out), s),
    ensures
        out == src,
{
    let a = bytes_of_signed(src);
    let c = bytes_of_signed(out);
    let total = 8 * a.len() as int;
    assert(mid.len() == a.len() && c.len() == a.len());
    assert forall|p: int| 0 <= p < 8 * a.len() implies #[trigger] bit_at(c, p) == bit_at(a, p) by {
        let q = (p - s) % total;
        lemma_mod_bound(p - s, total);
        assert(bit_at(c, p) == bit_at(mid, q));
        assert(bit_at(mid, q) == bit_at(a, (q + s) % total));
        lemma_add_mod_noop_right(q, s as int, total);
        lemma_add_mod_noop(p - s, s as int, total);
        lemma_small_mod(p as nat, total as nat);
        assert((q + s) % total == p);
    }
    lemma_bytes_eq_from_bits(c, a);
    assert forall|i: int| 0 <= i < src.len() implies out[i] == src[i] by {
        assert(u8_of_i8(out[i]) == c[i] && u8_of_i8(src[i]) == a[i]);
    }
    assert(out =~= src);
}

/// Rotating right and then left by the same amount restores the buffer.
pub proof fn cycle_right_can_be_reversed_with_cycle_left(
    src: Seq<u8>,
    mid: Seq<i8>,
    out: Seq<u8>,
    s: nat,
)
    requires
        src.len() > 0,
        is_rotr(src, bytes_of_signed(mid), s),
        is_rotl(bytes_of_signed(mid), out, s),
    ensures
        out == src,
{
    let m = bytes_of_signed(mid);
    let total = 8 * src.len() as int;
    assert(m.len() == src.len() && out.len() == src.len());
    assert forall|p: int| 0 <= p < 8 * src.len() implies #[trigger] bit_at(out, p) == bit_at(
        src,
        p,
    ) by {
        let q = (p + s) % total;
        lemma_mod_bound(p + s, total);
        assert(bit_at(out, p) == bit_at(m, q));
        assert(bit_at(m, q) == bit_at(src, (q - s) % total));
        lemma_sub_mod_noop_right(q, s as int, total);
        lemma_sub_mod_noop(p + s, s as int, total);
        lemma_small_mod(p as nat, total as nat);
        assert((q - s) % total == p);
    }
    lemma_bytes_eq_from_bits(out, src);
}

} // verus!
