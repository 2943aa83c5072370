use vstd::prelude::*;
use crate::blocks::BLOCK_SIZE;
use crate::blocks::generation::vectors::{are_orthogonal, diff_seq, dot, int_seq_i16, int_seq_u16, vector_difference};
use crate::bit_cycling::u8_to_i8;
use hkdf::Hkdf;
use sha2::Sha256;

pub mod vectors;

verus! {

/// The first 256 prime numbers, in ascending order.
pub const PRIMES: [u16; 256] = [
    2, 3, 5, 7, 11, 13, 17, 19, 23, 29, 31, 37,
    41, 43, 47, 53, 59, 61, 67, 71, 73, 79, 83, 89,
    97, 101, 103, 107, 109, 113, 127, 131, 137, 139, 149, 151,
    157, 163, 167, 173, 179, 181, 191, 193, 197, 199, 211, 223,
    227, 229, 233, 239, 241, 251, 257, 263, 269, 271, 277, 281,
    283, 293, 307, 311, 313, 317, 331, 337, 347, 349, 353, 359,
    367, 373, 379, 383, 389, 397, 401, 409, 419, 421, 431, 433,
    439, 443, 449, 457, 461, 463, 467, 479, 487, 491, 499, 503,
    509, 521, 523, 541, 547, 557, 563, 569, 571, 577, 587, 593,
    599, 601, 607, 613, 617, 619, 631, 641, 643, 647, 653, 659,
    661, 673, 677, 683, 691, 701, 709, 719, 727, 733, 739, 743,
    751, 757, 761, 769, 773, 787, 797, 809, 811, 821, 823, 827,
    829, 839, 853, 857, 859, 863, 877, 881, 883, 887, 907, 911,
    919, 929, 937, 941, 947, 953, 967, 971, 977, 983, 991, 997,
    1009, 1013, 1019, 1021, 1031, 1033, 1039, 1049, 1051, 1061, 1063, 1069,
    1087, 1091, 1093, 1097, 1103, 1109, 1117, 1123, 1129, 1151, 1153, 1163,
    1171, 1181, 1187, 1193, 1201, 1213, 1217, 1223, 1229, 1231, 1237, 1249,
    1259, 1277, 1279, 1283, 1289, 1291, 1297, 1301, 1303, 1307, 1319, 1321,
    1327, 1361, 1367, 1373, 1381, 1399, 1409, 1423, 1427, 1429, 1433, 1439,
    1447, 1451, 1453, 1459, 1471, 1481, 1483, 1487, 1489, 1493, 1499, 1511,
    1523, 1531, 1543, 1549, 1553, 1559, 1567, 1571, 1579, 1583, 1597, 1601,
    1607, 1609, 1613, 1619,
];

/// Every entry of the prime table lies between 2 and 1619.
pub proof fn lemma_primes_in_range()
    ensures
        forall|i: int| 0 <= i < 256 ==> 2 <= #[trigger] PRIMES@[i] <= 1619,
{
}

/// The 256 bytes that HKDF-SHA256 expands from the given salt and input
/// keying material, with empty context info.
pub uninterp spec fn hkdf_okm(salt: Seq<u8>, ikm: Seq<u8>) -> Seq<u8>;

/// Relies on hkdf::Hkdf::<Sha256>::new and Hkdf::expand (HKDF-SHA256,
/// RFC 5869): the output keying material is a function of the salt and
/// the input keying material alone; 256 bytes is within the limit of
/// 255 hash-length blocks, so `expand` returns `Ok`.
#[verifier::external_body]
fn hkdf_expand_okm(salt: &[u8], ikm: &[u8]) -> (r: Vec<u8>)
    ensures
        r@.len() == 256,
        r@ == hkdf_okm(salt@, ikm@),
{
    let hkdf = Hkdf::<Sha256>::new(Some(salt), ikm);
    let mut okm = [0u8; 256];
    hkdf.expand(&[], &mut okm).unwrap();
    okm.to_vec()
}

/// Relies on getrandom::getrandom: fills a buffer of the requested size
/// with bytes from the operating system's random source, and panics only
/// if that source is unavailable. Nothing is assumed of the values.
#[verifier::external_body]
pub(crate) fn random_bytes(size: usize) -> (r: Vec<u8>)
    ensures
        r@.len() == size,
{
    let mut buf = vec![0u8; size];
    getrandom::getrandom(&mut buf).expect("random source unavailable");
    buf
}

/// The coefficient vector that a key and a salt derive: each of the 256
/// output bytes of HKDF-SHA256, mapped through the fixed prime table.
pub open spec fn derived_key_seq(key: Seq<u8>, salt: Seq<u8>) -> Seq<u16> {
    Seq::new(256, |i: int| PRIMES@[hkdf_okm(salt, key)[i] as int])
}

/// Derives the 256-element coefficient vector for `key` (big-endian
/// bytes) and `salt`. Every element is an entry of the prime table.
pub fn derive_key(key: &[u8], salt: &[u8], derived_key: &mut Vec<u16>)
    requires
        old(derived_key)@.len() == BLOCK_SIZE,
    ensures
        final(derived_key)@ == derived_key_seq(key@, salt@),
        forall|i: int| 0 <= i < 256 ==> 2 <= #[trigger] final(derived_key)@[i] <= 1619,
{
    let okm = hkdf_expand_okm(salt, key);
    let mut i: usize = 0;
    while i < BLOCK_SIZE
        invariant
            0 <= i <= 256,
            okm@.len() == 256,
            okm@ == hkdf_okm(salt@, key@),
            derived_key@.len() == 256,
            forall|j: int| 0 <= j < i ==> #[trigger] derived_key@[j] == derived_key_seq(
                key@,
                salt@,
            )[j],
        decreases 256 - i,
    {
        derived_key.set(i, PRIMES[okm[i] as usize]);
        i = i + 1;
    }
    proof {
        lemma_primes_in_range();
        assert(derived_key@ =~= derived_key_seq(key@, salt@));
    }
}

/// Draws candidate vectors from the random source until one is not
/// orthogonal to `derived_key` against the block, as the rejection rule
/// demands. Each candidate fails with probability about 2^-16; if none
/// of the bounded number of draws is accepted, the block itself with its
/// first element displaced by one is taken, which always satisfies the
/// rule because every derived-key element is positive.
pub fn generate_iv(derived_key: &[u16], block: &[i8], iv: &mut Vec<i8>)
    requires
        derived_key@.len() == BLOCK_SIZE,
        block@.len() == BLOCK_SIZE,
        old(iv)@.len() == BLOCK_SIZE,
        forall|i: int| 0 <= i < 256 ==> 0 < #[trigger] derived_key@[i],
    ensures
        final(iv)@.len() == BLOCK_SIZE,
        dot(int_seq_u16(derived_key@), diff_seq(block@, final(iv)@)) != 0,
{
    let mut difference: Vec<i16> = Vec::new();
    let mut d: usize = 0;
    while d < BLOCK_SIZE
        invariant
            difference@.len() == d,
            0 <= d <= 256,
        decreases 256 - d,
    {
        difference.push(0i16);
        d = d + 1;
    }
    let mut attempts: usize = 0;
    while attempts < 64
        invariant
            derived_key@.len() == 256,
            block@.len() == 256,
            iv@.len() == 256,
            difference@.len() == 256,
        decreases 64 - attempts,
    {
        let candidate = random_bytes(BLOCK_SIZE);
        let mut i: usize = 0;
        while i < BLOCK_SIZE
            invariant
                0 <= i <= 256,
                candidate@.len() == 256,
                iv@.len() == 256,
            decreases 256 - i,
        {
            iv.set(i, u8_to_i8(candidate[i]));
            i = i + 1;
        }
        vector_difference(block, iv.as_slice(), &mut difference);
        if !are_orthogonal(derived_key, difference.as_slice()) {
            proof {
                assert(int_seq_i16(difference@) =~= diff_seq(block@, iv@));
            }
            return ;
        }
        attempts = attempts + 1;
    }
    let first = block[0];
    let displaced: i8 = if first > -128 {
        first - 1
    } else {
        first + 1
    };
    iv.set(0, displaced);
    let mut i: usize = 1;
    while i < BLOCK_SIZE
        invariant
            1 <= i <= 256,
            block@.len() == 256,
            iv@.len() == 256,
            iv@[0] == displaced,
            forall|j: int| 1 <= j < i ==> #[trigger] iv@[j] == block@[j],
        decreases 256 - i,
    {
        iv.set(i, block[i]);
        i = i + 1;
    }
    proof {
        let a = int_seq_u16(derived_key@);
        let e = diff_seq(block@, iv@);
        assert(e[0] == block@[0] - displaced);
        assert(forall|j: int| 1 <= j < 256 ==> #[trigger] e[j] == 0);
        lemma_dot_tail_zero(a, e, 256);
        assert(dot(a, e) == a[0] * e[0]);
        assert(a[0] * e[0] != 0) by (nonlinear_arith)
            requires
                a[0] > 0,
                e[0] == 1 || e[0] == -1,
        ;
    }
}

/// A dot product whose terms vanish after the first position reduces to
/// its first term.
proof fn lemma_dot_tail_zero(a: Seq<int>, e: Seq<int>, n: int)
    requires
        1 <= n <= a.len(),
        n <= e.len(),
        a.len() == e.len(),
        forall|j: int| 1 <= j < n ==> #[trigger] e[j] == 0,
    ensures
        vectors::dot_prefix(a, e, n) == a[0] * e[0],
    decreases n,
{
    if n == 1 {
        assert(vectors::dot_prefix(a, e, 0) == 0);
        assert(vectors::dot_prefix(a, e, 1) == a[0] * e[0]);
    } else {
        lemma_dot_tail_zero(a, e, n - 1);
        assert(vectors::dot_prefix(a, e, n) == vectors::dot_prefix(a, e, n - 1) + a[n - 1] * e[n
            - 1]);
        assert(a[n - 1] * e[n - 1] == 0) by (nonlinear_arith)
            requires
                e[n - 1] == 0,
        ;
    }
}

} // verus!
