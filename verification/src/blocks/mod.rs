use vstd::prelude::*;
use vstd::arithmetic::div_mod::{
    lemma_div_multiples_vanish, lemma_fundamental_div_mod, lemma_fundamental_div_mod_converse_mod,
    lemma_mod_bound, lemma_small_mod,
};
use crate::bit_cycling::{i8_of_u8, i8_to_u8, signed_of_bytes, u8_of_i8, u8_to_i8};
use crate::blocks::bytes::{
    join_bytes, join_bytes_can_be_reversed, joined_elements, lemma_joined_elements_in_range,
    split_bytes, split_elements,
};
use crate::blocks::generation::{derive_key, derived_key_seq, generate_iv, random_bytes};
use crate::blocks::generation::vectors::{
    diff_seq, dot, dot_prefix, int_seq_i64, int_seq_i8, int_seq_u16, lemma_dot_prefix_affine,
    lemma_dot_prefix_sq_pos, lemma_dot_prefix_sub, sub_seqs,
};

pub mod bytes;
pub mod encrypted_block;
pub mod generation;

verus! {

pub const BLOCK_SIZE: usize = 256;

pub const SALT_SIZE: usize = 16;

pub const ELEMENT_SIZE: usize = 5;

pub const ENCRYPTED_BLOCK_SIZE: usize = ELEMENT_SIZE * BLOCK_SIZE + BLOCK_SIZE + SALT_SIZE;

/// Division truncating toward zero, as the host's 64-bit division does.
pub open spec fn spec_div_trunc(x: int, d: int) -> int {
    if x >= 0 {
        x / d
    } else {
        -((-x) / d)
    }
}

/// The remainder that goes with division truncating toward zero.
pub open spec fn spec_mod_trunc(x: int, d: int) -> int {
    x - d * spec_div_trunc(x, d)
}

/// The low eight bits of a value, read as a signed byte.
pub open spec fn as_i8_clip(x: int) -> i8 {
    if x % 256 < 128 {
        (x % 256) as i8
    } else {
        (x % 256 - 256) as i8
    }
}

/// The derived key for `key` and `salt`, as a vector of integers.
pub open spec fn block_key_ints(key: Seq<u8>, salt: Seq<u8>) -> Seq<int> {
    int_seq_u16(derived_key_seq(key, salt))
}

/// What ties a 1552-byte encrypted block to the plaintext block it
/// encodes: the salt comes first, then the accepted IV, then one signed
/// 40-bit element per position holding the block transform's value.
pub open spec fn is_encrypted_block(key: Seq<u8>, block: Seq<i8>, eb: Seq<u8>) -> bool {
    let kk = block_key_ints(key, eb.subrange(0, 16));
    let bb = int_seq_i8(block);
    let vv = int_seq_i8(signed_of_bytes(eb.subrange(16, 272)));
    let ee = int_seq_i64(joined_elements(eb.subrange(272, 1552)));
    let sum1 = dot(kk, kk);
    let sum2 = 2 * dot(kk, sub_seqs(bb, vv));
    &&& eb.len() == 1552
    &&& block.len() == 256
    &&& dot(kk, sub_seqs(bb, vv)) != 0
    &&& forall|i: int| 0 <= i < 256 ==> #[trigger] ee[i] == bb[i] * sum1 - kk[i] * sum2
}

/// The block that decryption reads out of a 1552-byte encrypted block:
/// the salt re-derives the key vector, the elements are decoded, and
/// each position is recovered by the inverse linear form, with the
/// host's truncating 64-bit division.
pub open spec fn decrypted_block_seq(key: Seq<u8>, eb: Seq<u8>) -> Seq<i8> {
    let kk = block_key_ints(key, eb.subrange(0, 16));
    let vv = int_seq_i8(signed_of_bytes(eb.subrange(16, 272)));
    let ee = int_seq_i64(joined_elements(eb.subrange(272, 1552)));
    let s1 = 2 * dot(kk, vv);
    let s2 = dot(kk, kk);
    let s3 = 2 * dot(kk, ee);
    Seq::new(
        256,
        |i: int|
            as_i8_clip(
                spec_div_trunc(
                    ee[i] + kk[i] * s1 - (kk[i] * spec_div_trunc(s3, s2) + spec_div_trunc(
                        kk[i] * spec_mod_trunc(s3, s2),
                        s2,
                    )),
                    s2,
                ),
            ),
    )
}

/// Truncating division and its remainder against Euclidean division.
pub proof fn lemma_div_trunc_props(x: int, d: int)
    requires
        d > 0,
    ensures
        x == d * spec_div_trunc(x, d) + spec_mod_trunc(x, d),
        -d < spec_mod_trunc(x, d) < d,
        x >= 0 ==> 0 <= d * spec_div_trunc(x, d) <= x && 0 <= spec_mod_trunc(x, d),
        x < 0 ==> x <= d * spec_div_trunc(x, d) <= 0 && spec_mod_trunc(x, d) <= 0,
{
    if x >= 0 {
        lemma_fundamental_div_mod(x, d);
        lemma_mod_bound(x, d);
    } else {
        lemma_fundamental_div_mod(-x, d);
        lemma_mod_bound(-x, d);
        assert(d * (-((-x) / d)) == -(d * ((-x) / d))) by (nonlinear_arith);
    }
}

/// Truncating division is exact on multiples of the divisor.
pub proof fn lemma_div_trunc_exact(q: int, d: int)
    requires
        d > 0,
    ensures
        spec_div_trunc(d * q, d) == q,
        spec_mod_trunc(d * q, d) == 0,
{
    if q >= 0 {
        assert(d * q >= 0) by (nonlinear_arith)
            requires
                d > 0,
                q >= 0,
        ;
        lemma_div_multiples_vanish(q, d);
    } else {
        assert(d * q < 0 && -(d * q) == d * (-q)) by (nonlinear_arith)
            requires
                d > 0,
                q < 0,
        ;
        lemma_div_multiples_vanish(-q, d);
        assert(spec_div_trunc(d * q, d) == -((d * (-q)) / d));
    }
    assert(d * spec_div_trunc(d * q, d) == d * q) by (nonlinear_arith)
        requires
            spec_div_trunc(d * q, d) == q,
    ;
}

/// Reading the low eight bits of a value already in the signed byte
/// range gives the value back.
pub proof fn lemma_as_i8_clip_small(x: int)
    requires
        -128 <= x < 128,
    ensures
        as_i8_clip(x) == x,
{
    if x >= 0 {
        lemma_small_mod(x as nat, 256nat);
    } else {
        lemma_fundamental_div_mod_converse_mod(x, 256, -1, x + 256);
    }
}

/// Division truncating toward zero, computed through unsigned division.
pub(crate) fn div_trunc_i64(x: i64, d: i64) -> (r: i64)
    requires
        d > 0,
        x > i64::MIN,
    ensures
        r == spec_div_trunc(x as int, d as int),
{
    if x >= 0 {
        ((x as u64) / (d as u64)) as i64
    } else {
        -((((-x) as u64) / (d as u64)) as i64)
    }
}

/// The low eight bits of a 64-bit value, as a signed byte.
pub(crate) fn i64_as_i8_trunc(x: i64) -> (r: i8)
    requires
        x > i64::MIN,
    ensures
        r == as_i8_clip(x as int),
{
    proof {
        lemma_div_trunc_props(x as int, 256);
    }
    let q = div_trunc_i64(x, 256);
    let mt = x - 256 * q;
    let m = if mt < 0 {
        mt + 256
    } else {
        mt
    };
    proof {
        if mt >= 0 {
            lemma_fundamental_div_mod_converse_mod(x as int, 256, q as int, mt as int);
        } else {
            lemma_fundamental_div_mod_converse_mod(x as int, 256, q as int - 1, mt + 256);
        }
        assert(m == (x as int) % 256);
    }
    if m < 128 {
        m as i8
    } else {
        (m - 256) as i8
    }
}

pub(crate) fn zero_u16_vec(n: usize) -> (r: Vec<u16>)
    ensures
        r@.len() == n,
{
    let mut r: Vec<u16> = Vec::new();
    let mut i: usize = 0;
    while i < n
        invariant
            r@.len() == i,
            0 <= i <= n,
        decreases n - i,
    {
        r.push(0u16);
        i = i + 1;
    }
    r
}

pub(crate) fn zero_i8_vec(n: usize) -> (r: Vec<i8>)
    ensures
        r@.len() == n,
{
    let mut r: Vec<i8> = Vec::new();
    let mut i: usize = 0;
    while i < n
        invariant
            r@.len() == i,
            0 <= i <= n,
        decreases n - i,
    {
        r.push(0i8);
        i = i + 1;
    }
    r
}

pub(crate) fn zero_i64_vec(n: usize) -> (r: Vec<i64>)
    ensures
        r@.len() == n,
{
    let mut r: Vec<i64> = Vec::new();
    let mut i: usize = 0;
    while i < n
        invariant
            r@.len() == i,
            0 <= i <= n,
        decreases n - i,
    {
        r.push(0i64);
        i = i + 1;
    }
    r
}

pub(crate) fn zero_u8_vec(n: usize) -> (r: Vec<u8>)
    ensures
        r@.len() == n,
{
    let mut r: Vec<u8> = Vec::new();
    let mut i: usize = 0;
    while i < n
        invariant
            r@.len() == i,
            0 <= i <= n,
        decreases n - i,
    {
        r.push(0u8);
        i = i + 1;
    }
    r
}

/// Encrypts one 256-element block under `key` (big-endian bytes) into
/// the 1552-byte layout `[salt(16)][iv(256)][elements(1280)]`.
pub fn encrypt_block(block: &[i8], key: &[u8], encrypted_block: &mut Vec<u8>)
    requires
        block@.len() == BLOCK_SIZE,
        old(encrypted_block)@.len() == ENCRYPTED_BLOCK_SIZE,
    ensures
        final(encrypted_block)@.len() == ENCRYPTED_BLOCK_SIZE,
        is_encrypted_block(key@, block@, final(encrypted_block)@),
{
    let salt = random_bytes(SALT_SIZE);
    let mut i: usize = 0;
    while i < SALT_SIZE
        invariant
            0 <= i <= 16,
            salt@.len() == 16,
            encrypted_block@.len() == 1552,
            forall|j: int| 0 <= j < i ==> #[trigger] encrypted_block@[j] == salt@[j],
        decreases 16 - i,
    {
        encrypted_block.set(i, salt[i]);
        i = i + 1;
    }
    let mut derived_key = zero_u16_vec(BLOCK_SIZE);
    derive_key(key, salt.as_slice(), &mut derived_key);
    let mut iv = zero_i8_vec(BLOCK_SIZE);
    generate_iv(derived_key.as_slice(), block, &mut iv);
    i = 0;
    while i < BLOCK_SIZE
        invariant
            0 <= i <= 256,
            iv@.len() == 256,
            salt@.len() == 16,
            encrypted_block@.len() == 1552,
            forall|j: int| 0 <= j < 16 ==> #[trigger] encrypted_block@[j] == salt@[j],
            forall|j: int| 0 <= j < i ==> #[trigger] encrypted_block@[16 + j] == u8_of_i8(iv@[j]),
        decreases 256 - i,
    {
        encrypted_block.set(SALT_SIZE + i, i8_to_u8(iv[i]));
        i = i + 1;
    }
    let ghost kk = int_seq_u16(derived_key@);
    let ghost bb = int_seq_i8(block@);
    let ghost vv = int_seq_i8(iv@);
    let ghost dd = sub_seqs(bb, vv);
    proof {
        assert(dd =~= diff_seq(block@, iv@));
    }
    let mut sum1: i64 = 0;
    let mut sum2: i64 = 0;
    i = 0;
    while i < BLOCK_SIZE
        invariant
            0 <= i <= 256,
            derived_key@.len() == 256,
            block@.len() == 256,
            iv@.len() == 256,
            kk == int_seq_u16(derived_key@),
            bb == int_seq_i8(block@),
            vv == int_seq_i8(iv@),
            dd == sub_seqs(bb, vv),
            forall|j: int| 0 <= j < 256 ==> 2 <= #[trigger] derived_key@[j] <= 1619,
            sum1 == dot_prefix(kk, kk, i as int),
            sum2 == dot_prefix(kk, dd, i as int),
            0 <= sum1 <= (i as int) * 0x28_0000,
            -((i as int) * 0x8_0000) <= sum2 <= (i as int) * 0x8_0000,
        decreases 256 - i,
    {
        let dk = derived_key[i] as i64;
        let b = block[i] as i64;
        let v = iv[i] as i64;
        assert(0 <= dk * dk <= 0x28_0000 && -0x8_0000 <= dk * (b - v) <= 0x8_0000)
            by (nonlinear_arith)
            requires
                2 <= dk <= 1619,
                -128 <= b <= 127,
                -128 <= v <= 127,
        ;
        assert((i as int) * 0x28_0000 + 0x28_0000 == (i + 1) as int * 0x28_0000) by (nonlinear_arith);
        assert((i as int) * 0x8_0000 + 0x8_0000 == (i + 1) as int * 0x8_0000) by (nonlinear_arith);
        assert(kk[i as int] == dk && dd[i as int] == b - v);
        sum1 = sum1 + dk * dk;
        sum2 = sum2 + dk * (b - v);
        i = i + 1;
    }
    sum2 = sum2 * 2;
    let ghost gsum1 = dot(kk, kk);
    let ghost gsum2 = 2 * dot(kk, dd);
    proof {
        assert(sum1 == gsum1 && sum2 == gsum2);
    }
    let mut elements = zero_i64_vec(BLOCK_SIZE);
    i = 0;
    while i < BLOCK_SIZE
        invariant
            0 <= i <= 256,
            derived_key@.len() == 256,
            block@.len() == 256,
            elements@.len() == 256,
            kk == int_seq_u16(derived_key@),
            bb == int_seq_i8(block@),
            forall|j: int| 0 <= j < 256 ==> 2 <= #[trigger] derived_key@[j] <= 1619,
            0 <= sum1 <= 0x2800_0000,
            -0x1000_0000 <= sum2 <= 0x1000_0000,
            sum1 == gsum1,
            sum2 == gsum2,
            forall|j: int|
                0 <= j < i ==> #[trigger] elements@[j] == bb[j] * gsum1 - kk[j] * gsum2,
            forall|j: int|
                0 <= j < i ==> -0x80_0000_0000 <= #[trigger] elements@[j] < 0x80_0000_0000,
        decreases 256 - i,
    {
        let dk = derived_key[i] as i64;
        let b = block[i] as i64;
        assert(-0x20_0000_0000 <= b * sum1 <= 0x20_0000_0000 && -0x80_0000_0000 <= dk * sum2
            <= 0x80_0000_0000 && -0x80_0000_0000 < b * sum1 - dk * sum2 < 0x80_0000_0000)
            by (nonlinear_arith)
            requires
                2 <= dk <= 1619,
                -128 <= b <= 127,
                0 <= sum1 <= 0x2800_0000,
                -0x1000_0000 <= sum2 <= 0x1000_0000,
        ;
        elements.set(i, b * sum1 - dk * sum2);
        i = i + 1;
    }
    let mut tail = zero_u8_vec(ELEMENT_SIZE * BLOCK_SIZE);
    split_bytes(elements.as_slice(), &mut tail);
    i = 0;
    while i < ELEMENT_SIZE * BLOCK_SIZE
        invariant
            0 <= i <= 1280,
            tail@.len() == 1280,
            salt@.len() == 16,
            iv@.len() == 256,
            encrypted_block@.len() == 1552,
            forall|j: int| 0 <= j < 16 ==> #[trigger] encrypted_block@[j] == salt@[j],
            forall|j: int| 0 <= j < 256 ==> #[trigger] encrypted_block@[16 + j] == u8_of_i8(iv@[j]),
            forall|j: int| 0 <= j < i ==> #[trigger] encrypted_block@[272 + j] == tail@[j],
        decreases 1280 - i,
    {
        encrypted_block.set(SALT_SIZE + BLOCK_SIZE + i, tail[i]);
        i = i + 1;
    }
    proof {
        let eb = encrypted_block@;
        assert(eb.subrange(0, 16) =~= salt@);
        assert forall|j: int| 0 <= j < 256 implies signed_of_bytes(eb.subrange(16, 272))[j]
            == iv@[j] by {
            assert(eb.subrange(16, 272)[j] == eb[16 + j]);
            assert(eb[16 + j] == u8_of_i8(iv@[j]));
            assert(i8_of_u8(u8_of_i8(iv@[j])) == iv@[j]);
        }
        assert(signed_of_bytes(eb.subrange(16, 272)) =~= iv@);
        assert forall|j: int| 0 <= j < 1280 implies eb.subrange(272, 1552)[j] == tail@[j] by {
            assert(eb.subrange(272, 1552)[j] == eb[272 + j]);
            assert(eb[272 + j] == tail@[j]);
        }
        assert(eb.subrange(272, 1552) =~= tail@);
        assert(tail@ == split_elements(elements@));
        join_bytes_can_be_reversed(elements@);
        assert(joined_elements(eb.subrange(272, 1552)) == elements@);
        assert(block_key_ints(key@, eb.subrange(0, 16)) == kk);
        assert(int_seq_i8(signed_of_bytes(eb.subrange(16, 272))) == vv);
        assert(sub_seqs(int_seq_i8(block@), vv) == dd);
        assert forall|j: int|
            0 <= j < 256 implies #[trigger] int_seq_i64(joined_elements(eb.subrange(272, 1552)))[j]
            == bb[j] * gsum1 - kk[j] * gsum2 by {
            assert(int_seq_i64(elements@)[j] == elements@[j] as int);
        }
    }
}

/// Decrypts one 1552-byte encrypted block under `key` (big-endian
/// bytes), recovering each position by the inverse linear form.
pub fn decrypt_block(encrypted_block: &[u8], key: &[u8], decrypted_block: &mut Vec<i8>)
    requires
        encrypted_block@.len() == ENCRYPTED_BLOCK_SIZE,
        old(decrypted_block)@.len() == BLOCK_SIZE,
    ensures
        final(decrypted_block)@ == decrypted_block_seq(key@, encrypted_block@),
        final(decrypted_block)@.len() == BLOCK_SIZE,
{
    let ghost eb = encrypted_block@;
    let mut salt: Vec<u8> = Vec::new();
    let mut i: usize = 0;
    while i < SALT_SIZE
        invariant
            0 <= i <= 16,
            eb == encrypted_block@,
            eb.len() == 1552,
            salt@.len() == i,
            forall|j: int| 0 <= j < i ==> #[trigger] salt@[j] == eb[j],
        decreases 16 - i,
    {
        salt.push(encrypted_block[i]);
        i = i + 1;
    }
    proof {
        assert(salt@ =~= eb.subrange(0, 16));
    }
    let mut derived_key = zero_u16_vec(BLOCK_SIZE);
    derive_key(key, salt.as_slice(), &mut derived_key);
    let mut iv: Vec<i8> = Vec::new();
    i = 0;
    while i < BLOCK_SIZE
        invariant
            0 <= i <= 256,
            eb == encrypted_block@,
            eb.len() == 1552,
            iv@.len() == i,
            forall|j: int| 0 <= j < i ==> #[trigger] iv@[j] == i8_of_u8(eb[16 + j]),
        decreases 256 - i,
    {
        iv.push(u8_to_i8(encrypted_block[SALT_SIZE + i]));
        i = i + 1;
    }
    proof {
        assert(iv@ =~= signed_of_bytes(eb.subrange(16, 272)));
    }
    let mut tail: Vec<u8> = Vec::new();
    i = 0;
    while i < ELEMENT_SIZE * BLOCK_SIZE
        invariant
            0 <= i <= 1280,
            eb == encrypted_block@,
            eb.len() == 1552,
            tail@.len() == i,
            forall|j: int| 0 <= j < i ==> #[trigger] tail@[j] == eb[272 + j],
        decreases 1280 - i,
    {
        tail.push(encrypted_block[SALT_SIZE + BLOCK_SIZE + i]);
        i = i + 1;
    }
    proof {
        assert(tail@ =~= eb.subrange(272, 1552));
    }
    let mut joined = zero_i64_vec(BLOCK_SIZE);
    join_bytes(tail.as_slice(), &mut joined);
    let ghost kk = int_seq_u16(derived_key@);
    let ghost vv = int_seq_i8(iv@);
    let ghost ee = int_seq_i64(joined@);
    proof {
        lemma_joined_elements_in_range(tail@);
        assert(kk == block_key_ints(key@, eb.subrange(0, 16)));
        assert(vv == int_seq_i8(signed_of_bytes(eb.subrange(16, 272))));
        assert(ee == int_seq_i64(joined_elements(eb.subrange(272, 1552))));
        assert forall|j: int| 0 <= j < 256 implies -0x80_0000_0000 <= #[trigger] joined@[j]
            < 0x80_0000_0000 by {
            assert(joined@[j] == joined_elements(tail@)[j]);
        }
    }
    let mut sum1: i64 = 0;
    let mut sum2: i64 = 0;
    let mut sum3: i64 = 0;
    i = 0;
    while i < BLOCK_SIZE
        invariant
            0 <= i <= 256,
            derived_key@.len() == 256,
            iv@.len() == 256,
            joined@.len() == 256,
            kk == int_seq_u16(derived_key@),
            vv == int_seq_i8(iv@),
            ee == int_seq_i64(joined@),
            forall|j: int| 0 <= j < 256 ==> 2 <= #[trigger] derived_key@[j] <= 1619,
            forall|j: int|
                0 <= j < 256 ==> -0x80_0000_0000 <= #[trigger] joined@[j] < 0x80_0000_0000,
            sum1 == dot_prefix(kk, vv, i as int),
            sum2 == dot_prefix(kk, kk, i as int),
            sum3 == dot_prefix(kk, ee, i as int),
            -((i as int) * 0x8_0000) <= sum1 <= (i as int) * 0x8_0000,
            0 <= sum2 <= (i as int) * 0x28_0000,
            -((i as int) * 0x8_0000_0000_0000) <= sum3 <= (i as int) * 0x8_0000_0000_0000,
        decreases 256 - i,
    {
        let dk = derived_key[i] as i64;
        let v = iv[i] as i64;
        let e = joined[i];
        assert(-0x8_0000 <= dk * v <= 0x8_0000 && 0 <= dk * dk <= 0x28_0000
            && -0x8_0000_0000_0000 <= dk * e <= 0x8_0000_0000_0000) by (nonlinear_arith)
            requires
                2 <= dk <= 1619,
                -128 <= v <= 127,
                -0x80_0000_0000 <= e < 0x80_0000_0000,
        ;
        assert((i as int) * 0x8_0000 + 0x8_0000 == (i + 1) as int * 0x8_0000) by (nonlinear_arith);
        assert((i as int) * 0x28_0000 + 0x28_0000 == (i + 1) as int * 0x28_0000)
            by (nonlinear_arith);
        assert((i as int) * 0x8_0000_0000_0000 + 0x8_0000_0000_0000 == (i + 1) as int
            * 0x8_0000_0000_0000) by (nonlinear_arith);
        assert(kk[i as int] == dk && vv[i as int] == v && ee[i as int] == e);
        sum1 = sum1 + dk * v;
        sum2 = sum2 + dk * dk;
        sum3 = sum3 + dk * e;
        i = i + 1;
    }
    let s1: i64 = sum1 * 2;
    let s2: i64 = sum2;
    let s3: i64 = sum3 * 2;
    let ghost gs1 = 2 * dot(kk, vv);
    let ghost gs2 = dot(kk, kk);
    let ghost gs3 = 2 * dot(kk, ee);
    proof {
        lemma_dot_prefix_sq_pos(kk, 256);
        assert(s1 == gs1 && s2 == gs2 && s3 == gs3);
        assert(s2 >= 1024);
    }
    let q3 = div_trunc_i64(s3, s2);
    proof {
        lemma_div_trunc_props(s3 as int, s2 as int);
        assert(-0x8_0000_0000_0000 <= q3 <= 0x8_0000_0000_0000 && -0x2000_0000_0000_0000 <= s2
            as int * (q3 as int) <= 0x2000_0000_0000_0000) by (nonlinear_arith)
            requires
                s3 as int == s2 as int * (q3 as int) + spec_mod_trunc(s3 as int, s2 as int),
                -(s2 as int) < spec_mod_trunc(s3 as int, s2 as int) < s2 as int,
                1024 <= s2 <= 0x2800_0000,
                -0x1000_0000_0000_0000 <= s3 <= 0x1000_0000_0000_0000,
        ;
    }
    let r3 = s3 - s2 * q3;
    proof {
        assert(r3 == spec_mod_trunc(s3 as int, s2 as int));
    }
    i = 0;
    while i < BLOCK_SIZE
        invariant
            0 <= i <= 256,
            derived_key@.len() == 256,
            iv@.len() == 256,
            joined@.len() == 256,
            decrypted_block@.len() == 256,
            eb == encrypted_block@,
            eb.len() == 1552,
            kk == int_seq_u16(derived_key@),
            vv == int_seq_i8(iv@),
            ee == int_seq_i64(joined@),
            kk == block_key_ints(key@, eb.subrange(0, 16)),
            vv == int_seq_i8(signed_of_bytes(eb.subrange(16, 272))),
            ee == int_seq_i64(joined_elements(eb.subrange(272, 1552))),
            forall|j: int| 0 <= j < 256 ==> 2 <= #[trigger] derived_key@[j] <= 1619,
            forall|j: int|
                0 <= j < 256 ==> -0x80_0000_0000 <= #[trigger] joined@[j] < 0x80_0000_0000,
            gs1 == 2 * dot(kk, vv),
            gs2 == dot(kk, kk),
            gs3 == 2 * dot(kk, ee),
            s1 == gs1,
            s2 == gs2,
            s3 == gs3,
            -0x1000_0000 <= s1 <= 0x1000_0000,
            1024 <= s2 <= 0x2800_0000,
            q3 == spec_div_trunc(gs3, gs2),
            r3 == spec_mod_trunc(gs3, gs2),
            -0x8_0000_0000_0000 <= q3 <= 0x8_0000_0000_0000,
            -0x2800_0000 < r3 < 0x2800_0000,
            forall|j: int|
                0 <= j < i ==> #[trigger] decrypted_block@[j] == decrypted_block_seq(key@, eb)[j],
        decreases 256 - i,
    {
        let dk = derived_key[i] as i64;
        let e = joined[i];
        assert(-0x800_0000_0000 <= dk * s1 <= 0x800_0000_0000 && -0x4000_0000_0000_0000 <= dk * q3
            <= 0x4000_0000_0000_0000 && -0x1_0000_0000_0000 <= dk * r3 <= 0x1_0000_0000_0000)
            by (nonlinear_arith)
            requires
                2 <= dk <= 1619,
                -0x1000_0000 <= s1 <= 0x1000_0000,
                -0x8_0000_0000_0000 <= q3 <= 0x8_0000_0000_0000,
                -0x2800_0000 < r3 < 0x2800_0000,
        ;
        let a = e + dk * s1;
        let t = dk * r3;
        let u = div_trunc_i64(t, s2);
        proof {
            lemma_div_trunc_props(t as int, s2 as int);
            assert(-0x1_0000_0000_0000 <= u <= 0x1_0000_0000_0000) by (nonlinear_arith)
                requires
                    t as int == s2 as int * (u as int) + spec_mod_trunc(t as int, s2 as int),
                    -(s2 as int) < spec_mod_trunc(t as int, s2 as int) < s2 as int,
                    1024 <= s2,
                    -0x1_0000_0000_0000 <= t <= 0x1_0000_0000_0000,
            ;
        }
        let b = dk * q3 + u;
        let c = div_trunc_i64(a - b, s2);
        proof {
            lemma_div_trunc_props((a - b) as int, s2 as int);
        }
        let value = i64_as_i8_trunc(c);
        decrypted_block.set(i, value);
        proof {
            assert(decrypted_block_seq(key@, eb)[i as int] == value);
        }
        i = i + 1;
    }
    proof {
        assert(decrypted_block@ =~= decrypted_block_seq(key@, eb));
    }
}

/// Decrypting an encrypted block with the key that made it yields the
/// block it was made from.
pub proof fn encrypt_block_can_be_reversed(key: Seq<u8>, block: Seq<i8>, eb: Seq<u8>)
    requires
        is_encrypted_block(key, block, eb),
    ensures
        decrypted_block_seq(key, eb) == block,
{
    let kk = block_key_ints(key, eb.subrange(0, 16));
    let bb = int_seq_i8(block);
    let vv = int_seq_i8(signed_of_bytes(eb.subrange(16, 272)));
    let ee = int_seq_i64(joined_elements(eb.subrange(272, 1552)));
    let sum1 = dot(kk, kk);
    let sum2 = 2 * dot(kk, sub_seqs(bb, vv));
    let s1 = 2 * dot(kk, vv);
    let s2 = dot(kk, kk);
    let s3 = 2 * dot(kk, ee);
    assert(kk.len() == 256 && bb.len() == 256 && vv.len() == 256 && ee.len() == 256);
    lemma_dot_prefix_affine(kk, ee, bb, sum1, sum2, 256);
    lemma_dot_prefix_sub(kk, bb, vv, 256);
    assert(dot(kk, ee) == sum1 * dot(kk, bb) - sum2 * dot(kk, kk));
    assert(2 * dot(kk, sub_seqs(bb, vv)) == 2 * dot(kk, bb) - 2 * dot(kk, vv));
    assert(s3 == s2 * (s1 - sum2)) by (nonlinear_arith)
        requires
            s3 == 2 * (sum1 * dot(kk, bb) - sum2 * dot(kk, kk)),
            sum2 == 2 * dot(kk, bb) - 2 * dot(kk, vv),
            s1 == 2 * dot(kk, vv),
            s2 == sum1,
            sum1 == dot(kk, kk),
    ;
    lemma_dot_prefix_sq_pos(kk, 256);
    assert(s2 >= 1024);
    lemma_div_trunc_exact(s1 - sum2, s2);
    assert(spec_div_trunc(s3, s2) == s1 - sum2 && spec_mod_trunc(s3, s2) == 0);
    assert forall|i: int| 0 <= i < 256 implies #[trigger] decrypted_block_seq(key, eb)[i]
        == block[i] by {
        assert(ee[i] == bb[i] * sum1 - kk[i] * sum2);
        assert(spec_div_trunc(kk[i] * spec_mod_trunc(s3, s2), s2) == 0) by {
            assert(kk[i] * 0 == 0) by (nonlinear_arith);
            lemma_div_trunc_exact(0, s2);
            assert(s2 * 0 == 0) by (nonlinear_arith);
        }
        let num = ee[i] + kk[i] * s1 - (kk[i] * spec_div_trunc(s3, s2) + spec_div_trunc(
            kk[i] * spec_mod_trunc(s3, s2),
            s2,
        ));
        assert(num == bb[i] * sum1) by (nonlinear_arith)
            requires
                ee[i] == bb[i] * sum1 - kk[i] * sum2,
                num == ee[i] + kk[i] * s1 - (kk[i] * (s1 - sum2) + 0),
        ;
        assert(num == s2 * bb[i]) by (nonlinear_arith)
            requires
                num == bb[i] * sum1,
                s2 == sum1,
        ;
        lemma_div_trunc_exact(bb[i], s2);
        assert(spec_div_trunc(num, s2) == bb[i]);
        lemma_as_i8_clip_small(bb[i]);
        assert(decrypted_block_seq(key, eb)[i] == as_i8_clip(bb[i]));
    }
    assert(decrypted_block_seq(key, eb) =~= block);
}

} // verus!
