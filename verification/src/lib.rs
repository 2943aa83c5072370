use vstd::prelude::*;
use vstd::arithmetic::div_mod::{lemma_div_multiples_vanish, lemma_fundamental_div_mod};
use sha2::Digest;
use crate::bit_cycling::{
    be_bytes_as_nat, bytes_of_signed, cycle_left, cycle_right, is_rotl, is_rotr,
    lemma_rotl_unique, lemma_rotr_converse,
};
use crate::blocks::{
    decrypt_block, decrypted_block_seq, encrypt_block, encrypt_block_can_be_reversed,
    is_encrypted_block, zero_i8_vec, zero_u8_vec, BLOCK_SIZE, ENCRYPTED_BLOCK_SIZE,
};
use crate::blocks::generation::random_bytes;

pub mod bit_cycling;
pub mod blocks;

verus! {

/// The SHA-256 digest of a byte string.
pub uninterp spec fn sha256_of(bytes: Seq<u8>) -> Seq<u8>;

/// Relies on sha2::Sha256 through Digest::digest: SHA-256 is a function
/// of its input alone, with a fixed 32-byte digest. Read as a big-endian
/// integer, the digest is the stream's rotation amount.
#[verifier::external_body]
fn hash_number(number: &[u8]) -> (r: Vec<u8>)
    ensures
        r@.len() == 32,
        r@ == sha256_of(number@),
{
    sha2::Sha256::digest(number).to_vec()
}

/// How many filler bytes bring `n` data bytes up to a block multiple.
pub open spec fn spec_bytes_to_pad(n: nat) -> nat {
    (((256 - n % 256) % 256) as nat)
}

/// The padded stream: the data, one whole extra block, and the filler.
pub open spec fn spec_padded_len(n: nat) -> nat {
    n + 256 + spec_bytes_to_pad(n)
}

/// One padded-and-rotated stream behind a ciphertext: the padded stream
/// starts with the data and ends with the filler count, the rotated
/// stream is its right rotation by the key's digest, and every 1552-byte
/// ciphertext chunk encrypts the matching 256-element chunk.
pub open spec fn stream_witness(
    key: Seq<u8>,
    data: Seq<u8>,
    ct: Seq<u8>,
    padded: Seq<u8>,
    cycled: Seq<i8>,
) -> bool {
    let pad = spec_bytes_to_pad(data.len());
    let plen = spec_padded_len(data.len()) as int;
    let nb = plen / 256;
    &&& padded.len() == plen
    &&& padded.take(data.len() as int) == data
    &&& padded.last() == pad
    &&& cycled.len() == plen
    &&& is_rotr(padded, bytes_of_signed(cycled), be_bytes_as_nat(sha256_of(key)))
    &&& forall|bi: int|
        0 <= bi < nb ==> #[trigger] is_encrypted_block(
            key,
            cycled.subrange(256 * bi, 256 * bi + 256),
            ct.subrange(1552 * bi, 1552 * bi + 1552),
        )
}

/// What `encrypt` guarantees of its result: it has one 1552-byte chunk
/// per block of the padded stream, and some padded-and-rotated stream
/// ties it to the data.
pub open spec fn is_encrypted_stream(key: Seq<u8>, data: Seq<u8>, ct: Seq<u8>) -> bool {
    &&& ct.len() == (spec_padded_len(data.len()) as int / 256) * 1552
    &&& exists|padded: Seq<u8>, cycled: Seq<i8>| #[trigger] stream_witness(
        key,
        data,
        ct,
        padded,
        cycled,
    )
}

/// The concatenation of the decryptions of each 1552-byte chunk.
pub open spec fn decrypt_blocks_concat(ct: Seq<u8>, key: Seq<u8>) -> Seq<i8> {
    Seq::new(
        (ct.len() / 1552) * 256,
        |j: int|
            decrypted_block_seq(key, ct.subrange(1552 * (j / 256), 1552 * (j / 256) + 1552))[j
                % 256],
    )
}

/// The left rotation of `src` by `s` bits; rotations are deterministic,
/// so any sequence satisfying the relation is this one.
pub open spec fn rotl_bytes(src: Seq<u8>, s: nat) -> Seq<u8> {
    choose|d: Seq<u8>| is_rotl(src, d, s)
}

/// Strips the padding: the last byte counts the filler, and that many
/// bytes plus one whole block come off the end.
pub open spec fn unpadded(padded: Seq<u8>) -> Seq<u8> {
    let pad = padded.last() as int;
    if pad + 256 <= padded.len() {
        padded.take(padded.len() - pad - 256)
    } else {
        Seq::empty()
    }
}

/// What `decrypt` returns: each chunk decrypted, the whole rotated back
/// left by the key's digest, and the padding stripped.
pub open spec fn decrypted_stream(ct: Seq<u8>, key: Seq<u8>) -> Seq<u8> {
    unpadded(
        rotl_bytes(
            bytes_of_signed(decrypt_blocks_concat(ct, key)),
            be_bytes_as_nat(sha256_of(key)),
        ),
    )
}

/// Encrypts `data` under `key` (big-endian bytes): pads to a block
/// multiple plus one block, rotates right by the key's digest, and
/// encrypts each 256-byte block independently.
pub fn encrypt(data: &[u8], key: &[u8]) -> (result: Vec<u8>)
    requires
        8 * data@.len() + 8192 <= usize::MAX,
    ensures
        is_encrypted_stream(key@, data@, result@),
{
    let n = data.len();
    let bytes_to_pad = (BLOCK_SIZE - (n % BLOCK_SIZE)) % BLOCK_SIZE;
    let padded_len = n + BLOCK_SIZE + bytes_to_pad;
    proof {
        assert(bytes_to_pad == spec_bytes_to_pad(data@.len()));
        assert(padded_len == spec_padded_len(data@.len()));
        assert(padded_len % 256 == 0);
    }
    let mut padded_data = zero_u8_vec(padded_len);
    let mut i: usize = 0;
    while i < n
        invariant
            0 <= i <= n,
            n == data@.len(),
            n < padded_len,
            padded_data@.len() == padded_len,
            forall|j: int| 0 <= j < i ==> #[trigger] padded_data@[j] == data@[j],
        decreases n - i,
    {
        padded_data.set(i, data[i]);
        i = i + 1;
    }
    let filler = random_bytes(padded_len - n);
    i = 0;
    while i < padded_len - n
        invariant
            0 <= i <= padded_len - n,
            n == data@.len(),
            n <= padded_len,
            filler@.len() == padded_len - n,
            padded_data@.len() == padded_len,
            forall|j: int| 0 <= j < n ==> #[trigger] padded_data@[j] == data@[j],
        decreases padded_len - n - i,
    {
        padded_data.set(n + i, filler[i]);
        i = i + 1;
    }
    let last_index = padded_len - 1;
    padded_data.set(last_index, bytes_to_pad as u8);
    let bits_to_shift = hash_number(key);
    let mut cycled_data = zero_i8_vec(padded_len);
    cycle_right(padded_data.as_slice(), bits_to_shift.as_slice(), &mut cycled_data);
    let num_blocks = padded_len / BLOCK_SIZE;
    proof {
        lemma_fundamental_div_mod(padded_len as int, 256);
        assert(num_blocks * 256 == padded_len);
        assert(1552 * num_blocks <= 7 * padded_len) by (nonlinear_arith)
            requires
                num_blocks * 256 == padded_len,
                num_blocks >= 0,
        ;
    }
    let mut result: Vec<u8> = Vec::new();
    let mut bi: usize = 0;
    while bi < num_blocks
        invariant
            0 <= bi <= num_blocks,
            num_blocks * 256 == padded_len,
            1552 * num_blocks <= usize::MAX,
            cycled_data@.len() == padded_len,
            result@.len() == 1552 * bi,
            result@.len() <= 1552 * num_blocks,
            forall|b2: int|
                0 <= b2 < bi ==> #[trigger] is_encrypted_block(
                    key@,
                    cycled_data@.subrange(256 * b2, 256 * b2 + 256),
                    result@.subrange(1552 * b2, 1552 * b2 + 1552),
                ),
        decreases num_blocks - bi,
    {
        proof {
            assert(256 * bi + 256 <= padded_len && 1552 * bi + 1552 <= 1552 * num_blocks)
                by (nonlinear_arith)
                requires
                    bi < num_blocks,
                    num_blocks * 256 == padded_len,
        ;
        }
        let mut block_buf = zero_i8_vec(BLOCK_SIZE);
        let base = bi * BLOCK_SIZE;
        let mut j: usize = 0;
        while j < BLOCK_SIZE
            invariant
                0 <= j <= 256,
                block_buf@.len() == 256,
                base == 256 * bi,
                base + 256 <= padded_len,
                cycled_data@.len() == padded_len,
                forall|jj: int| 0 <= jj < j ==> #[trigger] block_buf@[jj] == cycled_data@[base
                    + jj],
            decreases 256 - j,
        {
            block_buf.set(j, cycled_data[base + j]);
            j = j + 1;
        }
        let mut eb = zero_u8_vec(ENCRYPTED_BLOCK_SIZE);
        encrypt_block(block_buf.as_slice(), key, &mut eb);
        let ghost old_result = result@;
        let mut j2: usize = 0;
        while j2 < ENCRYPTED_BLOCK_SIZE
            invariant
                0 <= j2 <= 1552,
                eb@.len() == 1552,
                result@ == old_result + eb@.take(j2 as int),
                old_result.len() + 1552 <= 1552 * num_blocks,
            decreases 1552 - j2,
        {
            result.push(eb[j2]);
            j2 = j2 + 1;
        }
        proof {
            assert(eb@.take(1552) =~= eb@);
            assert(block_buf@ =~= cycled_data@.subrange(256 * bi, 256 * bi + 256));
            assert(result@.subrange(1552 * bi, 1552 * bi + 1552) =~= eb@);
            assert forall|b2: int|
                0 <= b2 < bi implies #[trigger] is_encrypted_block(
                key@,
                cycled_data@.subrange(256 * b2, 256 * b2 + 256),
                result@.subrange(1552 * b2, 1552 * b2 + 1552),
            ) by {
                assert(result@.subrange(1552 * b2, 1552 * b2 + 1552) =~= old_result.subrange(
                    1552 * b2,
                    1552 * b2 + 1552,
                ));
            }
        }
        bi = bi + 1;
    }
    proof {
        assert(padded_data@.take(n as int) =~= data@);
        assert(padded_data@.last() == bytes_to_pad);
        assert(bits_to_shift@ == sha256_of(key@));
        assert(stream_witness(key@, data@, result@, padded_data@, cycled_data@));
        assert(result@.len() == (spec_padded_len(data@.len()) as int / 256) * 1552);
    }
    result
}

/// Decrypts a stream of 1552-byte encrypted blocks under `key`
/// (big-endian bytes), rotates the result back left, and strips the
/// padding. A stream whose final padding count is inconsistent with its
/// length yields an empty result.
pub fn decrypt(encrypted_data: &[u8], key: &[u8]) -> (result: Vec<u8>)
    requires
        encrypted_data@.len() % 1552 == 0,
        0 < encrypted_data@.len() < 0x2000_0000_0000_0000,
    ensures
        result@ == decrypted_stream(encrypted_data@, key@),
{
    let ghost ct = encrypted_data@;
    let total = encrypted_data.len();
    let num_blocks = total / ENCRYPTED_BLOCK_SIZE;
    proof {
        lemma_fundamental_div_mod(total as int, 1552);
        assert(num_blocks * 1552 == total);
        assert(num_blocks >= 1);
        assert(256 * num_blocks <= total) by (nonlinear_arith)
            requires
                num_blocks * 1552 == total,
                num_blocks >= 0,
        ;
    }
    let mut cycled_data: Vec<i8> = Vec::new();
    let mut bi: usize = 0;
    while bi < num_blocks
        invariant
            0 <= bi <= num_blocks,
            ct == encrypted_data@,
            total == ct.len(),
            num_blocks * 1552 == total,
            256 * num_blocks <= total,
            cycled_data@.len() == 256 * bi,
            forall|j: int|
                0 <= j < 256 * bi ==> #[trigger] cycled_data@[j] == decrypt_blocks_concat(
                    ct,
                    key@,
                )[j],
        decreases num_blocks - bi,
    {
        proof {
            assert(ENCRYPTED_BLOCK_SIZE == 1552);
            assert(1552 * bi + 1552 <= total && 256 * bi + 256 <= 256 * num_blocks)
                by (nonlinear_arith)
                requires
                    bi < num_blocks,
                    num_blocks * 1552 == total,
            ;
        }
        let base = bi * ENCRYPTED_BLOCK_SIZE;
        let mut chunk: Vec<u8> = Vec::new();
        let mut j: usize = 0;
        while j < ENCRYPTED_BLOCK_SIZE
            invariant
                0 <= j <= 1552,
                ct == encrypted_data@,
                base == 1552 * bi,
                base + 1552 <= total,
                total == ct.len(),
                chunk@.len() == j,
                forall|jj: int| 0 <= jj < j ==> #[trigger] chunk@[jj] == ct[base + jj],
            decreases 1552 - j,
        {
            chunk.push(encrypted_data[base + j]);
            j = j + 1;
        }
        proof {
            assert(chunk@ =~= ct.subrange(1552 * bi, 1552 * bi + 1552));
        }
        let mut block_out = zero_i8_vec(BLOCK_SIZE);
        decrypt_block(chunk.as_slice(), key, &mut block_out);
        let ghost old_c = cycled_data@;
        let mut j2: usize = 0;
        while j2 < BLOCK_SIZE
            invariant
                0 <= j2 <= 256,
                block_out@.len() == 256,
                cycled_data@ == old_c + block_out@.take(j2 as int),
            decreases 256 - j2,
        {
            cycled_data.push(block_out[j2]);
            j2 = j2 + 1;
        }
        proof {
            assert(block_out@.take(256) =~= block_out@);
            assert(cycled_data@ == old_c + block_out@);
            assert forall|j3: int|
                0 <= j3 < 256 * (bi + 1) implies #[trigger] cycled_data@[j3]
                == decrypt_blocks_concat(ct, key@)[j3] by {
                if j3 >= 256 * bi {
                    assert(j3 / 256 == bi as int && j3 % 256 == j3 - 256 * bi);
                    assert(cycled_data@[j3] == block_out@[j3 - 256 * bi]);
                    assert(block_out@ == decrypted_block_seq(key@, chunk@));
                } else {
                    assert(cycled_data@[j3] == old_c[j3]);
                }
            }
        }
        bi = bi + 1;
    }
    let cycled_len = cycled_data.len();
    let bits_to_shift = hash_number(key);
    let mut padded_data = zero_u8_vec(cycled_len);
    cycle_left(cycled_data.as_slice(), bits_to_shift.as_slice(), &mut padded_data);
    let last_index = cycled_len - 1;
    let pad = padded_data[last_index] as usize;
    let mut result: Vec<u8> = Vec::new();
    if pad + 256 <= cycled_len {
        let out_len = cycled_len - pad - 256;
        let mut i: usize = 0;
        while i < out_len
            invariant
                0 <= i <= out_len,
                out_len <= padded_data@.len(),
                result@.len() == i,
                forall|j: int| 0 <= j < i ==> #[trigger] result@[j] == padded_data@[j],
            decreases out_len - i,
        {
            result.push(padded_data[i]);
            i = i + 1;
        }
    }
    proof {
        assert(cycled_data@ =~= decrypt_blocks_concat(ct, key@));
        let src = bytes_of_signed(cycled_data@);
        let s = be_bytes_as_nat(sha256_of(key@));
        assert(bits_to_shift@ == sha256_of(key@));
        assert(is_rotl(src, padded_data@, s));
        assert(exists|d: Seq<u8>| is_rotl(src, d, s)) by {
            assert(is_rotl(src, padded_data@, s));
        }
        assert(is_rotl(src, rotl_bytes(src, s), s));
        lemma_rotl_unique(src, rotl_bytes(src, s), padded_data@, s);
        assert(rotl_bytes(src, s) == padded_data@);
        assert(padded_data@.last() == pad);
        if pad + 256 <= cycled_len {
            assert(result@ =~= padded_data@.take(cycled_len - pad - 256));
        } else {
            assert(result@ =~= Seq::<u8>::empty());
        }
    }
    result
}

/// Decrypting an encrypted stream with the key that made it yields the
/// data it was made from.
pub proof fn encrypt_can_be_reversed(key: Seq<u8>, data: Seq<u8>, ct: Seq<u8>)
    requires
        is_encrypted_stream(key, data, ct),
    ensures
        decrypted_stream(ct, key) == data,
{
    let pad = spec_bytes_to_pad(data.len());
    let plen = spec_padded_len(data.len()) as int;
    let nb = plen / 256;
    let s = be_bytes_as_nat(sha256_of(key));
    let (padded, cycled) = choose|padded: Seq<u8>, cycled: Seq<i8>| #[trigger] stream_witness(
        key,
        data,
        ct,
        padded,
        cycled,
    );
    assert(stream_witness(key, data, ct, padded, cycled));
    lemma_fundamental_div_mod(plen, 256);
    assert(nb * 256 == plen);
    assert(nb >= 1);
    assert(ct.len() == nb * 1552);
    assert(1552 * nb == nb * 1552);
    lemma_div_multiples_vanish(nb, 1552);
    assert(ct.len() / 1552 == nb);
    assert(decrypt_blocks_concat(ct, key).len() == nb * 256);
    assert forall|j: int| 0 <= j < nb * 256 implies #[trigger] decrypt_blocks_concat(ct, key)[j]
        == cycled[j] by {
        let bi = j / 256;
        assert(0 <= bi < nb) by (nonlinear_arith)
            requires
                0 <= j < nb * 256,
                bi == j / 256,
        ;
        assert(is_encrypted_block(
            key,
            cycled.subrange(256 * bi, 256 * bi + 256),
            ct.subrange(1552 * bi, 1552 * bi + 1552),
        ));
        encrypt_block_can_be_reversed(
            key,
            cycled.subrange(256 * bi, 256 * bi + 256),
            ct.subrange(1552 * bi, 1552 * bi + 1552),
        );
        assert(cycled.subrange(256 * bi, 256 * bi + 256)[j % 256] == cycled[j]);
    }
    assert(decrypt_blocks_concat(ct, key) =~= cycled);
    let src = bytes_of_signed(cycled);
    lemma_rotr_converse(padded, src, s);
    assert(exists|d: Seq<u8>| is_rotl(src, d, s)) by {
        assert(is_rotl(src, padded, s));
    }
    assert(is_rotl(src, rotl_bytes(src, s), s));
    lemma_rotl_unique(src, rotl_bytes(src, s), padded, s);
    assert(rotl_bytes(src, s) == padded);
    assert(padded.last() == pad);
    assert(pad + 256 <= plen);
    assert(unpadded(padded) == padded.take(plen - pad - 256));
    assert(plen - pad - 256 == data.len());
    assert(padded.take(data.len() as int) == data);
}

} // verus!
