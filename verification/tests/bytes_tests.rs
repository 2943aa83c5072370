use prime_cipher::blocks::bytes::{i40_as_u40, join_bytes, split_bytes, u40_as_i40};

#[test]
fn u40_as_i40_can_be_reversed() {
    let u40: u64 = 560608505551;
    let i40 = u40_as_i40(u40);

    assert_eq!(u40, i40_as_u40(i40));
}

#[test]
fn u40_as_i40_wraps_high_values_to_negative() {
    // 2^39 is the first value read as negative.
    assert_eq!(u40_as_i40(0x80_0000_0000), -0x80_0000_0000);
    assert_eq!(u40_as_i40(0x7F_FFFF_FFFF), 0x7F_FFFF_FFFF);
    assert_eq!(u40_as_i40(0xFF_FFFF_FFFF), -1);
}

#[test]
fn join_bytes_can_be_reversed() {
    let data: [i64; 256] = [274877906943; 256];
    let mut bytes = vec![0u8; 256 * 5];
    split_bytes(&data, &mut bytes);
    let mut joined_bytes = vec![0i64; 256];
    join_bytes(&bytes, &mut joined_bytes);
    assert_eq!(joined_bytes, data);
}

#[test]
fn split_bytes_writes_little_endian_groups() {
    let data: [i64; 2] = [1, -1];
    let mut bytes = vec![0u8; 10];
    split_bytes(&data, &mut bytes);
    assert_eq!(bytes, vec![1, 0, 0, 0, 0, 255, 255, 255, 255, 255]);
}

#[test]
fn split_bytes_tolerates_one_residual_bit() {
    // Values at and past 2^40 keep only their low 40 bits; the residual
    // of exactly 1 left after the five bytes is accepted, so 2^40
    // encodes like 0 and 2^41 - 1 like -1.
    let data: [i64; 2] = [0x100_0000_0000, 0x1FF_FFFF_FFFF];
    let mut bytes = vec![0u8; 10];
    split_bytes(&data, &mut bytes);
    assert_eq!(&bytes[0..5], &[0, 0, 0, 0, 0]);
    assert_eq!(&bytes[5..10], &[255, 255, 255, 255, 255]);
    let mut joined = vec![0i64; 2];
    join_bytes(&bytes, &mut joined);
    assert_eq!(joined, vec![0, -1]);
}

#[test]
fn join_bytes_decodes_groups_of_five() {
    let bytes: [u8; 10] = [1, 2, 3, 4, 5, 0, 0, 0, 0, 128];
    let mut data = vec![0i64; 2];
    join_bytes(&bytes, &mut data);
    assert_eq!(data[0], 1 + (2 << 8) + (3 << 16) + (4 << 24) + (5i64 << 32));
    assert_eq!(data[1], -(1i64 << 39));
}
