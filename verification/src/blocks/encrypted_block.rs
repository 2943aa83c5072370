use vstd::prelude::*;
use crate::blocks::BLOCK_SIZE;
use crate::blocks::SALT_SIZE;

verus! {

/// The three parts of one encrypted block, borrowed from their buffers.
#[allow(non_snake_case)]
pub struct EncryptedBlock<'lifetime> {
    pub encrypted_data: &'lifetime [i64; BLOCK_SIZE],
    pub IV: &'lifetime [i8; BLOCK_SIZE],
    pub Salt: &'lifetime [u8; SALT_SIZE],
}

} // verus!
