//! Sizes and positions of the serialized input, and the heap layout that
//! follows from keeping the account table at the start of the heap.
use vstd::prelude::*;

verus! {

/// Size of the fixed header of a non-duplicate account record.
pub const ACCOUNT_INFO_SIZE: usize = 88;

/// Room that the runtime reserves after an account's data so that it can grow.
pub const MAX_PERMITTED_ACCOUNT_DATA_SIZE: usize = 10240;

/// Size of the rent epoch word that closes a non-duplicate account record.
pub const RENT_EPOCH_SIZE: usize = 8;

/// What the cursor advances by past a non-duplicate record, besides the
/// record's length word; the 7 extra bytes round the sum up once it is
/// aligned down to 8.
pub const TOTAL_ACCOUNT_DATA_TO_SKIP: usize = ACCOUNT_INFO_SIZE + MAX_PERMITTED_ACCOUNT_DATA_SIZE
    + RENT_EPOCH_SIZE + 7;

/// Address at which the account table is written: the start of the heap.
pub const ACCOUNTS_PTR: u64 = 0x300000000;

/// Size of one entry of the account table (one address).
pub const ACCOUNT_SLOT_SIZE: u64 = 8;

/// Number of account records that the decoder handles.
pub const MAX_ACCOUNTS: usize = 64;

/// Marker byte of a record that is not a duplicate.
pub const NON_DUP_MARKER: u8 = 255;

/// Distance from the cursor to the record it stands before. The record's first
/// byte is its marker, and for a non-duplicate the record's position is the
/// account's entry in the table.
pub const RECORD_OFFSET: usize = 8;

/// Distance from the cursor to a non-duplicate record's data length word: 80
/// bytes into the record, after the marker, the flags, the key, the owner and
/// the lamports.
pub const DATA_LEN_OFFSET: usize = 88;

/// Size of a duplicate record.
pub const DUPLICATE_RECORD_SIZE: usize = 8;

/// Size of a little-endian word of the input.
pub const WORD_SIZE: usize = 8;

/// Size of a public key.
pub const PUBKEY_SIZE: usize = 32;

/// First heap address that is free once the table of `num_accounts` account
/// addresses has been written at [`ACCOUNTS_PTR`]. An allocator that runs
/// beside the decoder has to start its heap here.
///
/// Addresses are 64-bit words on the target, so the address is a `u64`.
pub fn heap_start(num_accounts: usize) -> (start: u64)
    requires
        ACCOUNTS_PTR + num_accounts * ACCOUNT_SLOT_SIZE <= u64::MAX,
    ensures
        start == ACCOUNTS_PTR + num_accounts * ACCOUNT_SLOT_SIZE,
{
    ACCOUNTS_PTR + (num_accounts as u64) * ACCOUNT_SLOT_SIZE
}

} // verus!
