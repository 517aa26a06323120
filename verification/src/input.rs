//! The serialized program input: its format, written as spec functions, and
//! the decoded form.
//!
//! The input starts with a little-endian word that counts the account records
//! (at most [`MAX_ACCOUNTS`]).
//! The decoder keeps a cursor that stands 8 bytes before the record being read
//! (it starts at the very beginning of the input, so the first record is at
//! position 8). For each record:
//! - the first record is always taken as a non-duplicate;
//! - every later record starts with its marker byte, at `cursor + 8`: the
//!   marker [`NON_DUP_MARKER`] makes it a non-duplicate, any other value is the
//!   index of the earlier account that it repeats, and the record is 8 bytes
//!   long;
//! - for a non-duplicate the table entry is the record's position,
//!   `cursor + 8`, and the cursor moves to
//!   `cursor + TOTAL_ACCOUNT_DATA_TO_SKIP + len`, aligned down to 8, where
//!   `len` is the record's data length, the word at `cursor + DATA_LEN_OFFSET`;
//!   this skips the record's header, its data, the room it may grow into and
//!   its rent epoch;
//! - for a duplicate the table entry is the entry of the account it repeats.
//!
//! After the records, the word at `cursor + 8` is the length of the
//! instruction data, which follows it, and the 32 bytes after the data are the
//! program id. Positions are offsets into the input.
use vstd::prelude::*;

use crate::layout::{
    DATA_LEN_OFFSET, DUPLICATE_RECORD_SIZE, RECORD_OFFSET, MAX_ACCOUNTS, NON_DUP_MARKER,
    PUBKEY_SIZE, TOTAL_ACCOUNT_DATA_TO_SKIP, WORD_SIZE,
};

verus! {

/// Why an input could not be decoded.
#[derive(Debug, Clone, Copy, PartialEq, Eq, Structural)]
pub enum InputError {
    /// A read would go past the end of the input.
    UnexpectedEnd,
    /// The input counts more account records than the decoder handles.
    TooManyAccounts,
    /// A duplicate record names an account that does not come before it.
    InvalidDuplicate,
}

/// One entry of the account table: the position in the input of the account's
/// non-duplicate record (the record's marker byte).
#[derive(Debug, Clone, Copy, PartialEq, Eq, Structural)]
pub struct AccountInfo {
    pub offset: usize,
}

/// What the decoder finds in an input.
#[derive(Debug)]
pub struct DeserializedInput {
    /// The account table, one entry per record, duplicates resolved.
    pub accounts: Vec<AccountInfo>,
    /// Position of the instruction data.
    pub data_offset: usize,
    /// Length of the instruction data.
    pub data_len: usize,
    /// Position of the 32 bytes of the program id.
    pub program_id_offset: usize,
}

/// The mathematical form of a decoded input.
pub struct InputLayout {
    pub accounts: Seq<int>,
    pub data_offset: int,
    pub data_len: int,
    pub program_id_offset: int,
}

/// The offsets held by a table of accounts.
pub open spec fn account_offsets(accounts: Seq<AccountInfo>) -> Seq<int> {
    Seq::new(accounts.len(), |i: int| accounts[i].offset as int)
}

impl View for DeserializedInput {
    type V = InputLayout;

    open spec fn view(&self) -> InputLayout {
        InputLayout {
            accounts: account_offsets(self.accounts@),
            data_offset: self.data_offset as int,
            data_len: self.data_len as int,
            program_id_offset: self.program_id_offset as int,
        }
    }
}

/// The little-endian word of `input` at `pos`.
pub open spec fn le_u64(input: Seq<u8>, pos: int) -> int {
    input[pos] + input[pos + 1] * 0x100 + input[pos + 2] * 0x1_0000 + input[pos + 3] * 0x100_0000
        + input[pos + 4] * 0x1_0000_0000 + input[pos + 5] * 0x100_0000_0000 + input[pos + 6]
        * 0x1_0000_0000_0000 + input[pos + 7] * 0x100_0000_0000_0000
}

/// `x` rounded down to a multiple of 8.
pub open spec fn align_down(x: int) -> int {
    x - x % 8
}

/// Where the cursor goes after a non-duplicate record read at `cursor`.
pub open spec fn next_cursor(input: Seq<u8>, cursor: int) -> int {
    align_down(cursor + TOTAL_ACCOUNT_DATA_TO_SKIP + le_u64(input, cursor + DATA_LEN_OFFSET))
}

/// Whether the record read at `cursor`, when `index` records come before it,
/// is a non-duplicate.
pub open spec fn is_non_duplicate(input: Seq<u8>, index: int, cursor: int) -> bool {
    index == 0 || input[cursor + RECORD_OFFSET] == NON_DUP_MARKER
}

/// One record: from the table built so far and the cursor, the table with the
/// record's entry and the next cursor.
pub open spec fn account_step(input: Seq<u8>, table: Seq<int>, cursor: int) -> Result<
    (Seq<int>, int),
    InputError,
> {
    if table.len() > 0 && cursor + RECORD_OFFSET >= input.len() {
        Err(InputError::UnexpectedEnd)
    } else if !is_non_duplicate(input, table.len() as int, cursor) {
        let marker = input[cursor + RECORD_OFFSET];
        if marker < table.len() {
            Ok((table.push(table[marker as int]), cursor + DUPLICATE_RECORD_SIZE))
        } else {
            Err(InputError::InvalidDuplicate)
        }
    } else if cursor + DATA_LEN_OFFSET + WORD_SIZE > input.len() {
        Err(InputError::UnexpectedEnd)
    } else {
        Ok((table.push(cursor + RECORD_OFFSET), next_cursor(input, cursor)))
    }
}

/// The first `count` records: the account table and the cursor after them.
pub open spec fn parse_accounts(input: Seq<u8>, count: nat) -> Result<(Seq<int>, int), InputError>
    decreases count,
{
    if count == 0 {
        Ok((Seq::empty(), 0))
    } else {
        match parse_accounts(input, (count - 1) as nat) {
            Ok((table, cursor)) => account_step(input, table, cursor),
            Err(e) => Err(e),
        }
    }
}

/// The instruction data and program id that follow the records, once the
/// cursor stands after them.
pub open spec fn parse_tail(input: Seq<u8>, table: Seq<int>, cursor: int) -> Result<
    InputLayout,
    InputError,
> {
    if cursor + WORD_SIZE + WORD_SIZE > input.len() {
        Err(InputError::UnexpectedEnd)
    } else {
        let data_offset = cursor + WORD_SIZE + WORD_SIZE;
        let data_len = le_u64(input, cursor + WORD_SIZE);
        if data_offset + data_len + PUBKEY_SIZE > input.len() {
            Err(InputError::UnexpectedEnd)
        } else {
            Ok(
                InputLayout {
                    accounts: table,
                    data_offset,
                    data_len,
                    program_id_offset: data_offset + data_len,
                },
            )
        }
    }
}

/// The decoded form of a whole input.
pub open spec fn parse_input(input: Seq<u8>) -> Result<InputLayout, InputError> {
    if input.len() < WORD_SIZE {
        Err(InputError::UnexpectedEnd)
    } else if le_u64(input, 0) > MAX_ACCOUNTS {
        Err(InputError::TooManyAccounts)
    } else {
        match parse_accounts(input, le_u64(input, 0) as nat) {
            Ok((table, cursor)) => parse_tail(input, table, cursor),
            Err(e) => Err(e),
        }
    }
}

/// Once decoding has failed it stays failed, whatever more records are asked for.
pub proof fn lemma_error_persists(input: Seq<u8>, failed: nat, count: nat)
    requires
        parse_accounts(input, failed) is Err,
        failed <= count,
    ensures
        parse_accounts(input, count) == parse_accounts(input, failed),
    decreases count - failed,
{
    if failed < count {
        lemma_error_persists(input, failed, (count - 1) as nat);
    }
}

/// Decoding `count` records builds a table of `count` entries.
pub proof fn lemma_table_len(input: Seq<u8>, count: nat)
    requires
        parse_accounts(input, count) is Ok,
    ensures
        parse_accounts(input, count)->Ok_0.0.len() == count,
    decreases count,
{
    if count > 0 {
        lemma_table_len(input, (count - 1) as nat);
    }
}

} // verus!
