//! The program's entry: decode the input, then hand the program id, the
//! account table and the instruction data to the instruction processor.
use pinocchio::pubkey::Pubkey;
use vstd::prelude::*;
use vstd::slice::slice_subrange;

use crate::decoder::deserialize;
use crate::input::{account_offsets, parse_input, AccountInfo, DeserializedInput, InputError, InputLayout};
use crate::layout::PUBKEY_SIZE;

verus! {

impl DeserializedInput {
    /// The instruction data, as a part of the input it was decoded from.
    pub fn instruction_data<'a>(&self, input: &'a [u8]) -> (data: &'a [u8])
        requires
            parse_input(input@) == Ok::<InputLayout, InputError>(self@),
        ensures
            data@ == input@.subrange(self@.data_offset, self@.data_offset + self@.data_len),
    {
        slice_subrange(input, self.data_offset, self.data_offset + self.data_len)
    }

    /// The program id, as a part of the input it was decoded from.
    pub fn program_id<'a>(&self, input: &'a [u8]) -> (key: &'a Pubkey)
        requires
            parse_input(input@) == Ok::<InputLayout, InputError>(self@),
        ensures
            key@ == input@.subrange(
                self@.program_id_offset,
                self@.program_id_offset + PUBKEY_SIZE,
            ),
    {
        let len = input.len();
        assert(self.program_id_offset + PUBKEY_SIZE <= len);
        as_pubkey(
            slice_subrange(input, self.program_id_offset, self.program_id_offset + PUBKEY_SIZE),
        )
    }
}

/// Views 32 bytes as a public key in place, by std's
/// `<&[u8; 32] as TryFrom<&[u8]>>::try_from`. Its documentation says that the
/// conversion succeeds exactly when the slice's length is the array's, and the
/// array reference then points at the slice's bytes; the contract claims that
/// the key holds the slice's bytes.
#[verifier::external_body]
fn as_pubkey<'a>(bytes: &'a [u8]) -> (key: &'a Pubkey)
    requires
        bytes@.len() == PUBKEY_SIZE,
    ensures
        key@ == bytes@,
{
    <&Pubkey>::try_from(bytes).unwrap()
}

/// Processes one instruction. This program does nothing with it and reports
/// success.
pub fn process(program_id: &Pubkey, accounts: &[AccountInfo], data: &[u8]) -> (code: u32)
    ensures
        code == 0,
{
    0
}

/// What [`entrypoint`] hands to [`process`], and what `process` returned.
#[derive(Debug)]
pub struct Invocation<'a> {
    /// The program id, a part of the input.
    pub program_id: &'a Pubkey,
    /// The account table.
    pub accounts: Vec<AccountInfo>,
    /// The instruction data, a part of the input.
    pub data: &'a [u8],
    /// The code that `process` returned.
    pub code: u32,
}

/// Decodes the serialized input and runs [`process`] on what it holds: the
/// program id, the account table and the instruction data. When the input
/// decodes, the result is what was handed to `process` and the code it
/// returned; when it does not, the decoder's error.
pub fn entrypoint<'a>(input: &'a [u8]) -> (result: Result<Invocation<'a>, InputError>)
    ensures
        match parse_input(input@) {
            Ok(layout) => result matches Ok(invocation) && {
                &&& account_offsets(invocation.accounts@) == layout.accounts
                &&& invocation.data@ == input@.subrange(
                    layout.data_offset,
                    layout.data_offset + layout.data_len,
                )
                &&& invocation.program_id@ == input@.subrange(
                    layout.program_id_offset,
                    layout.program_id_offset + PUBKEY_SIZE,
                )
                &&& invocation.code == 0
            },
            Err(e) => result matches Err(error) && error == e,
        },
{
    let decoded = match deserialize(input) {
        Ok(decoded) => decoded,
        Err(e) => return Err(e),
    };
    let program_id = decoded.program_id(input);
    let data = decoded.instruction_data(input);
    let code = process(program_id, decoded.accounts.as_slice(), data);
    Ok(Invocation { program_id, accounts: decoded.accounts, data, code })
}

} // verus!
