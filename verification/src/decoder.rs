//! The decoder as a state machine that asks for one read at a time.
//!
//! The program's entrypoint receives only the address of the input, not its
//! length, and reads the input word by word as it goes. [`Decoder`] keeps that
//! shape: it names the next read it needs ([`Read`]), is handed the value read,
//! and moves on, until it has the whole decoded input. [`deserialize`] drives it
//! over a byte slice, checking every read against the slice's end.
use vstd::prelude::*;

use crate::input::{
    account_offsets, is_non_duplicate, le_u64, lemma_error_persists, lemma_table_len,
    parse_accounts, parse_input, AccountInfo, DeserializedInput, InputError, InputLayout,
};
use crate::layout::{
    DATA_LEN_OFFSET, DUPLICATE_RECORD_SIZE, RECORD_OFFSET, MAX_ACCOUNTS, NON_DUP_MARKER,
    PUBKEY_SIZE, TOTAL_ACCOUNT_DATA_TO_SKIP, WORD_SIZE,
};

verus! {

/// A read that the decoder asks for.
#[derive(Debug, Clone, Copy, PartialEq, Eq, Structural)]
pub enum Read {
    /// The little-endian word at this position.
    Word(usize),
    /// The byte at this position.
    Byte(usize),
}

/// What the decoder is waiting for.
#[derive(Debug, Clone, Copy, PartialEq, Eq, Structural)]
pub enum Phase {
    /// The word that counts the account records.
    Count,
    /// The marker byte of the next record.
    Marker,
    /// The length word of a non-duplicate record.
    Length,
    /// The length of the instruction data.
    DataLen,
}

/// A decoder part way through an input.
pub struct Decoder {
    phase: Phase,
    count: usize,
    accounts: Vec<AccountInfo>,
    cursor: usize,
}

/// Where a decoder stands, in mathematical form.
pub struct DecoderState {
    pub phase: Phase,
    /// The number of account records (0 until it has been read).
    pub count: int,
    /// The account table built so far.
    pub table: Seq<int>,
    /// The cursor (see [`crate::input`]).
    pub cursor: int,
}

/// What one step of the decoder yields.
pub enum Progress {
    /// The decoder, and the read it needs next.
    Next(Decoder, Read),
    /// The decoded input.
    Done(DeserializedInput),
}

/// Whether `read` falls within `input`.
pub open spec fn read_in_bounds(input: Seq<u8>, read: Read) -> bool {
    match read {
        Read::Word(pos) => pos + WORD_SIZE <= input.len(),
        Read::Byte(pos) => pos < input.len(),
    }
}

/// The value that `read` gives on `input`.
pub open spec fn read_value(input: Seq<u8>, read: Read) -> int {
    match read {
        Read::Word(pos) => le_u64(input, pos as int),
        Read::Byte(pos) => input[pos as int] as int,
    }
}

impl DecoderState {
    /// The read that the decoder needs next.
    pub open spec fn pending(self) -> Read {
        match self.phase {
            Phase::Count => Read::Word(0),
            Phase::Marker => Read::Byte((self.cursor + RECORD_OFFSET) as usize),
            Phase::Length => Read::Word((self.cursor + DATA_LEN_OFFSET) as usize),
            Phase::DataLen => Read::Word((self.cursor + WORD_SIZE) as usize),
        }
    }

    /// Whether the decoder stands where decoding `input` leads: the reads it
    /// has made so far are those of `input`, and it asks for the read that
    /// decoding `input` makes next.
    pub open spec fn follows(self, input: Seq<u8>) -> bool {
        &&& input.len() <= usize::MAX
        &&& match self.phase {
            Phase::Count => self.table.len() == 0 && self.cursor == 0,
            _ => {
                &&& input.len() >= WORD_SIZE
                &&& self.count == le_u64(input, 0)
                &&& self.count <= MAX_ACCOUNTS
                &&& parse_accounts(input, self.table.len()) == Ok::<(Seq<int>, int), InputError>(
                    (self.table, self.cursor),
                )
                &&& match self.phase {
                    Phase::Marker => 0 < self.table.len() < self.count,
                    Phase::Length => {
                        &&& self.table.len() < self.count
                        &&& self.table.len() > 0 ==> self.cursor + RECORD_OFFSET < input.len()
                        &&& is_non_duplicate(input, self.table.len() as int, self.cursor)
                    },
                    _ => self.table.len() == self.count,
                }
            },
        }
    }

    /// A bound on the number of reads still to come.
    pub open spec fn measure(self) -> nat {
        match self.phase {
            Phase::Count => (2 * MAX_ACCOUNTS + 3) as nat,
            Phase::Marker => (2 * (self.count - self.table.len()) + 2) as nat,
            Phase::Length => (2 * (self.count - self.table.len()) + 1) as nat,
            Phase::DataLen => 0,
        }
    }
}

/// Whether one step's outcome is the one that decoding `input` leads to. The
/// decoder does not read the instruction data and the program id, so whether
/// they lie within the input decides between the decoded input and
/// [`InputError::UnexpectedEnd`].
pub open spec fn outcome_follows(outcome: Result<Progress, InputError>, input: Seq<u8>) -> bool {
    match outcome {
        Ok(Progress::Next(decoder, _)) => decoder@.follows(input),
        Ok(Progress::Done(decoded)) => if decoded@.program_id_offset + PUBKEY_SIZE <= input.len() {
            parse_input(input) == Ok::<InputLayout, InputError>(decoded@)
        } else {
            parse_input(input) == Err::<InputLayout, InputError>(InputError::UnexpectedEnd)
        },
        Err(e) => parse_input(input) == Err::<InputLayout, InputError>(e),
    }
}

impl View for Decoder {
    type V = DecoderState;

    closed spec fn view(&self) -> DecoderState {
        DecoderState {
            phase: self.phase,
            count: self.count as int,
            table: account_offsets(self.accounts@),
            cursor: self.cursor as int,
        }
    }
}

/// With the cursor at or past the end of the input after `done` records, the
/// input cannot be decoded.
proof fn lemma_cursor_past_end(input: Seq<u8>, done: nat)
    requires
        input.len() >= WORD_SIZE,
        done <= le_u64(input, 0) <= MAX_ACCOUNTS,
        done > 0,
        parse_accounts(input, done) is Ok,
        parse_accounts(input, done)->Ok_0.1 + RECORD_OFFSET >= input.len(),
    ensures
        parse_input(input) == Err::<InputLayout, InputError>(InputError::UnexpectedEnd),
{
    let count = le_u64(input, 0) as nat;
    lemma_table_len(input, done);
    if done < count {
        lemma_error_persists(input, done + 1, count);
    }
}

impl Decoder {
    /// Well-formedness: the decoder's counts agree and the position of the
    /// read it asks for is an address.
    pub closed spec fn wf(&self) -> bool {
        &&& self.count <= MAX_ACCOUNTS
        &&& match self.phase {
            Phase::Count => self.accounts@.len() == 0 && self.cursor == 0,
            Phase::Marker => {
                &&& 0 < self.accounts@.len() < self.count
                &&& self.cursor + RECORD_OFFSET <= usize::MAX
            },
            Phase::Length => {
                &&& self.accounts@.len() < self.count
                &&& self.cursor + DATA_LEN_OFFSET <= usize::MAX
            },
            Phase::DataLen => {
                &&& self.accounts@.len() == self.count
                &&& self.cursor + WORD_SIZE <= usize::MAX
            },
        }
    }

    /// A decoder at the start of an input, and the read it needs first.
    pub fn new() -> (start: (Decoder, Read))
        ensures
            start.0.wf(),
            start.1 == start.0@.pending(),
            start.0@.phase == Phase::Count,
            start.0@.count == 0,
            start.0@.table == Seq::<int>::empty(),
            start.0@.cursor == 0,
            start.1 == Read::Word(0),
            forall|input: Seq<u8>| input.len() <= usize::MAX ==> #[trigger] start.0@.follows(input),
    {
        let decoder = Decoder { phase: Phase::Count, count: 0, accounts: Vec::new(), cursor: 0 };
        assert(account_offsets(decoder.accounts@) =~= Seq::<int>::empty());
        (decoder, Read::Word(0))
    }

    /// The decoder after `accounts` and the cursor, asking for the marker of
    /// the next record or, after the last record, for the instruction data's
    /// length.
    fn after_record(count: usize, accounts: Vec<AccountInfo>, cursor: usize) -> (progress: Progress)
        requires
            0 < accounts@.len() <= count <= MAX_ACCOUNTS,
            cursor + WORD_SIZE <= usize::MAX,
        ensures
            progress matches Progress::Next(d, r) && {
                &&& d.wf()
                &&& r == d@.pending()
                &&& d@.count == count
                &&& d@.table == account_offsets(accounts@)
                &&& d@.cursor == cursor
                &&& d@.phase == (if accounts@.len() == count {
                    Phase::DataLen
                } else {
                    Phase::Marker
                })
            },
    {
        if accounts.len() == count {
            Progress::Next(
                Decoder { phase: Phase::DataLen, count, accounts, cursor },
                Read::Word(cursor + WORD_SIZE),
            )
        } else {
            Progress::Next(
                Decoder { phase: Phase::Marker, count, accounts, cursor },
                Read::Byte(cursor + RECORD_OFFSET),
            )
        }
    }

    /// One step: hands the decoder the value of the read it asked for.
    ///
    /// For every input that the decoder follows, if the read lies within the
    /// input and `value` is what it reads there, the outcome is the one that
    /// decoding the input leads to: the next decoder, the decoded input, or the
    /// error. A position that is no address ends decoding with
    /// [`InputError::UnexpectedEnd`].
    pub fn feed(self, value: u64) -> (outcome: Result<Progress, InputError>)
        requires
            self.wf(),
            self@.pending() is Byte ==> value <= 0xff,
        ensures
            forall|input: Seq<u8>|
                #[trigger] self@.follows(input) && read_in_bounds(input, self@.pending()) && value
                    == read_value(input, self@.pending()) ==> outcome_follows(outcome, input),
            outcome matches Ok(Progress::Next(d, r)) ==> {
                &&& d.wf()
                &&& r == d@.pending()
                &&& d@.measure() < self@.measure()
            },
            outcome matches Ok(Progress::Done(decoded)) ==> {
                &&& decoded@.program_id_offset == decoded@.data_offset + decoded@.data_len
                &&& decoded@.program_id_offset + PUBKEY_SIZE <= usize::MAX
            },
    {
        let ghost old_state = self@;
        let Decoder { phase, count, mut accounts, cursor } = self;
        match phase {
            Phase::Count => {
                if value > MAX_ACCOUNTS as u64 {
                    proof {
                        assert forall|input: Seq<u8>|
                            #[trigger] old_state.follows(input) && read_in_bounds(
                                input,
                                old_state.pending(),
                            ) && value == read_value(input, old_state.pending()) implies parse_input(
                            input,
                        ) == Err::<InputLayout, InputError>(InputError::TooManyAccounts) by {}
                    }
                    return Err(InputError::TooManyAccounts);
                }
                let count = value as usize;
                assert(account_offsets(accounts@) =~= Seq::<int>::empty());
                let next = Decoder {
                    phase: if count == 0 {
                        Phase::DataLen
                    } else {
                        Phase::Length
                    },
                    count,
                    accounts,
                    cursor: 0,
                };
                let next_read = if count == 0 {
                    Read::Word(WORD_SIZE)
                } else {
                    Read::Word(DATA_LEN_OFFSET)
                };
                proof {
                    assert forall|input: Seq<u8>|
                        #[trigger] old_state.follows(input) && read_in_bounds(
                            input,
                            old_state.pending(),
                        ) && value == read_value(input, old_state.pending()) implies next@.follows(
                        input,
                    ) by {
                        assert(parse_accounts(input, 0) == Ok::<(Seq<int>, int), InputError>(
                            (Seq::<int>::empty(), 0),
                        ));
                    }
                }
                Ok(Progress::Next(next, next_read))
            },
            Phase::Length => {
                let ghost table = account_offsets(accounts@);
                accounts.push(AccountInfo { offset: cursor + RECORD_OFFSET });
                assert(account_offsets(accounts@) =~= table.push(cursor + RECORD_OFFSET));
                let end = (cursor as u128) + (TOTAL_ACCOUNT_DATA_TO_SKIP as u128) + (value as u128);
                let next = end - end % 8;
                if next + (WORD_SIZE as u128) > usize::MAX as u128 {
                    proof {
                        assert forall|input: Seq<u8>|
                            #[trigger] old_state.follows(input) && read_in_bounds(
                                input,
                                old_state.pending(),
                            ) && value == read_value(input, old_state.pending()) implies parse_input(
                            input,
                        ) == Err::<InputLayout, InputError>(InputError::UnexpectedEnd) by {
                            lemma_cursor_past_end(input, (table.len() + 1) as nat);
                        }
                    }
                    return Err(InputError::UnexpectedEnd);
                }
                Ok(Decoder::after_record(count, accounts, next as usize))
            },
            Phase::Marker => {
                let marker = value as u8;
                if marker == NON_DUP_MARKER {
                    if cursor > usize::MAX - DATA_LEN_OFFSET {
                        proof {
                            assert forall|input: Seq<u8>|
                                #[trigger] old_state.follows(input) && read_in_bounds(
                                    input,
                                    old_state.pending(),
                                ) && value == read_value(input, old_state.pending())
                                implies parse_input(input) == Err::<InputLayout, InputError>(
                                InputError::UnexpectedEnd,
                            ) by {
                                let done = old_state.table.len();
                                lemma_table_len(input, done);
                                lemma_error_persists(input, done + 1, old_state.count as nat);
                            }
                        }
                        return Err(InputError::UnexpectedEnd);
                    }
                    Ok(
                        Progress::Next(
                            Decoder { phase: Phase::Length, count, accounts, cursor },
                            Read::Word(cursor + DATA_LEN_OFFSET),
                        ),
                    )
                } else if (marker as usize) < accounts.len() {
                    let ghost table = account_offsets(accounts@);
                    let repeated = accounts[marker as usize];
                    accounts.push(repeated);
                    assert(account_offsets(accounts@) =~= table.push(table[marker as int]));
                    if cursor > usize::MAX - (DUPLICATE_RECORD_SIZE + WORD_SIZE) {
                        proof {
                            assert forall|input: Seq<u8>|
                                #[trigger] old_state.follows(input) && read_in_bounds(
                                    input,
                                    old_state.pending(),
                                ) && value == read_value(input, old_state.pending())
                                implies parse_input(input) == Err::<InputLayout, InputError>(
                                InputError::UnexpectedEnd,
                            ) by {
                                lemma_cursor_past_end(input, (table.len() + 1) as nat);
                            }
                        }
                        return Err(InputError::UnexpectedEnd);
                    }
                    Ok(Decoder::after_record(count, accounts, cursor + DUPLICATE_RECORD_SIZE))
                } else {
                    proof {
                        assert forall|input: Seq<u8>|
                            #[trigger] old_state.follows(input) && read_in_bounds(
                                input,
                                old_state.pending(),
                            ) && value == read_value(input, old_state.pending()) implies parse_input(
                            input,
                        ) == Err::<InputLayout, InputError>(InputError::InvalidDuplicate) by {
                            let done = old_state.table.len();
                            lemma_table_len(input, done);
                            lemma_error_persists(input, done + 1, old_state.count as nat);
                        }
                    }
                    Err(InputError::InvalidDuplicate)
                }
            },
            Phase::DataLen => {
                let data_end = (cursor as u128) + ((WORD_SIZE + WORD_SIZE) as u128) + (value as u128)
                    + (PUBKEY_SIZE as u128);
                if data_end > usize::MAX as u128 {
                    return Err(InputError::UnexpectedEnd);
                }
                let data_offset = cursor + WORD_SIZE + WORD_SIZE;
                let data_len = value as usize;
                Ok(
                    Progress::Done(
                        DeserializedInput {
                            accounts,
                            data_offset,
                            data_len,
                            program_id_offset: data_offset + data_len,
                        },
                    ),
                )
            },
        }
    }
}

/// When the read that the decoder asks for falls outside the input, the input
/// cannot be decoded: it ends too early.
pub proof fn lemma_read_past_end(decoder: &Decoder, input: Seq<u8>)
    requires
        decoder.wf(),
        decoder@.follows(input),
        !read_in_bounds(input, decoder@.pending()),
    ensures
        parse_input(input) == Err::<InputLayout, InputError>(InputError::UnexpectedEnd),
{
    let state = decoder@;
    if state.phase == Phase::Marker || state.phase == Phase::Length {
        let done = state.table.len();
        lemma_table_len(input, done);
        lemma_error_persists(input, done + 1, state.count as nat);
    }
}

/// Reads the little-endian word of `input` at `pos`.
fn read_u64_le(input: &[u8], pos: usize) -> (word: u64)
    requires
        pos + WORD_SIZE <= input@.len(),
    ensures
        word == le_u64(input@, pos as int),
{
    let b0 = input[pos] as u64;
    let b1 = input[pos + 1] as u64;
    let b2 = input[pos + 2] as u64;
    let b3 = input[pos + 3] as u64;
    let b4 = input[pos + 4] as u64;
    let b5 = input[pos + 5] as u64;
    let b6 = input[pos + 6] as u64;
    let b7 = input[pos + 7] as u64;
    b0 + b1 * 0x100 + b2 * 0x1_0000 + b3 * 0x100_0000 + b4 * 0x1_0000_0000 + b5 * 0x100_0000_0000
        + b6 * 0x1_0000_0000_0000 + b7 * 0x100_0000_0000_0000
}

/// Decodes the serialized program input: the account table with duplicates
/// resolved, the position and length of the instruction data and the position
/// of the program id. Every read is checked against the end of `input`.
pub fn deserialize(input: &[u8]) -> (result: Result<DeserializedInput, InputError>)
    ensures
        match result {
            Ok(decoded) => parse_input(input@) == Ok::<InputLayout, InputError>(decoded@),
            Err(e) => parse_input(input@) == Err::<InputLayout, InputError>(e),
        },
{
    let len = input.len();
    let (mut decoder, mut read) = Decoder::new();
    loop
        invariant
            len == input@.len(),
            decoder.wf(),
            read == decoder@.pending(),
            decoder@.follows(input@),
        decreases decoder@.measure(),
    {
        let value = match read {
            Read::Word(pos) => {
                if len < WORD_SIZE || pos > len - WORD_SIZE {
                    proof {
                        lemma_read_past_end(&decoder, input@);
                    }
                    return Err(InputError::UnexpectedEnd);
                }
                read_u64_le(input, pos)
            },
            Read::Byte(pos) => {
                if pos >= len {
                    proof {
                        lemma_read_past_end(&decoder, input@);
                    }
                    return Err(InputError::UnexpectedEnd);
                }
                input[pos] as u64
            },
        };
        match decoder.feed(value) {
            Ok(Progress::Next(next, next_read)) => {
                decoder = next;
                read = next_read;
            },
            Ok(Progress::Done(decoded)) => {
                if decoded.program_id_offset + PUBKEY_SIZE > len {
                    return Err(InputError::UnexpectedEnd);
                }
                return Ok(decoded);
            },
            Err(e) => {
                return Err(e);
            },
        }
    }
}

} // verus!
