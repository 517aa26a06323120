//! Properties of decoding that hold for every input.
use vstd::bytes::{spec_u64_to_le_bytes, spec_u64_to_le_bytes_to_open};
use vstd::prelude::*;

use crate::input::{
    account_step, align_down, is_non_duplicate, le_u64, lemma_table_len,
    parse_accounts, parse_input, parse_tail, InputError, InputLayout,
};
use crate::layout::{
    ACCOUNT_INFO_SIZE, DATA_LEN_OFFSET, DUPLICATE_RECORD_SIZE, MAX_ACCOUNTS,
    MAX_PERMITTED_ACCOUNT_DATA_SIZE, NON_DUP_MARKER,
    PUBKEY_SIZE, RECORD_OFFSET, TOTAL_ACCOUNT_DATA_TO_SKIP, WORD_SIZE,
};

verus! {

/// The account table after the first `count` records.
pub open spec fn table_after(input: Seq<u8>, count: nat) -> Seq<int> {
    parse_accounts(input, count)->Ok_0.0
}

/// The cursor after the first `count` records, that is, where record `count`
/// is read.
pub open spec fn cursor_after(input: Seq<u8>, count: nat) -> int {
    parse_accounts(input, count)->Ok_0.1
}

/// The decoded form of an input that decodes.
pub open spec fn decoded(input: Seq<u8>) -> InputLayout {
    parse_input(input)->Ok_0
}

/// What one record does to the table and the cursor.
proof fn lemma_step(input: Seq<u8>, index: nat)
    requires
        parse_accounts(input, index + 1) is Ok,
    ensures
        parse_accounts(input, index) is Ok,
        table_after(input, index).len() == index,
        table_after(input, index + 1).len() == index + 1,
        cursor_after(input, index) >= 0,
        cursor_after(input, index + 1) >= cursor_after(input, index) + RECORD_OFFSET,
        forall|j: int|
            0 <= j < index ==> #[trigger] table_after(input, index + 1)[j] == table_after(
                input,
                index,
            )[j],
        is_non_duplicate(input, index as int, cursor_after(input, index)) ==> {
            &&& table_after(input, index + 1)[index as int] == cursor_after(input, index)
                + RECORD_OFFSET
            &&& cursor_after(input, index) + RECORD_OFFSET + ACCOUNT_INFO_SIZE <= input.len()
            &&& cursor_after(input, index) + RECORD_OFFSET + ACCOUNT_INFO_SIZE <= cursor_after(
                input,
                index + 1,
            )
        },
        !is_non_duplicate(input, index as int, cursor_after(input, index)) ==> {
            let marker = input[cursor_after(input, index) + RECORD_OFFSET];
            &&& marker < index
            &&& table_after(input, index + 1)[index as int] == table_after(input, index)[marker as int]
        },
    decreases index,
{
    if parse_accounts(input, index) is Err {
        assert(parse_accounts(input, index + 1) == parse_accounts(input, index));
    }
    lemma_table_len(input, index);
    lemma_table_len(input, index + 1);
    if index > 0 {
        lemma_step(input, (index - 1) as nat);
    }
}

/// Decoding more records keeps the entries of the earlier ones, and the cursor
/// only moves forward.
proof fn lemma_prefix(input: Seq<u8>, index: nat, count: nat)
    requires
        index <= count,
        parse_accounts(input, count) is Ok,
    ensures
        parse_accounts(input, index) is Ok,
        table_after(input, index).len() == index,
        cursor_after(input, index) <= cursor_after(input, count),
        forall|j: int|
            0 <= j < index ==> #[trigger] table_after(input, count)[j] == table_after(
                input,
                index,
            )[j],
    decreases count - index,
{
    lemma_table_len(input, count);
    if index < count {
        lemma_step(input, (count - 1) as nat);
        lemma_prefix(input, index, (count - 1) as nat);
    }
}

/// Every entry of the table stands before the cursor, with room for a record
/// header between them.
proof fn lemma_entries_before_cursor(input: Seq<u8>, count: nat)
    requires
        parse_accounts(input, count) is Ok,
    ensures
        forall|j: int|
            0 <= j < count ==> RECORD_OFFSET <= #[trigger] table_after(input, count)[j] && table_after(
                input,
                count,
            )[j] + ACCOUNT_INFO_SIZE <= cursor_after(input, count),
    decreases count,
{
    lemma_table_len(input, count);
    if count > 0 {
        let index = (count - 1) as nat;
        lemma_step(input, index);
        lemma_entries_before_cursor(input, index);
        assert forall|j: int| 0 <= j < count implies RECORD_OFFSET <= #[trigger] table_after(
            input,
            count,
        )[j]
            && table_after(input, count)[j] + ACCOUNT_INFO_SIZE <= cursor_after(input, count) by {
            if j < index {
            } else if !is_non_duplicate(input, index as int, cursor_after(input, index)) {
                let marker = input[cursor_after(input, index) + RECORD_OFFSET];
                assert(table_after(input, index)[marker as int] + ACCOUNT_INFO_SIZE
                    <= cursor_after(input, index));
            }
        }
    }
}

/// The table holds one entry per account record, as many as the input's first
/// word counts, and never more than [`MAX_ACCOUNTS`].
pub proof fn lemma_account_count(input: Seq<u8>)
    requires
        parse_input(input) is Ok,
    ensures
        decoded(input).accounts.len() == le_u64(input, 0),
        decoded(input).accounts.len() <= MAX_ACCOUNTS,
{
    lemma_table_len(input, le_u64(input, 0) as nat);
}

/// The first record is never taken as a duplicate: the first entry is the
/// position of the first record, right after the count word.
pub proof fn lemma_first_account_at_start(input: Seq<u8>)
    requires
        parse_input(input) is Ok,
        decoded(input).accounts.len() > 0,
    ensures
        decoded(input).accounts[0] == RECORD_OFFSET,
{
    lemma_entry_resolution(input, 0);
}

/// Each entry is resolved from its record: a non-duplicate record (the first
/// record always counts as one) gives the position at which it was read, and a
/// duplicate record names an earlier account, whose entry it repeats.
pub proof fn lemma_entry_resolution(input: Seq<u8>, index: int)
    requires
        parse_input(input) is Ok,
        0 <= index < decoded(input).accounts.len(),
    ensures
        is_non_duplicate(input, index, cursor_after(input, index as nat)) ==> decoded(
            input,
        ).accounts[index] == cursor_after(input, index as nat) + RECORD_OFFSET,
        !is_non_duplicate(input, index, cursor_after(input, index as nat)) ==> {
            let marker = input[cursor_after(input, index as nat) + RECORD_OFFSET];
            &&& marker < index
            &&& decoded(input).accounts[index] == decoded(input).accounts[marker as int]
        },
{
    let count = le_u64(input, 0) as nat;
    lemma_table_len(input, count);
    lemma_prefix(input, (index + 1) as nat, count);
    lemma_step(input, index as nat);
    lemma_prefix(input, index as nat, count);
    assert(decoded(input).accounts == table_after(input, count));
}

/// A duplicate never stands for another duplicate: every entry is the position
/// of a non-duplicate record at or before its own.
pub proof fn lemma_entries_name_accounts(input: Seq<u8>, index: int)
    requires
        parse_input(input) is Ok,
        0 <= index < decoded(input).accounts.len(),
    ensures
        exists|origin: int|
            0 <= origin <= index && #[trigger] is_non_duplicate(
                input,
                origin,
                cursor_after(input, origin as nat),
            ) && decoded(input).accounts[index] == cursor_after(input, origin as nat)
                + RECORD_OFFSET,
    decreases index,
{
    lemma_entry_resolution(input, index);
    if is_non_duplicate(input, index, cursor_after(input, index as nat)) {
        assert(is_non_duplicate(input, index, cursor_after(input, index as nat)));
    } else {
        let marker = input[cursor_after(input, index as nat) + RECORD_OFFSET] as int;
        lemma_entries_name_accounts(input, marker);
        let origin = choose|origin: int|
            0 <= origin <= marker && #[trigger] is_non_duplicate(
                input,
                origin,
                cursor_after(input, origin as nat),
            ) && decoded(input).accounts[marker] == cursor_after(input, origin as nat)
                + RECORD_OFFSET;
        assert(is_non_duplicate(input, origin, cursor_after(input, origin as nat)));
    }
}

/// The records of different non-duplicate accounts come in order and do not
/// overlap, and every account record comes before the instruction data, which
/// is followed by the program id, within the input.
pub proof fn lemma_layout_in_order(input: Seq<u8>, first: int, second: int)
    requires
        parse_input(input) is Ok,
        0 <= first < second < decoded(input).accounts.len(),
        is_non_duplicate(input, first, cursor_after(input, first as nat)),
        is_non_duplicate(input, second, cursor_after(input, second as nat)),
    ensures
        RECORD_OFFSET <= decoded(input).accounts[first],
        decoded(input).accounts[first] + ACCOUNT_INFO_SIZE <= decoded(input).accounts[second],
        decoded(input).accounts[second] + ACCOUNT_INFO_SIZE <= decoded(input).data_offset,
        decoded(input).program_id_offset == decoded(input).data_offset + decoded(input).data_len,
        decoded(input).program_id_offset + PUBKEY_SIZE <= input.len(),
{
    let count = le_u64(input, 0) as nat;
    lemma_table_len(input, count);
    lemma_entry_resolution(input, first);
    lemma_entry_resolution(input, second);
    lemma_prefix(input, second as nat, count);
    lemma_prefix(input, (first + 1) as nat, second as nat);
    lemma_step(input, first as nat);
    lemma_entries_before_cursor(input, count);
    assert(decoded(input).accounts == table_after(input, count));
    assert(decoded(input).data_offset == cursor_after(input, count) + WORD_SIZE + WORD_SIZE);
}

/// The account that entry `index` finally stands for: itself when its record
/// is a non-duplicate, else the account that its duplicate record names,
/// followed on.
pub open spec fn root(input: Seq<u8>, index: int) -> int
    decreases index,
{
    if index <= 0 || is_non_duplicate(input, index, cursor_after(input, index as nat)) {
        index
    } else {
        let marker = input[cursor_after(input, index as nat) + RECORD_OFFSET] as int;
        if marker < index {
            root(input, marker)
        } else {
            index
        }
    }
}

/// An entry is the entry of its root, a non-duplicate record at or before it.
proof fn lemma_root(input: Seq<u8>, index: int)
    requires
        parse_input(input) is Ok,
        0 <= index < decoded(input).accounts.len(),
    ensures
        0 <= root(input, index) <= index,
        is_non_duplicate(input, root(input, index), cursor_after(input, root(input, index) as nat)),
        decoded(input).accounts[index] == cursor_after(input, root(input, index) as nat)
            + RECORD_OFFSET,
    decreases index,
{
    lemma_entry_resolution(input, index);
    if index > 0 && !is_non_duplicate(input, index, cursor_after(input, index as nat)) {
        let marker = input[cursor_after(input, index as nat) + RECORD_OFFSET] as int;
        lemma_root(input, marker);
        lemma_entry_resolution(input, marker);
    }
}

/// Two entries are equal exactly when they stand for the same account:
/// duplicates share the entry of the account they name, and distinct
/// non-duplicate records never share one.
pub proof fn lemma_aliasing(input: Seq<u8>, first: int, second: int)
    requires
        parse_input(input) is Ok,
        0 <= first < decoded(input).accounts.len(),
        0 <= second < decoded(input).accounts.len(),
    ensures
        decoded(input).accounts[first] == decoded(input).accounts[second] <==> root(input, first)
            == root(input, second),
{
    lemma_root(input, first);
    lemma_root(input, second);
    let a = root(input, first);
    let b = root(input, second);
    lemma_entry_resolution(input, a);
    lemma_entry_resolution(input, b);
    if a < b {
        lemma_layout_in_order(input, a, b);
    } else if b < a {
        lemma_layout_in_order(input, b, a);
    }
}

/// Every entry points at the first byte of a non-duplicate record that lies
/// before the instruction data: its marker byte, or the first record, whose
/// marker is not read.
pub proof fn lemma_entries_point_at_records(input: Seq<u8>, index: int)
    requires
        parse_input(input) is Ok,
        0 <= index < decoded(input).accounts.len(),
    ensures
        RECORD_OFFSET <= decoded(input).accounts[index],
        decoded(input).accounts[index] + ACCOUNT_INFO_SIZE <= decoded(input).data_offset,
        decoded(input).accounts[index] == RECORD_OFFSET || input[decoded(input).accounts[index]]
            == NON_DUP_MARKER,
{
    let count = le_u64(input, 0) as nat;
    lemma_table_len(input, count);
    lemma_root(input, index);
    let origin = root(input, index);
    if origin == 0 {
        assert(parse_accounts(input, 0) == Ok::<(Seq<int>, int), InputError>((Seq::empty(), 0)));
    }
    lemma_entries_before_cursor(input, count);
    assert(decoded(input).accounts == table_after(input, count));
    assert(decoded(input).data_offset == cursor_after(input, count) + WORD_SIZE + WORD_SIZE);
}

/// Every cursor is a multiple of 8.
proof fn lemma_cursor_aligned(input: Seq<u8>, count: nat)
    requires
        parse_accounts(input, count) is Ok,
    ensures
        cursor_after(input, count) % 8 == 0,
    decreases count,
{
    if count > 0 {
        let index = (count - 1) as nat;
        lemma_step(input, index);
        lemma_cursor_aligned(input, index);
        let cursor = cursor_after(input, index);
        if is_non_duplicate(input, index as int, cursor) {
            let x = cursor + TOTAL_ACCOUNT_DATA_TO_SKIP + le_u64(input, cursor + DATA_LEN_OFFSET);
            assert(align_down(x) % 8 == 0) by (nonlinear_arith)
                requires
                    align_down(x) == x - x % 8,
            ;
        } else {
            assert((cursor + DUPLICATE_RECORD_SIZE) % 8 == 0) by (nonlinear_arith)
                requires
                    cursor % 8 == 0,
            ;
        }
    }
}

/// Positions are kept aligned: every account entry and the start of the
/// instruction data are multiples of 8.
pub proof fn lemma_positions_aligned(input: Seq<u8>, index: int)
    requires
        parse_input(input) is Ok,
        0 <= index < decoded(input).accounts.len(),
    ensures
        decoded(input).accounts[index] % 8 == 0,
        decoded(input).data_offset % 8 == 0,
{
    let count = le_u64(input, 0) as nat;
    lemma_table_len(input, count);
    lemma_cursor_aligned(input, count);
    assert(decoded(input).data_offset == cursor_after(input, count) + WORD_SIZE + WORD_SIZE);
    lemma_entries_name_accounts(input, index);
    let origin = choose|origin: int|
        0 <= origin <= index && #[trigger] is_non_duplicate(
            input,
            origin,
            cursor_after(input, origin as nat),
        ) && decoded(input).accounts[index] == cursor_after(input, origin as nat) + RECORD_OFFSET;
    lemma_prefix(input, origin as nat, count);
    lemma_cursor_aligned(input, origin as nat);
}

/// The little-endian word at a position within `input` is the same once more
/// bytes follow.
proof fn lemma_word_extend(input: Seq<u8>, extra: Seq<u8>, pos: int)
    requires
        0 <= pos,
        pos + WORD_SIZE <= input.len(),
    ensures
        le_u64(input + extra, pos) == le_u64(input, pos),
{
    assert((input + extra)[pos + 0] == input[pos + 0]);
    assert((input + extra)[pos + 1] == input[pos + 1]);
    assert((input + extra)[pos + 2] == input[pos + 2]);
    assert((input + extra)[pos + 3] == input[pos + 3]);
    assert((input + extra)[pos + 4] == input[pos + 4]);
    assert((input + extra)[pos + 5] == input[pos + 5]);
    assert((input + extra)[pos + 6] == input[pos + 6]);
    assert((input + extra)[pos + 7] == input[pos + 7]);
}

/// Decoding records that fit in `input` reads the same bytes once more bytes
/// follow.
proof fn lemma_accounts_extend(input: Seq<u8>, extra: Seq<u8>, count: nat)
    requires
        parse_accounts(input, count) is Ok,
    ensures
        parse_accounts(input + extra, count) == parse_accounts(input, count),
    decreases count,
{
    if count > 0 {
        let index = (count - 1) as nat;
        lemma_step(input, index);
        lemma_accounts_extend(input, extra, index);
        let cursor = cursor_after(input, index);
        if index > 0 {
            assert((input + extra)[cursor + RECORD_OFFSET] == input[cursor
                + RECORD_OFFSET]);
        }
        if is_non_duplicate(input, index as int, cursor) {
            lemma_word_extend(input, extra, cursor + DATA_LEN_OFFSET);
        }
        assert(account_step(input + extra, table_after(input, index), cursor) == account_step(
            input,
            table_after(input, index),
            cursor,
        ));
    }
}

/// Decoding depends only on the bytes it reads: bytes after the program id
/// change nothing.
pub proof fn lemma_trailing_bytes_ignored(input: Seq<u8>, extra: Seq<u8>)
    requires
        parse_input(input) is Ok,
    ensures
        parse_input(input + extra) == parse_input(input),
{
    let count = le_u64(input, 0) as nat;
    lemma_word_extend(input, extra, 0);
    lemma_accounts_extend(input, extra, count);
    if count > 0 {
        lemma_step(input, (count - 1) as nat);
    }
    let cursor = cursor_after(input, count);
    lemma_word_extend(input, extra, cursor + WORD_SIZE);
    assert(parse_tail(input + extra, table_after(input, count), cursor) == parse_tail(
        input,
        table_after(input, count),
        cursor,
    ));
}

/// Decoding the records fails only for a read past the end or a bad duplicate.
proof fn lemma_accounts_error_kinds(input: Seq<u8>, count: nat)
    requires
        parse_accounts(input, count) is Err,
    ensures
        parse_accounts(input, count)->Err_0 == InputError::UnexpectedEnd
            || parse_accounts(input, count)->Err_0 == InputError::InvalidDuplicate,
    decreases count,
{
    if count > 0 && parse_accounts(input, (count - 1) as nat) is Err {
        lemma_accounts_error_kinds(input, (count - 1) as nat);
    }
}

/// A refused duplicate is refused however the input goes on.
proof fn lemma_bad_duplicate_extend(input: Seq<u8>, extra: Seq<u8>, count: nat)
    requires
        parse_accounts(input, count) == Err::<(Seq<int>, int), InputError>(
            InputError::InvalidDuplicate,
        ),
    ensures
        parse_accounts(input + extra, count) == parse_accounts(input, count),
    decreases count,
{
    let index = (count - 1) as nat;
    if parse_accounts(input, index) is Err {
        lemma_bad_duplicate_extend(input, extra, index);
    } else {
        lemma_accounts_extend(input, extra, index);
        lemma_table_len(input, index);
        let cursor = cursor_after(input, index);
        assert(parse_accounts(input, count) == account_step(
            input,
            table_after(input, index),
            cursor,
        ));
        lemma_step(input, (index - 1) as nat);
        assert((input + extra)[cursor + RECORD_OFFSET] == input[cursor + RECORD_OFFSET]);
    }
}

/// An input refused for its content, rather than for ending too early, stays
/// refused, with the same error, however it goes on.
pub proof fn lemma_refusal_kept(input: Seq<u8>, extra: Seq<u8>)
    requires
        parse_input(input) is Err,
        parse_input(input)->Err_0 != InputError::UnexpectedEnd,
    ensures
        parse_input(input + extra) == parse_input(input),
{
    lemma_word_extend(input, extra, 0);
    let count = le_u64(input, 0) as nat;
    if le_u64(input, 0) <= MAX_ACCOUNTS {
        if parse_accounts(input, count) is Ok {
            lemma_accounts_extend(input, extra, count);
            let cursor = cursor_after(input, count);
            if cursor + WORD_SIZE + WORD_SIZE <= input.len() {
                lemma_word_extend(input, extra, cursor + WORD_SIZE);
            }
        } else {
            lemma_accounts_error_kinds(input, count);
            lemma_bad_duplicate_extend(input, extra, count);
        }
    }
}

/// A word of the input is read in full, little-endian: where the 8 bytes at
/// `pos` are the little-endian encoding of `word` (the bytes that
/// `u64::to_le_bytes` gives), the value read there is `word`.
pub proof fn lemma_word_read_in_full(input: Seq<u8>, pos: int, word: u64)
    requires
        0 <= pos,
        pos + WORD_SIZE <= input.len(),
        input.subrange(pos, pos + WORD_SIZE) == spec_u64_to_le_bytes(word),
    ensures
        le_u64(input, pos) == word,
{
    spec_u64_to_le_bytes_to_open(word);
    let s = input.subrange(pos, pos + WORD_SIZE);
    assert(input[pos + 0] == s[0]);
    assert(input[pos + 1] == s[1]);
    assert(input[pos + 2] == s[2]);
    assert(input[pos + 3] == s[3]);
    assert(input[pos + 4] == s[4]);
    assert(input[pos + 5] == s[5]);
    assert(input[pos + 6] == s[6]);
    assert(input[pos + 7] == s[7]);
    assert((word & 0xff) < 0x100 && ((word >> 8) & 0xff) < 0x100 && ((word >> 16) & 0xff) < 0x100 && ((word >> 24) & 0xff) < 0x100 && ((word >> 32) & 0xff) < 0x100 && ((word >> 40) & 0xff) < 0x100 && ((word >> 48) & 0xff) < 0x100 && ((word >> 56) & 0xff) < 0x100) by (bit_vector);
    assert(word == (word & 0xff) + ((word >> 8) & 0xff) * 0x100 + ((word >> 16) & 0xff) * 0x10000 + ((word >> 24) & 0xff) * 0x1000000 + ((word >> 32) & 0xff) * 0x100000000 + ((word >> 40) & 0xff) * 0x10000000000 + ((word >> 48) & 0xff) * 0x1000000000000 + ((word >> 56) & 0xff) * 0x100000000000000) by (bit_vector);
}

/// The count of account records is read in full: where the input's first 8
/// bytes are the little-endian encoding of `count`, the table has `count`
/// entries.
pub proof fn lemma_count_read_in_full(input: Seq<u8>, count: u64)
    requires
        parse_input(input) is Ok,
        input.subrange(0, WORD_SIZE as int) == spec_u64_to_le_bytes(count),
    ensures
        decoded(input).accounts.len() == count,
{
    lemma_account_count(input);
    lemma_word_read_in_full(input, 0, count);
}

/// The instruction data is as long as the whole word before it says, and the
/// program id follows all of it, within the input.
pub proof fn lemma_data_length_read_in_full(input: Seq<u8>, data_len: u64)
    requires
        parse_input(input) is Ok,
        input.subrange(
            decoded(input).data_offset - WORD_SIZE,
            decoded(input).data_offset,
        ) == spec_u64_to_le_bytes(data_len),
    ensures
        decoded(input).data_len == data_len,
        decoded(input).program_id_offset == decoded(input).data_offset + data_len,
        decoded(input).program_id_offset + PUBKEY_SIZE <= input.len(),
{
    let count = le_u64(input, 0) as nat;
    if count > 0 {
        lemma_step(input, (count - 1) as nat);
    }
    let cursor = cursor_after(input, count);
    assert(decoded(input).data_offset == cursor + WORD_SIZE + WORD_SIZE);
    lemma_word_read_in_full(input, cursor + WORD_SIZE, data_len);
}

/// The cursor moves past all of a non-duplicate account's data: where the
/// record's data length word holds `data_len`, the next cursor lies past the
/// record's header, its `data_len` bytes of data and the room it may grow
/// into, and at most 7 bytes of alignment further, on a multiple of 8.
pub proof fn lemma_cursor_skips_account_data(input: Seq<u8>, index: int, data_len: u64)
    requires
        parse_input(input) is Ok,
        0 <= index < decoded(input).accounts.len(),
        is_non_duplicate(input, index, cursor_after(input, index as nat)),
        input.subrange(
            cursor_after(input, index as nat) + DATA_LEN_OFFSET,
            cursor_after(input, index as nat) + DATA_LEN_OFFSET + WORD_SIZE,
        ) == spec_u64_to_le_bytes(data_len),
    ensures
        cursor_after(input, (index + 1) as nat) >= cursor_after(input, index as nat)
            + RECORD_OFFSET + ACCOUNT_INFO_SIZE + data_len + MAX_PERMITTED_ACCOUNT_DATA_SIZE,
        cursor_after(input, (index + 1) as nat) <= cursor_after(input, index as nat)
            + TOTAL_ACCOUNT_DATA_TO_SKIP + data_len,
        cursor_after(input, (index + 1) as nat) % 8 == 0,
{
    let count = le_u64(input, 0) as nat;
    lemma_table_len(input, count);
    lemma_prefix(input, (index + 1) as nat, count);
    lemma_step(input, index as nat);
    lemma_cursor_aligned(input, (index + 1) as nat);
    lemma_cursor_aligned(input, index as nat);
    let cursor = cursor_after(input, index as nat);
    lemma_word_read_in_full(input, cursor + DATA_LEN_OFFSET, data_len);
    assert(parse_accounts(input, (index + 1) as nat) == account_step(
        input,
        table_after(input, index as nat),
        cursor,
    ));
    let x = cursor + TOTAL_ACCOUNT_DATA_TO_SKIP + data_len;
    assert(x - x % 8 >= x - 7 && x - x % 8 <= x) by (nonlinear_arith);
}

} // verus!
