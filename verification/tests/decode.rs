use asmr::decoder::{deserialize, Decoder, Progress, Read};
use asmr::input::{AccountInfo, InputError};
use asmr::layout::heap_start;
use asmr::program::{entrypoint, process};

/// Builds serialized inputs record by record, keeping the decoder's cursor.
struct InputBuilder {
    bytes: Vec<u8>,
    cursor: usize,
    records: usize,
}

impl InputBuilder {
    fn new(count: u64) -> Self {
        InputBuilder { bytes: count.to_le_bytes().to_vec(), cursor: 0, records: 0 }
    }

    fn ensure(&mut self, len: usize) {
        if self.bytes.len() < len {
            self.bytes.resize(len, 0);
        }
    }

    fn put_word(&mut self, pos: usize, word: u64) {
        self.ensure(pos + 8);
        self.bytes[pos..pos + 8].copy_from_slice(&word.to_le_bytes());
    }

    /// A non-duplicate record with `len` bytes of data; its lamports are set
    /// to a value that differs from `len`.
    fn account(mut self, len: u64) -> Self {
        let c = self.cursor;
        self.ensure(c + 96);
        self.bytes[c + 8] = 255;
        self.put_word(c + 80, 0x5A5A + len);
        self.put_word(c + 88, len);
        self.cursor = (c + 10343 + len as usize) & !7;
        self.records += 1;
        self
    }

    /// A duplicate record naming account `index`.
    fn duplicate(mut self, index: u8) -> Self {
        let c = self.cursor;
        self.ensure(c + 16);
        self.bytes[c + 8] = index;
        self.cursor = c + 8;
        self.records += 1;
        self
    }

    /// The instruction data and the program id.
    fn finish(mut self, data: &[u8], program_id: [u8; 32]) -> Vec<u8> {
        let c = self.cursor;
        self.put_word(c + 8, data.len() as u64);
        self.ensure(c + 16 + data.len() + 32);
        self.bytes[c + 16..c + 16 + data.len()].copy_from_slice(data);
        self.bytes[c + 16 + data.len()..c + 16 + data.len() + 32].copy_from_slice(&program_id);
        self.bytes.truncate(c + 16 + data.len() + 32);
        self.bytes
    }
}

fn offsets(accounts: &[AccountInfo]) -> Vec<usize> {
    accounts.iter().map(|a| a.offset).collect()
}

const PROGRAM: [u8; 32] = [7; 32];

#[test]
fn no_accounts() {
    let input = InputBuilder::new(0).finish(&[1, 2, 3], PROGRAM);
    assert_eq!(input.len(), 8 + 8 + 3 + 32);
    let decoded = deserialize(&input).unwrap();
    assert!(decoded.accounts.is_empty());
    assert_eq!(decoded.data_offset, 16);
    assert_eq!(decoded.data_len, 3);
    assert_eq!(decoded.program_id_offset, 19);
    assert_eq!(decoded.instruction_data(&input), &[1, 2, 3]);
    assert_eq!(*decoded.program_id(&input), PROGRAM);
    assert_eq!(entrypoint(&input).unwrap().code, 0);
}

#[test]
fn one_account_with_empty_length() {
    let input = InputBuilder::new(1).account(0).finish(&[9], PROGRAM);
    let decoded = deserialize(&input).unwrap();
    assert_eq!(offsets(&decoded.accounts), vec![8]);
    // (0 + 10343) aligned down to 8
    assert_eq!(decoded.data_offset, 10336 + 16);
    assert_eq!(decoded.data_len, 1);
    assert_eq!(decoded.program_id_offset, 10336 + 17);
    assert_eq!(decoded.instruction_data(&input), &[9]);
}

#[test]
fn distinct_accounts_follow_their_length_words() {
    let input = InputBuilder::new(3).account(0).account(5).account(16).finish(&[], PROGRAM);
    let decoded = deserialize(&input).unwrap();
    // cursors 0; 10336; (10336 + 10343 + 5) & !7 = 20680; (20680 + 10343 + 16) & !7 = 31032;
    // each record starts 8 bytes past its cursor
    assert_eq!(offsets(&decoded.accounts), vec![8, 10344, 20688]);
    assert_eq!(decoded.data_offset, 31032 + 16);
    assert_eq!(decoded.data_len, 0);
    assert_eq!(*decoded.program_id(&input), PROGRAM);
}

#[test]
fn duplicates_repeat_the_entry_they_name() {
    let input = InputBuilder::new(5)
        .account(0)
        .account(0)
        .duplicate(0)
        .duplicate(1)
        .duplicate(2)
        .finish(&[4, 5], PROGRAM);
    let decoded = deserialize(&input).unwrap();
    assert_eq!(offsets(&decoded.accounts), vec![8, 10344, 8, 10344, 8]);
    // three duplicate records of 8 bytes after the second account
    assert_eq!(decoded.data_offset, 20672 + 24 + 16);
    assert_eq!(decoded.instruction_data(&input), &[4, 5]);
}

#[test]
fn first_record_marker_is_not_read() {
    let mut input = InputBuilder::new(1).account(0).finish(&[], PROGRAM);
    input[8] = 0;
    let decoded = deserialize(&input).unwrap();
    assert_eq!(offsets(&decoded.accounts), vec![8]);
}

#[test]
fn sixty_four_accounts_are_decoded() {
    let mut builder = InputBuilder::new(64).account(0);
    for i in 1..64u8 {
        builder = builder.duplicate(i - 1);
    }
    let input = builder.finish(&[1], PROGRAM);
    let decoded = deserialize(&input).unwrap();
    assert_eq!(decoded.accounts.len(), 64);
    assert!(decoded.accounts.iter().all(|a| a.offset == 8));
    assert_eq!(decoded.data_offset, 10336 + 63 * 8 + 16);
}

#[test]
fn too_many_accounts() {
    let input = InputBuilder::new(65).finish(&[], PROGRAM);
    assert_eq!(deserialize(&input).unwrap_err(), InputError::TooManyAccounts);
    assert_eq!(entrypoint(&input).unwrap_err(), InputError::TooManyAccounts);
}

#[test]
fn duplicate_must_name_an_earlier_account() {
    let input = InputBuilder::new(2).account(0).duplicate(1).finish(&[], PROGRAM);
    assert_eq!(deserialize(&input).unwrap_err(), InputError::InvalidDuplicate);
    let input = InputBuilder::new(3).account(0).duplicate(0).duplicate(7).finish(&[], PROGRAM);
    assert_eq!(deserialize(&input).unwrap_err(), InputError::InvalidDuplicate);
    assert_eq!(entrypoint(&input).unwrap_err(), InputError::InvalidDuplicate);
}

#[test]
fn short_inputs_end_unexpectedly() {
    assert_eq!(deserialize(&[]).unwrap_err(), InputError::UnexpectedEnd);
    assert_eq!(deserialize(&[0; 7]).unwrap_err(), InputError::UnexpectedEnd);
    // no instruction data length
    assert_eq!(deserialize(&[0; 8]).unwrap_err(), InputError::UnexpectedEnd);
    let input = InputBuilder::new(2).account(0).account(0).finish(&[1, 2, 3], PROGRAM);
    // every proper prefix is refused
    for cut in [0, 9, 87, 88, 10343, 10344 + 80, input.len() - 1] {
        assert_eq!(deserialize(&input[..cut]).unwrap_err(), InputError::UnexpectedEnd);
    }
    assert!(deserialize(&input).is_ok());
    assert_eq!(entrypoint(&input[..input.len() - 1]).unwrap_err(), InputError::UnexpectedEnd);
}

#[test]
fn huge_length_words_end_unexpectedly() {
    let mut input = InputBuilder::new(1).account(0).finish(&[], PROGRAM);
    input[88..96].copy_from_slice(&u64::MAX.to_le_bytes());
    assert_eq!(deserialize(&input).unwrap_err(), InputError::UnexpectedEnd);
    let mut input = InputBuilder::new(0).finish(&[], PROGRAM);
    input[8..16].copy_from_slice(&u64::MAX.to_le_bytes());
    assert_eq!(deserialize(&input).unwrap_err(), InputError::UnexpectedEnd);
}

#[test]
fn trailing_bytes_change_nothing() {
    let input = InputBuilder::new(3).account(2).duplicate(0).account(0).finish(&[1], PROGRAM);
    let base = deserialize(&input).unwrap();
    let mut longer = input.clone();
    longer.extend_from_slice(&[0xAB; 100]);
    let extended = deserialize(&longer).unwrap();
    assert_eq!(offsets(&base.accounts), offsets(&extended.accounts));
    assert_eq!(base.data_offset, extended.data_offset);
    assert_eq!(base.data_len, extended.data_len);
    assert_eq!(base.program_id_offset, extended.program_id_offset);
    // a refused duplicate stays refused
    let bad = InputBuilder::new(2).account(0).duplicate(3).finish(&[], PROGRAM);
    let mut longer = bad.clone();
    longer.push(0);
    assert_eq!(deserialize(&longer).unwrap_err(), InputError::InvalidDuplicate);
}

#[test]
fn decoder_asks_for_each_read_in_turn() {
    let input = InputBuilder::new(2).account(0).duplicate(0).finish(&[5], PROGRAM);
    let (decoder, read) = Decoder::new();
    assert_eq!(read, Read::Word(0));
    let (decoder, read) = match decoder.feed(2) {
        Ok(Progress::Next(d, r)) => (d, r),
        _ => panic!("expected a read"),
    };
    assert_eq!(read, Read::Word(88));
    let (decoder, read) = match decoder.feed(0) {
        Ok(Progress::Next(d, r)) => (d, r),
        _ => panic!("expected a read"),
    };
    assert_eq!(read, Read::Byte(10336 + 8));
    assert_eq!(input[10344], 0);
    let (decoder, read) = match decoder.feed(0) {
        Ok(Progress::Next(d, r)) => (d, r),
        _ => panic!("expected a read"),
    };
    assert_eq!(read, Read::Word(10344 + 8));
    match decoder.feed(1) {
        Ok(Progress::Done(decoded)) => {
            assert_eq!(offsets(&decoded.accounts), vec![8, 8]);
            assert_eq!(decoded.data_offset, 10344 + 16);
            assert_eq!(decoded.data_len, 1);
            assert_eq!(decoded.program_id_offset, 10344 + 17);
        }
        _ => panic!("expected the decoded input"),
    }
}

#[test]
fn decoder_refuses_too_many_accounts_at_once() {
    let (decoder, _) = Decoder::new();
    assert!(matches!(decoder.feed(65), Err(InputError::TooManyAccounts)));
}

#[test]
fn process_reports_success() {
    let accounts = [AccountInfo { offset: 0 }];
    assert_eq!(process(&PROGRAM, &accounts, &[1, 2]), 0);
    assert_eq!(process(&[0; 32], &[], &[]), 0);
}

#[test]
fn heap_starts_after_the_account_table() {
    assert_eq!(heap_start(0), 0x300000000);
    assert_eq!(heap_start(1), 0x300000008);
    assert_eq!(heap_start(64), 0x300000200);
}

#[test]
fn positions_are_multiples_of_eight() {
    let input = InputBuilder::new(4)
        .account(1)
        .account(3)
        .duplicate(0)
        .account(13)
        .finish(&[1, 2, 3, 4, 5], PROGRAM);
    let decoded = deserialize(&input).unwrap();
    // cursors: (10343 + 1) & !7 = 10344; (10344 + 10343 + 3) & !7 = 20688;
    // duplicate: 20696; (20696 + 10343 + 13) & !7 = 31048; entries stand 8 past them
    assert_eq!(offsets(&decoded.accounts), vec![8, 10352, 8, 20704]);
    assert_eq!(decoded.data_offset, 31048 + 16);
    assert!(decoded.accounts.iter().all(|a| a.offset % 8 == 0));
    assert_eq!(decoded.data_offset % 8, 0);
    assert_eq!(decoded.program_id_offset, decoded.data_offset + 5);
}

/// A non-duplicate record as the runtime lays it out: marker, flags, padding,
/// key, owner, lamports, data length, data, room to grow, alignment, rent epoch.
fn runtime_record(lamports: u64, data: &[u8]) -> Vec<u8> {
    let mut record = vec![0xFF, 0, 0, 0, 0, 0, 0, 0];
    record.extend_from_slice(&[1; 32]);
    record.extend_from_slice(&[2; 32]);
    record.extend_from_slice(&lamports.to_le_bytes());
    record.extend_from_slice(&(data.len() as u64).to_le_bytes());
    record.extend_from_slice(data);
    record.extend_from_slice(&[0; 10240]);
    while record.len() % 8 != 0 {
        record.push(0);
    }
    record.extend_from_slice(&0u64.to_le_bytes());
    record
}

#[test]
fn runtime_layout_with_lamports() {
    let mut input = 2u64.to_le_bytes().to_vec();
    input.extend_from_slice(&runtime_record(16, &[]));
    input.extend_from_slice(&runtime_record(0, &[]));
    input.extend_from_slice(&3u64.to_le_bytes());
    input.extend_from_slice(&[1, 2, 3]);
    input.extend_from_slice(&[9; 32]);
    assert_eq!(entrypoint(&input).unwrap().code, 0);
    let decoded = deserialize(&input).unwrap();
    assert_eq!(offsets(&decoded.accounts), vec![8, 8 + 10336]);
    assert_eq!(decoded.data_offset, 20688);
    assert_eq!(decoded.instruction_data(&input), &[1, 2, 3]);
    assert_eq!(*decoded.program_id(&input), [9; 32]);
    for account in &decoded.accounts {
        assert_eq!(input[account.offset], 0xFF);
    }
}

#[test]
fn runtime_layout_with_data_and_duplicates() {
    let mut input = 4u64.to_le_bytes().to_vec();
    let first = runtime_record(8, &[5; 13]);
    input.extend_from_slice(&first);
    input.extend_from_slice(&[0, 0, 0, 0, 0, 0, 0, 0]);
    let second_at = input.len();
    input.extend_from_slice(&runtime_record(1_000_000, &[6; 3]));
    input.extend_from_slice(&[2, 0, 0, 0, 0, 0, 0, 0]);
    let data_len_at = input.len();
    input.extend_from_slice(&0u64.to_le_bytes());
    input.extend_from_slice(&[9; 32]);
    let decoded = deserialize(&input).unwrap();
    assert_eq!(offsets(&decoded.accounts), vec![8, 8, second_at, second_at]);
    assert_ne!(decoded.accounts[0], decoded.accounts[2]);
    assert_eq!(decoded.data_offset, data_len_at + 8);
    assert_eq!(decoded.data_len, 0);
    assert_eq!(entrypoint(&input).unwrap().code, 0);
}

#[test]
fn entrypoint_hands_on_the_decoded_parts_in_place() {
    let mut input = 2u64.to_le_bytes().to_vec();
    input.extend_from_slice(&runtime_record(0, &[]));
    input.extend_from_slice(&[0, 0, 0, 0, 0, 0, 0, 0]);
    input.extend_from_slice(&3u64.to_le_bytes());
    input.extend_from_slice(&[1, 2, 3]);
    input.extend_from_slice(&[9; 32]);
    let invocation = entrypoint(&input).unwrap();
    assert_eq!(invocation.code, 0);
    assert_eq!(offsets(&invocation.accounts), vec![8, 8]);
    assert_eq!(invocation.data, &[1, 2, 3]);
    assert_eq!(invocation.data.as_ptr(), input[10360..].as_ptr());
    assert_eq!(*invocation.program_id, [9; 32]);
    assert_eq!(invocation.program_id.as_ptr(), input[10363..].as_ptr());
}

#[test]
fn entrypoint_without_accounts() {
    let input = InputBuilder::new(0).finish(&[1, 2, 3], PROGRAM);
    let invocation = entrypoint(&input).unwrap();
    assert!(invocation.accounts.is_empty());
    assert_eq!(invocation.data.as_ptr(), input[16..].as_ptr());
    assert_eq!(invocation.program_id.as_ptr(), input[19..].as_ptr());
    assert_eq!(*invocation.program_id, PROGRAM);
}
