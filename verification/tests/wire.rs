use cpi_engine::error::ExecError;
use cpi_engine::instruction::{
    copy_range, list_distinct_writable, list_holds_signer, list_holds_writable, same_bytes, AccountMeta,
    Instruction, MAX_ACCOUNTS, MAX_PAYLOAD_LEN,
};
use cpi_engine::key::Pubkey;

fn key(b: u8) -> Pubkey {
    Pubkey::new([b; 32])
}

fn meta(b: u8, is_writable: bool, is_signer: bool) -> AccountMeta {
    AccountMeta { key: key(b), is_writable, is_signer }
}

fn sample() -> Instruction {
    Instruction {
        program_id: key(7),
        accounts: vec![meta(9, true, false), meta(4, false, true)],
        payload: vec![1, 2, 3],
    }
}

fn sample_bytes() -> Vec<u8> {
    let mut raw = vec![7u8; 32];
    raw.push(2);
    raw.extend_from_slice(&[9u8; 32]);
    raw.push(1);
    raw.push(0);
    raw.extend_from_slice(&[4u8; 32]);
    raw.push(0);
    raw.push(1);
    raw.extend_from_slice(&[1, 2, 3]);
    raw
}

#[test]
fn key_equals_compares_all_bytes() {
    let a = key(5);
    let mut bytes = [5u8; 32];
    assert!(a.equals(&Pubkey::new(bytes)));
    bytes[31] = 6;
    assert!(!a.equals(&Pubkey::new(bytes)));
    bytes[31] = 5;
    bytes[0] = 0;
    assert!(!a.equals(&Pubkey::new(bytes)));
}

#[test]
fn key_read_and_write_are_inverse() {
    let mut raw = vec![0xaau8, 0xbb];
    let k = Pubkey::new([
        0, 1, 2, 3, 4, 5, 6, 7, 8, 9, 10, 11, 12, 13, 14, 15, 16, 17, 18, 19, 20, 21, 22, 23, 24, 25, 26, 27,
        28, 29, 30, 31,
    ]);
    k.write(&mut raw);
    assert_eq!(raw.len(), 34);
    assert_eq!(raw[0], 0xaa);
    assert_eq!(raw[1], 0xbb);
    assert_eq!(raw[2], 0);
    assert_eq!(raw[33], 31);
    assert_eq!(Pubkey::read(&raw, 2), k);
}

#[test]
fn encode_gives_the_wire_format() {
    assert_eq!(sample().encode(), Ok(sample_bytes()));
}

#[test]
fn decode_reads_the_wire_format() {
    assert_eq!(Instruction::decode(&sample_bytes()), Ok(sample()));
}

#[test]
fn decode_of_encode_is_identity() {
    let i = Instruction { program_id: key(200), accounts: vec![], payload: vec![] };
    let raw = i.encode().unwrap();
    assert_eq!(raw.len(), 33);
    assert_eq!(Instruction::decode(&raw), Ok(i));
    let j = Instruction {
        program_id: key(1),
        accounts: vec![meta(2, false, false), meta(2, true, true), meta(3, true, false)],
        payload: vec![0xff; MAX_PAYLOAD_LEN],
    };
    let raw = j.encode().unwrap();
    assert_eq!(raw.len(), 33 + 3 * 34 + MAX_PAYLOAD_LEN);
    assert_eq!(Instruction::decode(&raw), Ok(j));
}

#[test]
fn decode_refuses_short_input() {
    assert_eq!(Instruction::decode(&vec![]), Err(ExecError::MalformedInstruction));
    assert_eq!(Instruction::decode(&vec![0u8; 32]), Err(ExecError::MalformedInstruction));
    assert!(Instruction::decode(&vec![0u8; 33]).is_ok());
}

#[test]
fn decode_refuses_missing_references() {
    let mut raw = sample_bytes();
    raw.truncate(33 + 34 + 33);
    assert_eq!(Instruction::decode(&raw), Err(ExecError::MalformedInstruction));
    raw.push(1);
    let i = Instruction::decode(&raw).unwrap();
    assert_eq!(i.accounts.len(), 2);
    assert_eq!(i.payload, Vec::<u8>::new());
}

#[test]
fn decode_refuses_a_flag_that_is_no_bool() {
    let mut raw = sample_bytes();
    raw[33 + 32] = 2;
    assert_eq!(Instruction::decode(&raw), Err(ExecError::MalformedInstruction));
    let mut raw = sample_bytes();
    raw[33 + 34 + 33] = 0x80;
    assert_eq!(Instruction::decode(&raw), Err(ExecError::MalformedInstruction));
}

#[test]
fn decode_refuses_a_long_payload() {
    let mut raw = vec![0u8; 33];
    raw.extend_from_slice(&vec![1u8; MAX_PAYLOAD_LEN]);
    assert!(Instruction::decode(&raw).is_ok());
    raw.push(1);
    assert_eq!(Instruction::decode(&raw), Err(ExecError::MalformedInstruction));
}

#[test]
fn decode_refuses_duplicate_writable_accounts() {
    let i = Instruction {
        program_id: key(1),
        accounts: vec![meta(2, true, false), meta(3, false, false), meta(2, true, true)],
        payload: vec![],
    };
    assert_eq!(i.validate(), Err(ExecError::MalformedInstruction));
    assert_eq!(i.encode(), Err(ExecError::MalformedInstruction));
    let mut raw = vec![1u8; 32];
    raw.push(2);
    for _ in 0..2 {
        raw.extend_from_slice(&[2u8; 32]);
        raw.push(1);
        raw.push(0);
    }
    assert_eq!(Instruction::decode(&raw), Err(ExecError::MalformedInstruction));
    // the same account once writable and once read-only is no aliasing
    raw[33 + 34 + 32] = 0;
    assert!(Instruction::decode(&raw).is_ok());
}

#[test]
fn validate_bounds_the_account_list() {
    let mut i = Instruction { program_id: key(1), accounts: vec![], payload: vec![] };
    for _ in 0..MAX_ACCOUNTS {
        i.accounts.push(meta(2, false, false));
    }
    assert_eq!(i.validate(), Ok(()));
    i.accounts.push(meta(2, false, false));
    assert_eq!(i.validate(), Err(ExecError::MalformedInstruction));
    assert_eq!(i.encode(), Err(ExecError::MalformedInstruction));
}

#[test]
fn instruction_access_queries() {
    let i = sample();
    assert!(i.holds_writable(&key(9)));
    assert!(!i.holds_writable(&key(4)));
    assert!(!i.holds_writable(&key(5)));
    assert!(i.holds_signer(&key(4)));
    assert!(!i.holds_signer(&key(9)));
    assert!(list_holds_writable(&i.accounts, &key(9)));
    assert!(!list_holds_signer(&i.accounts, &key(9)));
    assert!(list_distinct_writable(&i.accounts));
    assert!(!list_distinct_writable(&vec![meta(1, true, false), meta(1, true, false)]));
}

#[test]
fn instruction_equals_and_duplicate() {
    let i = sample();
    let j = i.duplicate();
    assert_eq!(i, j);
    assert!(i.equals(&j));
    let mut k = i.duplicate();
    k.payload.push(0);
    assert!(!i.equals(&k));
    let mut k = i.duplicate();
    k.accounts[1].is_signer = false;
    assert!(!i.equals(&k));
    let mut k = i.duplicate();
    k.program_id = key(8);
    assert!(!i.equals(&k));
    assert!(meta(1, true, false).equals(&meta(1, true, false)));
    assert!(!meta(1, true, false).equals(&meta(1, false, false)));
}

#[test]
fn byte_helpers() {
    let src = vec![10u8, 20, 30, 40];
    assert_eq!(copy_range(&src, 1, 3), vec![20, 30]);
    assert_eq!(copy_range(&src, 2, 2), Vec::<u8>::new());
    assert!(same_bytes(&src, &vec![10, 20, 30, 40]));
    assert!(!same_bytes(&src, &vec![10, 20, 30]));
    assert!(!same_bytes(&src, &vec![10, 20, 30, 41]));
}

#[test]
fn error_names() {
    assert_eq!(ExecError::NotFound.name(), "NotFound");
    assert_eq!(ExecError::MalformedInstruction.name(), "MalformedInstruction");
    assert_eq!(ExecError::UnknownProgram.name(), "UnknownProgram");
    assert_eq!(ExecError::PermissionDenied.name(), "PermissionDenied");
    assert_eq!(ExecError::CallDepthExceeded.name(), "CallDepthExceeded");
    assert_eq!(ExecError::PrivilegeEscalation.name(), "PrivilegeEscalation");
    assert_eq!(ExecError::ReentrantMutation.name(), "ReentrantMutation");
    assert_eq!(ExecError::ProgramLogicError.name(), "ProgramLogicError");
}
