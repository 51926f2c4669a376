use cpi_engine::account::{Account, AccountStore, StagedWrite};
use cpi_engine::error::ExecError;
use cpi_engine::frame::CallFrame;
use cpi_engine::instruction::{AccountMeta, Instruction};
use cpi_engine::key::Pubkey;
use cpi_engine::program::EntryPoint;
use cpi_engine::registry::ProgramRegistry;

fn key(b: u8) -> Pubkey {
    Pubkey::new([b; 32])
}

fn account(b: u8, owner: u8, data: Vec<u8>) -> Account {
    Account { key: key(b), owner: key(owner), data }
}

fn frame(root_id: u64, accounts: Vec<AccountMeta>) -> CallFrame {
    CallFrame {
        program_id: key(100),
        instruction: Instruction { program_id: key(100), accounts, payload: vec![] },
        parent: None,
        depth: 0,
        root_id,
        entry: EntryPoint::HelloWorld,
        handles: vec![],
        returned: vec![],
        height: 0,
    }
}

fn writer(root_id: u64, b: u8) -> CallFrame {
    frame(root_id, vec![AccountMeta { key: key(b), is_writable: true, is_signer: false }])
}

fn store() -> AccountStore {
    let mut s = AccountStore::new();
    assert!(s.provision(account(1, 50, vec![1, 1])));
    assert!(s.provision(account(2, 51, vec![2])));
    assert!(s.provision(account(3, 52, vec![])));
    s
}

#[test]
fn get_finds_accounts_by_key() {
    let s = store();
    assert_eq!(s.len(), 3);
    assert_eq!(s.get(&key(2)), Ok(&account(2, 51, vec![2])));
    assert_eq!(s.get(&key(3)), Ok(&account(3, 52, vec![])));
    assert_eq!(s.get(&key(4)), Err(ExecError::NotFound));
    assert_eq!(AccountStore::new().get(&key(1)), Err(ExecError::NotFound));
}

#[test]
fn provision_refuses_a_taken_key() {
    let mut s = store();
    assert!(!s.provision(account(2, 99, vec![9, 9, 9])));
    assert_eq!(s.len(), 3);
    assert_eq!(s.get(&key(2)), Ok(&account(2, 51, vec![2])));
}

#[test]
fn stage_write_needs_write_access() {
    let mut s = store();
    let reader = frame(7, vec![AccountMeta { key: key(1), is_writable: false, is_signer: true }]);
    assert_eq!(s.stage_write(&key(1), vec![5], &reader), Err(ExecError::PermissionDenied));
    assert_eq!(s.stage_write(&key(2), vec![5], &writer(7, 1)), Err(ExecError::PermissionDenied));
    assert_eq!(s.staged_len(), 0);
    assert_eq!(s.stage_write(&key(1), vec![5], &writer(7, 1)), Ok(()));
    assert_eq!(s.staged_len(), 1);
    assert_eq!(s.pending(7), vec![StagedWrite { frame_id: 7, key: key(1), data: vec![5] }]);
}

#[test]
fn staged_writes_do_not_show_before_commit() {
    let mut s = store();
    assert_eq!(s.stage_write(&key(1), vec![5, 6, 7], &writer(7, 1)), Ok(()));
    assert_eq!(s.get(&key(1)), Ok(&account(1, 50, vec![1, 1])));
    s.commit(7);
    assert_eq!(s.get(&key(1)), Ok(&account(1, 50, vec![5, 6, 7])));
    assert_eq!(s.get(&key(2)), Ok(&account(2, 51, vec![2])));
    assert_eq!(s.staged_len(), 0);
}

#[test]
fn commit_applies_writes_in_order_and_only_its_own() {
    let mut s = store();
    assert_eq!(s.stage_write(&key(1), vec![10], &writer(7, 1)), Ok(()));
    assert_eq!(s.stage_write(&key(2), vec![20], &writer(8, 2)), Ok(()));
    assert_eq!(s.stage_write(&key(1), vec![11], &writer(7, 1)), Ok(()));
    assert_eq!(s.stage_write(&key(3), vec![30], &writer(7, 3)), Ok(()));
    assert_eq!(
        s.pending(7),
        vec![
            StagedWrite { frame_id: 7, key: key(1), data: vec![10] },
            StagedWrite { frame_id: 7, key: key(1), data: vec![11] },
            StagedWrite { frame_id: 7, key: key(3), data: vec![30] },
        ]
    );
    s.commit(7);
    assert_eq!(s.get(&key(1)), Ok(&account(1, 50, vec![11])));
    assert_eq!(s.get(&key(2)), Ok(&account(2, 51, vec![2])));
    assert_eq!(s.get(&key(3)), Ok(&account(3, 52, vec![30])));
    assert_eq!(s.staged_len(), 1);
    assert_eq!(s.pending(8), vec![StagedWrite { frame_id: 8, key: key(2), data: vec![20] }]);
    s.commit(8);
    assert_eq!(s.get(&key(2)), Ok(&account(2, 51, vec![20])));
    assert_eq!(s.staged_len(), 0);
}

#[test]
fn commit_ignores_a_write_to_a_missing_account() {
    let mut s = store();
    assert_eq!(s.stage_write(&key(9), vec![1], &writer(7, 9)), Ok(()));
    s.commit(7);
    assert_eq!(s.len(), 3);
    assert_eq!(s.get(&key(9)), Err(ExecError::NotFound));
    assert_eq!(s.get(&key(1)), Ok(&account(1, 50, vec![1, 1])));
    assert_eq!(s.staged_len(), 0);
}

#[test]
fn discard_restores_the_state_before_the_call() {
    let mut s = store();
    assert_eq!(s.stage_write(&key(2), vec![20], &writer(8, 2)), Ok(()));
    let before = format!("{:?}", s);
    assert_eq!(s.stage_write(&key(1), vec![10], &writer(7, 1)), Ok(()));
    assert_eq!(s.stage_write(&key(3), vec![30], &writer(7, 3)), Ok(()));
    assert_ne!(format!("{:?}", s), before);
    s.discard(7);
    assert_eq!(format!("{:?}", s), before);
    assert_eq!(s.pending(7), vec![]);
    assert_eq!(s.staged_len(), 1);
}

#[test]
fn discarding_twice_is_a_no_op() {
    let mut s = store();
    assert_eq!(s.stage_write(&key(1), vec![10], &writer(7, 1)), Ok(()));
    assert_eq!(s.stage_write(&key(2), vec![20], &writer(8, 2)), Ok(()));
    s.discard(7);
    let once = format!("{:?}", s);
    s.discard(7);
    assert_eq!(format!("{:?}", s), once);
    s.discard(12345);
    assert_eq!(format!("{:?}", s), once);
    s.commit(7);
    assert_eq!(format!("{:?}", s), once);
    assert_eq!(s.get(&key(1)), Ok(&account(1, 50, vec![1, 1])));
}

#[test]
fn registry_is_append_only() {
    let mut r = ProgramRegistry::new();
    assert_eq!(r.resolve(&key(1)), Err(ExecError::UnknownProgram));
    assert!(r.register(key(1), EntryPoint::FibonacciLeft));
    assert!(r.register(key(2), EntryPoint::FibonacciRight));
    assert!(!r.register(key(1), EntryPoint::HelloWorld));
    assert_eq!(r.resolve(&key(1)), Ok(EntryPoint::FibonacciLeft));
    assert_eq!(r.resolve(&key(2)), Ok(EntryPoint::FibonacciRight));
    assert_eq!(r.resolve(&key(3)), Err(ExecError::UnknownProgram));
    assert!(r.register(key(3), EntryPoint::HelloWorld));
    assert_eq!(r.resolve(&key(3)), Ok(EntryPoint::HelloWorld));
    assert_eq!(r.resolve(&key(1)), Ok(EntryPoint::FibonacciLeft));
}
