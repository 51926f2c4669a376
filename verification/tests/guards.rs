use cpi_engine::account::{Account, AccountStore, StagedWrite};
use cpi_engine::dispatcher::Dispatcher;
use cpi_engine::error::ExecError;
use cpi_engine::frame::{AccountHandle, CallFrame};
use cpi_engine::instruction::{AccountMeta, Instruction};
use cpi_engine::key::Pubkey;
use cpi_engine::program::EntryPoint;
use cpi_engine::registry::ProgramRegistry;

fn key(b: u8) -> Pubkey {
    Pubkey::new([b; 32])
}

fn meta(b: u8, is_writable: bool, is_signer: bool) -> AccountMeta {
    AccountMeta { key: key(b), is_writable, is_signer }
}

fn call(program: u8, accounts: Vec<AccountMeta>) -> Instruction {
    Instruction { program_id: key(program), accounts, payload: vec![] }
}

fn frame(depth: usize, accounts: Vec<AccountMeta>) -> CallFrame {
    CallFrame {
        program_id: key(100),
        instruction: call(100, accounts),
        parent: if depth == 0 { None } else { Some(depth - 1) },
        depth,
        root_id: 1,
        entry: EntryPoint::HelloWorld,
        handles: vec![],
        returned: vec![],
        height: 0,
    }
}

fn world() -> (ProgramRegistry, AccountStore) {
    let mut registry = ProgramRegistry::new();
    assert!(registry.register(key(1), EntryPoint::FibonacciLeft));
    assert!(registry.register(key(2), EntryPoint::FibonacciRight));
    assert!(registry.register(key(4), EntryPoint::HelloWorld));
    let mut store = AccountStore::new();
    assert!(store.provision(Account { key: key(1), owner: key(1), data: vec![] }));
    assert!(store.provision(Account { key: key(2), owner: key(2), data: vec![] }));
    assert!(store.provision(Account { key: key(3), owner: key(0), data: vec![7] }));
    (registry, store)
}

#[test]
fn a_call_within_the_callers_privileges_passes() {
    let d = Dispatcher::new(4, false);
    let stack = vec![frame(0, vec![meta(1, true, true), meta(2, false, false)])];
    assert_eq!(d.check_call(&stack, &call(5, vec![])), Ok(()));
    assert_eq!(d.check_call(&stack, &call(5, vec![meta(1, false, true), meta(2, false, false)])), Ok(()));
    // read-only access to an account that the caller does not hold is no privilege
    assert_eq!(d.check_call(&stack, &call(5, vec![meta(9, false, false)])), Ok(()));
}

#[test]
fn a_frame_at_the_limit_calls_nothing() {
    let d = Dispatcher::new(2, false);
    let stack = vec![frame(0, vec![]), frame(1, vec![]), frame(2, vec![])];
    assert_eq!(d.check_call(&stack, &call(5, vec![])), Err(ExecError::CallDepthExceeded));
    // the depth limit is tried first
    assert_eq!(d.check_call(&stack, &call(5, vec![meta(1, true, true)])), Err(ExecError::CallDepthExceeded));
    let below = vec![frame(0, vec![]), frame(1, vec![])];
    assert_eq!(d.check_call(&below, &call(5, vec![])), Ok(()));
    let zero = Dispatcher::new(0, false);
    assert_eq!(zero.check_call(&vec![frame(0, vec![])], &call(5, vec![])), Err(ExecError::CallDepthExceeded));
}

#[test]
fn write_access_to_a_read_only_account_of_the_caller_is_escalation() {
    let d = Dispatcher::new(4, false);
    let stack = vec![frame(0, vec![meta(1, false, false)])];
    assert_eq!(d.check_call(&stack, &call(5, vec![meta(1, true, false)])), Err(ExecError::PrivilegeEscalation));
    // also for an account that the caller does not hold at all
    assert_eq!(d.check_call(&stack, &call(5, vec![meta(2, true, false)])), Err(ExecError::PrivilegeEscalation));
    // and behind references that are in order
    assert_eq!(
        d.check_call(&stack, &call(5, vec![meta(1, false, false), meta(1, true, false)])),
        Err(ExecError::PrivilegeEscalation)
    );
}

#[test]
fn signer_access_that_the_caller_lacks_is_escalation() {
    let d = Dispatcher::new(4, false);
    let stack = vec![frame(0, vec![meta(1, true, false), meta(2, false, true)])];
    assert_eq!(d.check_call(&stack, &call(5, vec![meta(1, false, true)])), Err(ExecError::PrivilegeEscalation));
    assert_eq!(d.check_call(&stack, &call(5, vec![meta(2, false, true)])), Ok(()));
}

#[test]
fn nested_writers_of_one_account_are_reentrant() {
    let d = Dispatcher::new(4, false);
    let stack = vec![frame(0, vec![meta(1, true, false)])];
    assert_eq!(d.check_call(&stack, &call(5, vec![meta(1, true, false)])), Err(ExecError::ReentrantMutation));
    let deeper = vec![frame(0, vec![meta(1, true, false)]), frame(1, vec![meta(1, true, false)])];
    assert_eq!(d.check_call(&deeper, &call(5, vec![meta(1, true, false)])), Err(ExecError::ReentrantMutation));
}

#[test]
fn escalation_is_tried_before_reentrancy() {
    let d = Dispatcher::new(4, false);
    // the top-level frame holds the account writable, the caller read-only
    let stack = vec![frame(0, vec![meta(1, true, false)]), frame(1, vec![meta(1, false, false)])];
    assert_eq!(d.check_call(&stack, &call(5, vec![meta(1, true, false)])), Err(ExecError::PrivilegeEscalation));
    // one reference re-enters, another escalates
    let stack = vec![frame(0, vec![meta(1, true, false)])];
    assert_eq!(
        d.check_call(&stack, &call(5, vec![meta(1, true, false), meta(2, true, false)])),
        Err(ExecError::PrivilegeEscalation)
    );
}

#[test]
fn open_top_validates_resolves_and_binds() {
    let (registry, store) = world();
    let d = Dispatcher::new(4, false);
    let instr = Instruction {
        program_id: key(1),
        accounts: vec![meta(2, true, false), meta(3, false, true)],
        payload: vec![5, 0, 0, 0, 0, 0, 0, 0],
    };
    let top = d.open_top(&registry, &store, instr.clone(), 9).unwrap();
    assert_eq!(
        top,
        CallFrame {
            program_id: key(1),
            instruction: instr,
            parent: None,
            depth: 0,
            root_id: 9,
            entry: EntryPoint::FibonacciLeft,
            handles: vec![
                AccountHandle { key: key(2), owner: key(2), data: vec![], is_writable: true, is_signer: false },
                AccountHandle { key: key(3), owner: key(0), data: vec![7], is_writable: false, is_signer: true },
            ],
            returned: vec![],
            height: 0,
        }
    );
}

#[test]
fn open_top_gives_each_reason_in_its_order() {
    let (registry, store) = world();
    let d = Dispatcher::new(4, false);
    // two writable references to one account, for a program that is not deployed
    let twice = call(77, vec![meta(2, true, false), meta(2, true, false)]);
    assert_eq!(d.open_top(&registry, &store, twice, 0), Err(ExecError::MalformedInstruction));
    // a program that is not deployed, with an account that is not in the store
    assert_eq!(d.open_top(&registry, &store, call(77, vec![meta(50, false, false)]), 0), Err(ExecError::UnknownProgram));
    // fewer references than the schema asks for, one of them missing
    assert_eq!(
        d.open_top(&registry, &store, call(1, vec![meta(50, false, false)]), 0),
        Err(ExecError::MalformedInstruction)
    );
    // an account that is not in the store
    assert_eq!(
        d.open_top(&registry, &store, call(1, vec![meta(2, false, false), meta(50, false, false)]), 0),
        Err(ExecError::NotFound)
    );
    assert_eq!(d.open_top(&registry, &store, call(4, vec![meta(50, false, false)]), 0), Err(ExecError::NotFound));
    assert!(d.open_top(&registry, &store, call(4, vec![]), 0).is_ok());
}

#[test]
fn bind_takes_the_entry_point_as_given() {
    let (_, store) = world();
    let d = Dispatcher::new(4, false);
    let f = d.bind(&store, EntryPoint::HelloWorld, call(77, vec![meta(3, false, false)]), Some(2), 3, 8).unwrap();
    assert_eq!(f.program_id, key(77));
    assert_eq!(f.parent, Some(2));
    assert_eq!(f.depth, 3);
    assert_eq!(f.root_id, 8);
    assert_eq!(
        f.handles,
        vec![AccountHandle { key: key(3), owner: key(0), data: vec![7], is_writable: false, is_signer: false }]
    );
    assert_eq!(
        d.bind(&store, EntryPoint::FibonacciRight, call(77, vec![meta(3, false, false)]), None, 0, 8),
        Err(ExecError::MalformedInstruction)
    );
}

#[test]
fn dispatch_stages_and_leaves_the_commit_to_its_caller() {
    let (registry, mut store) = world();
    let d = Dispatcher::new(4, false);
    let instr = Instruction {
        program_id: key(1),
        accounts: vec![meta(2, true, false), meta(3, false, false)],
        payload: vec![4, 0, 0, 0, 0, 0, 0, 0],
    };
    let top = d.open_top(&registry, &store, instr, 9).unwrap();
    assert_eq!(d.dispatch(&registry, &mut store, top), Ok(3));
    assert_eq!(store.pending(9), vec![StagedWrite { frame_id: 9, key: key(2), data: vec![3, 0, 0, 0, 0, 0, 0, 0] }]);
    assert_eq!(store.get(&key(2)), Ok(&Account { key: key(2), owner: key(2), data: vec![] }));
    store.discard(9);
    assert_eq!(store.staged_len(), 0);
    assert_eq!(store.get(&key(2)), Ok(&Account { key: key(2), owner: key(2), data: vec![] }));
}

#[test]
fn dispatch_fails_where_the_tree_is_too_deep() {
    let (registry, mut store) = world();
    let instr = Instruction {
        program_id: key(2),
        accounts: vec![meta(1, false, false), meta(3, false, false)],
        payload: vec![3, 0, 0, 0, 0, 0, 0, 0],
    };
    let shallow = Dispatcher::new(1, false);
    let top = shallow.open_top(&registry, &store, instr.clone(), 9).unwrap();
    assert_eq!(shallow.dispatch(&registry, &mut store, top), Err(ExecError::CallDepthExceeded));
    let enough = Dispatcher::new(2, false);
    let top = enough.open_top(&registry, &store, instr, 9).unwrap();
    assert_eq!(enough.dispatch(&registry, &mut store, top), Ok(2));
    assert_eq!(store.staged_len(), 0);
}

#[test]
fn the_parent_reference_is_for_lookup() {
    let stack = vec![frame(0, vec![meta(1, true, false)]), frame(1, vec![]), frame(2, vec![])];
    assert_eq!(stack[0].caller(&stack), None);
    assert_eq!(stack[1].caller(&stack), Some(&stack[0]));
    assert_eq!(stack[2].caller(&stack), Some(&stack[1]));
    assert_eq!(frame(9, vec![]).caller(&stack), None);
    assert_eq!(frame(3, vec![]).caller(&stack), Some(&stack[2]));
}

#[test]
fn a_handle_shows_the_committed_payload() {
    let (registry, mut store) = world();
    let d = Dispatcher::new(4, false);
    let writer = d.open_top(&registry, &store, call(4, vec![meta(3, true, false)]), 5).unwrap();
    assert_eq!(store.stage_write(&key(3), vec![8, 8], &writer), Ok(()));
    let reader = d.open_top(&registry, &store, call(4, vec![meta(3, false, false)]), 6).unwrap();
    assert_eq!(reader.handles[0].data, vec![7]);
    store.commit(5);
    let later = d.open_top(&registry, &store, call(4, vec![meta(3, false, false)]), 7).unwrap();
    assert_eq!(later.handles[0].data, vec![8, 8]);
    assert_eq!(reader.handles[0].data, vec![7]);
}
