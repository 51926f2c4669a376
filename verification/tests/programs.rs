use cpi_engine::error::ExecError;
use cpi_engine::frame::{AccountHandle, CallFrame};
use cpi_engine::instruction::{AccountMeta, Instruction};
use cpi_engine::key::Pubkey;
use cpi_engine::program::{
    initialize, run_program, Action, EntryPoint, FibStep, FibonacciLeft, FibonacciLeftAccounts, FibonacciRight,
    FibonacciRightAccounts, Initialize, MAX_STEPS,
};

fn key(b: u8) -> Pubkey {
    Pubkey::new([b; 32])
}

fn handle(b: u8, owner: u8, is_writable: bool) -> AccountHandle {
    AccountHandle { key: key(b), owner: key(owner), data: vec![b], is_writable, is_signer: false }
}

fn fib_frame(entry: EntryPoint, own: u8, peer: &AccountHandle, payload: Vec<u8>, returned: Vec<u64>) -> CallFrame {
    let peer = peer.clone();
    let rent = handle(3, 0, false);
    CallFrame {
        program_id: key(own),
        instruction: Instruction {
            program_id: key(own),
            accounts: vec![
                AccountMeta { key: peer.key, is_writable: peer.is_writable, is_signer: false },
                AccountMeta { key: rent.key, is_writable: false, is_signer: false },
            ],
            payload,
        },
        parent: None,
        depth: 0,
        root_id: 0,
        entry,
        handles: vec![peer, rent],
        returned,
        height: 0,
    }
}

fn ask(program: u8, own: u8, m: u64) -> Action {
    Action::Invoke(Instruction {
        program_id: key(program),
        accounts: vec![
            AccountMeta { key: key(own), is_writable: false, is_signer: false },
            AccountMeta { key: key(3), is_writable: false, is_signer: false },
        ],
        payload: m.to_le_bytes().to_vec(),
    })
}

#[test]
fn initialize_succeeds() {
    assert_eq!(initialize(&Initialize {}), Ok(()));
}

#[test]
fn hello_world_returns_at_once() {
    let mut f = fib_frame(EntryPoint::HelloWorld, 4, &handle(2, 2, true), vec![1, 2, 3], vec![]);
    assert_eq!(run_program(&f), Action::Return(0));
    f.handles = vec![];
    assert_eq!(run_program(&f), Action::Return(0));
}

#[test]
fn calculate_fibonacci_asks_for_the_two_numbers_before() {
    let left = FibonacciLeft {};
    assert_eq!(left.calculate_fibonacci(0, &vec![]), Ok(FibStep::Done(0)));
    assert_eq!(left.calculate_fibonacci(1, &vec![]), Ok(FibStep::Done(1)));
    assert_eq!(left.calculate_fibonacci(2, &vec![]), Ok(FibStep::Call(1)));
    assert_eq!(left.calculate_fibonacci(2, &vec![1]), Ok(FibStep::Call(0)));
    assert_eq!(left.calculate_fibonacci(2, &vec![1, 0]), Ok(FibStep::Done(1)));
    assert_eq!(left.calculate_fibonacci(10, &vec![]), Ok(FibStep::Call(9)));
    assert_eq!(left.calculate_fibonacci(10, &vec![34]), Ok(FibStep::Call(8)));
    assert_eq!(left.calculate_fibonacci(10, &vec![34, 21]), Ok(FibStep::Done(55)));
    assert_eq!(left.calculate_fibonacci(10, &vec![34, 21, 0]), Ok(FibStep::Done(55)));
    let right = FibonacciRight {};
    assert_eq!(right.calculate_fibonacci(1, &vec![]), Ok(FibStep::Done(1)));
    assert_eq!(right.calculate_fibonacci(7, &vec![]), Ok(FibStep::Call(6)));
    assert_eq!(right.calculate_fibonacci(7, &vec![8]), Ok(FibStep::Call(5)));
    assert_eq!(right.calculate_fibonacci(7, &vec![8, 5]), Ok(FibStep::Done(13)));
    assert_eq!(right.calculate_fibonacci(u64::MAX, &vec![]), Ok(FibStep::Call(u64::MAX - 1)));
}

#[test]
fn calculate_fibonacci_fails_on_overflow() {
    let left = FibonacciLeft {};
    assert_eq!(left.calculate_fibonacci(94, &vec![u64::MAX, 1]), Err(ExecError::ProgramLogicError));
    assert_eq!(left.calculate_fibonacci(94, &vec![u64::MAX, 0]), Ok(FibStep::Done(u64::MAX)));
    let right = FibonacciRight {};
    assert_eq!(
        right.calculate_fibonacci(94, &vec![12200160415121876738, 7540113804746346429]),
        Err(ExecError::ProgramLogicError)
    );
    assert_eq!(
        right.calculate_fibonacci(93, &vec![7540113804746346429, 4660046610375530309]),
        Ok(FibStep::Done(12200160415121876738))
    );
}

#[test]
fn accounts_are_bound_from_the_first_two_handles() {
    let handles = vec![handle(2, 2, true), handle(3, 0, false), handle(9, 9, false)];
    assert_eq!(
        FibonacciLeftAccounts::bind(&handles),
        Some(FibonacciLeftAccounts { right: &handle(2, 2, true), rent: &handle(3, 0, false) })
    );
    assert_eq!(
        FibonacciRightAccounts::bind(&handles),
        Some(FibonacciRightAccounts { left: &handle(2, 2, true), rent: &handle(3, 0, false) })
    );
    assert_eq!(FibonacciLeftAccounts::bind(&vec![handle(2, 2, true)]), None);
    assert_eq!(FibonacciRightAccounts::bind(&vec![]), None);
}

#[test]
fn the_schema_of_each_program() {
    assert_eq!(EntryPoint::HelloWorld.min_accounts(), 0);
    assert_eq!(EntryPoint::FibonacciLeft.min_accounts(), 2);
    assert_eq!(EntryPoint::FibonacciRight.min_accounts(), 2);
    assert_eq!(MAX_STEPS, 3);
}

#[test]
fn the_left_program_calls_the_owner_of_its_peer_account() {
    let five = 5u64.to_le_bytes().to_vec();
    let peer = &handle(2, 20, false);
    let f = fib_frame(EntryPoint::FibonacciLeft, 1, peer, five.clone(), vec![]);
    assert_eq!(run_program(&f), ask(20, 1, 4));
    let f = fib_frame(EntryPoint::FibonacciLeft, 1, peer, five.clone(), vec![3]);
    assert_eq!(run_program(&f), ask(20, 1, 3));
    let f = fib_frame(EntryPoint::FibonacciLeft, 1, peer, five.clone(), vec![3, 2]);
    assert_eq!(run_program(&f), Action::Return(5));
}

#[test]
fn the_right_program_calls_the_owner_of_its_peer_account() {
    let six = 6u64.to_le_bytes().to_vec();
    let peer = &handle(1, 10, false);
    let f = fib_frame(EntryPoint::FibonacciRight, 2, peer, six.clone(), vec![]);
    assert_eq!(run_program(&f), ask(10, 2, 5));
    let f = fib_frame(EntryPoint::FibonacciRight, 2, peer, six.clone(), vec![5]);
    assert_eq!(run_program(&f), ask(10, 2, 4));
    let f = fib_frame(EntryPoint::FibonacciRight, 2, peer, six.clone(), vec![5, 3]);
    assert_eq!(run_program(&f), Action::Return(8));
}

#[test]
fn a_writable_peer_account_gets_the_value_before_the_return() {
    let five = 5u64.to_le_bytes().to_vec();
    let peer = &handle(2, 2, true);
    let f = fib_frame(EntryPoint::FibonacciLeft, 1, peer, five.clone(), vec![3, 2]);
    assert_eq!(run_program(&f), Action::Write(key(2), vec![5, 0, 0, 0, 0, 0, 0, 0]));
    let f = fib_frame(EntryPoint::FibonacciLeft, 1, peer, five.clone(), vec![3, 2, 0]);
    assert_eq!(run_program(&f), Action::Return(5));
    let one = 1u64.to_le_bytes().to_vec();
    let f = fib_frame(EntryPoint::FibonacciRight, 1, peer, one.clone(), vec![]);
    assert_eq!(run_program(&f), Action::Write(key(2), vec![1, 0, 0, 0, 0, 0, 0, 0]));
    let f = fib_frame(EntryPoint::FibonacciRight, 1, peer, one.clone(), vec![0]);
    assert_eq!(run_program(&f), Action::Return(1));
    let big = 0x0102030405060708u64;
    let f = fib_frame(EntryPoint::FibonacciLeft, 1, peer, five, vec![big, 0]);
    assert_eq!(run_program(&f), Action::Write(key(2), vec![8, 7, 6, 5, 4, 3, 2, 1]));
}

#[test]
fn a_program_fails_on_input_that_it_cannot_read() {
    let peer = &handle(2, 2, false);
    let f = fib_frame(EntryPoint::FibonacciLeft, 1, peer, vec![5, 0, 0, 0], vec![]);
    assert_eq!(run_program(&f), Action::Fail);
    let f = fib_frame(EntryPoint::FibonacciRight, 1, peer, vec![0; 9], vec![]);
    assert_eq!(run_program(&f), Action::Fail);
    let mut f = fib_frame(EntryPoint::FibonacciLeft, 1, peer, 5u64.to_le_bytes().to_vec(), vec![]);
    f.handles.pop();
    assert_eq!(run_program(&f), Action::Fail);
    let f = fib_frame(EntryPoint::FibonacciLeft, 1, peer, 94u64.to_le_bytes().to_vec(), vec![u64::MAX, 1]);
    assert_eq!(run_program(&f), Action::Fail);
}

#[test]
fn resume_appends_the_value_and_raises_the_height() {
    let mut f = fib_frame(EntryPoint::FibonacciLeft, 1, &handle(2, 2, false), vec![], vec![]);
    f.resume(8, 2);
    assert_eq!(f.returned, vec![8]);
    assert_eq!(f.height, 2);
    f.resume(5, 1);
    assert_eq!(f.returned, vec![8, 5]);
    assert_eq!(f.height, 2);
    f.resume(0, 0);
    assert_eq!(f.returned, vec![8, 5, 0]);
    assert_eq!(f.height, 2);
}

#[test]
fn error_codes() {
    assert_eq!(ExecError::NotFound.code(), 1);
    assert_eq!(ExecError::MalformedInstruction.code(), 2);
    assert_eq!(ExecError::UnknownProgram.code(), 3);
    assert_eq!(ExecError::PermissionDenied.code(), 4);
    assert_eq!(ExecError::CallDepthExceeded.code(), 5);
    assert_eq!(ExecError::PrivilegeEscalation.code(), 6);
    assert_eq!(ExecError::ReentrantMutation.code(), 7);
    assert_eq!(ExecError::ProgramLogicError.code(), 8);
}
