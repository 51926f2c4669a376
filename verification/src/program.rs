use vstd::prelude::*;
use vstd::bytes::{spec_u64_from_le_bytes, spec_u64_to_le_bytes, u64_from_le_bytes, u64_to_le_bytes};
use crate::error::ExecError;
use crate::frame::{AccountHandle, CallFrame, HandleView};
use crate::instruction::{AccountMeta, Instruction, InstructionView};
use crate::key::Pubkey;

verus! {

/// The programs that can be deployed, as tagged variants: the registry maps a
/// program identifier to one of them.
#[derive(Clone, Copy, Debug, PartialEq, Eq, Structural)]
pub enum EntryPoint {
    /// The program whose one instruction does nothing.
    HelloWorld,
    /// The left half of the two-program Fibonacci calculator.
    FibonacciLeft,
    /// The right half of the two-program Fibonacci calculator.
    FibonacciRight,
}

/// What a program asks of the dispatcher when it is run or resumed.
#[derive(Clone, Debug, PartialEq, Eq)]
pub enum Action {
    /// The frame is done, with this value.
    Return(u64),
    /// Call another program and resume with the value that it returns.
    Invoke(Instruction),
    /// Stage these bytes for the account with this key and resume.
    Write(Pubkey, Vec<u8>),
    /// The program gives up.
    Fail,
}

/// The mathematical value of an [`Action`].
pub enum ActionView {
    Return(u64),
    Invoke(InstructionView),
    Write(Pubkey, Seq<u8>),
    Fail,
}

impl View for Action {
    type V = ActionView;

    open spec fn view(&self) -> ActionView {
        match self {
            Action::Return(v) => ActionView::Return(*v),
            Action::Invoke(i) => ActionView::Invoke(i@),
            Action::Write(k, d) => ActionView::Write(*k, d@),
            Action::Fail => ActionView::Fail,
        }
    }
}

/// No program asks to be resumed more often than this in one frame.
pub const MAX_STEPS: usize = 3;

/// Fewest account references that an instruction for the program must carry.
pub open spec fn min_accounts(entry: EntryPoint) -> nat {
    match entry {
        EntryPoint::HelloWorld => 0,
        EntryPoint::FibonacciLeft => 2,
        EntryPoint::FibonacciRight => 2,
    }
}

impl EntryPoint {
    /// Fewest account references that an instruction for the program must
    /// carry: its declared schema.
    pub fn min_accounts(&self) -> (n: usize)
        ensures
            n == min_accounts(*self),
    {
        match self {
            EntryPoint::HelloWorld => 0,
            EntryPoint::FibonacciLeft => 2,
            EntryPoint::FibonacciRight => 2,
        }
    }
}

/// The accounts of the instruction that does nothing: none.
#[derive(Clone, Copy, Debug, PartialEq, Eq)]
pub struct Initialize {}

/// The one instruction of the hello-world program: it succeeds and changes
/// nothing.
pub fn initialize(accounts: &Initialize) -> (r: Result<(), ExecError>)
    ensures
        r is Ok,
{
    Ok(())
}

/// The Fibonacci numbers: 0, 1, 1, 2, 3, 5, ...
pub open spec fn fib(n: nat) -> nat
    decreases n,
{
    if n <= 1 {
        n
    } else {
        fib((n - 1) as nat) + fib((n - 2) as nat)
    }
}

/// The next move of a Fibonacci calculation.
#[derive(Clone, Copy, Debug, PartialEq, Eq, Structural)]
pub enum FibStep {
    /// Ask the other program for the Fibonacci number of this argument.
    Call(u64),
    /// The calculation is done, with this value.
    Done(u64),
}

/// The next move of the calculation for `n`, where `returned` holds the values
/// that the calls made so far for `n - 1` and `n - 2` have given, in that
/// order. The sum that does not fit in 64 bits is a `ProgramLogicError`.
pub open spec fn fib_step(n: u64, returned: Seq<u64>) -> Result<FibStep, ExecError> {
    if n <= 1 {
        Ok(FibStep::Done(n))
    } else if returned.len() == 0 {
        Ok(FibStep::Call((n - 1) as u64))
    } else if returned.len() == 1 {
        Ok(FibStep::Call((n - 2) as u64))
    } else if returned[0] + returned[1] > u64::MAX {
        Err(ExecError::ProgramLogicError)
    } else {
        Ok(FibStep::Done((returned[0] + returned[1]) as u64))
    }
}

/// A calculation that is resumed with the Fibonacci numbers that it asked for
/// ends with the Fibonacci number of its argument, if that fits in 64 bits.
pub proof fn lemma_fib_step_done(n: u64, returned: Seq<u64>)
    requires
        fib(n as nat) <= u64::MAX,
        n >= 2 ==> returned.len() >= 2 && returned[0] == fib((n - 1) as nat) && returned[1] == fib(
            (n - 2) as nat,
        ),
    ensures
        fib_step(n, returned) == Ok::<FibStep, ExecError>(FibStep::Done(fib(n as nat) as u64)),
{
}

fn fibonacci_next(n: u64, returned: &Vec<u64>) -> (step: Result<FibStep, ExecError>)
    ensures
        step == fib_step(n, returned@),
{
    if n <= 1 {
        Ok(FibStep::Done(n))
    } else if returned.len() == 0 {
        Ok(FibStep::Call(n - 1))
    } else if returned.len() == 1 {
        Ok(FibStep::Call(n - 2))
    } else {
        match returned[0].checked_add(returned[1]) {
            Some(sum) => Ok(FibStep::Done(sum)),
            None => Err(ExecError::ProgramLogicError),
        }
    }
}

/// The state of the left program of the calculator: it holds nothing.
#[derive(Clone, Copy, Debug, PartialEq, Eq)]
pub struct FibonacciLeft {}

/// The state of the right program of the calculator: it holds nothing.
#[derive(Clone, Copy, Debug, PartialEq, Eq)]
pub struct FibonacciRight {}

/// The accounts of an instruction for the left program: the account of the
/// right program, which it calls, and the rent account.
#[derive(Clone, Copy, Debug, PartialEq, Eq)]
pub struct FibonacciLeftAccounts<'info> {
    pub right: &'info AccountHandle,
    pub rent: &'info AccountHandle,
}

/// The accounts of an instruction for the right program: the account of the
/// left program, which it calls, and the rent account.
#[derive(Clone, Copy, Debug, PartialEq, Eq)]
pub struct FibonacciRightAccounts<'info> {
    pub left: &'info AccountHandle,
    pub rent: &'info AccountHandle,
}

impl FibonacciLeft {
    /// The next move of the calculation of the `n`-th Fibonacci number. The
    /// left program computes nothing beyond 0 and 1 itself: it asks the right
    /// program for the two numbers before, one call at a time, and adds them.
    pub fn calculate_fibonacci(&self, n: u64, returned: &Vec<u64>) -> (step: Result<FibStep, ExecError>)
        ensures
            step == fib_step(n, returned@),
    {
        fibonacci_next(n, returned)
    }
}

impl FibonacciRight {
    /// The next move of the calculation of the `n`-th Fibonacci number. The
    /// right program computes nothing beyond 0 and 1 itself: it asks the left
    /// program for the two numbers before, one call at a time, and adds them.
    pub fn calculate_fibonacci(&self, n: u64, returned: &Vec<u64>) -> (step: Result<FibStep, ExecError>)
        ensures
            step == fib_step(n, returned@),
    {
        fibonacci_next(n, returned)
    }
}

impl<'info> FibonacciLeftAccounts<'info> {
    /// The accounts of the left program, from the handles of a frame: the
    /// first two, or nothing where there are fewer.
    pub fn bind(handles: &'info Vec<AccountHandle>) -> (r: Option<FibonacciLeftAccounts<'info>>)
        ensures
            match r {
                Some(accounts) => handles@.len() >= 2 && *accounts.right == handles@[0] && *accounts.rent
                    == handles@[1],
                None => handles@.len() < 2,
            },
    {
        if handles.len() >= 2 {
            Some(FibonacciLeftAccounts { right: &handles[0], rent: &handles[1] })
        } else {
            None
        }
    }
}

impl<'info> FibonacciRightAccounts<'info> {
    /// The accounts of the right program, from the handles of a frame: the
    /// first two, or nothing where there are fewer.
    pub fn bind(handles: &'info Vec<AccountHandle>) -> (r: Option<FibonacciRightAccounts<'info>>)
        ensures
            match r {
                Some(accounts) => handles@.len() >= 2 && *accounts.left == handles@[0] && *accounts.rent
                    == handles@[1],
                None => handles@.len() < 2,
            },
    {
        if handles.len() >= 2 {
            Some(FibonacciRightAccounts { left: &handles[0], rent: &handles[1] })
        } else {
            None
        }
    }
}

/// The instruction by which one half of the calculator asks the other for the
/// Fibonacci number of `m`: it goes to the program that owns the peer account,
/// names the caller's own account and the rent account, both read-only, and
/// carries `m` as eight bytes, the lowest first.
pub open spec fn peer_call(own: Pubkey, peer: HandleView, rent: HandleView, m: u64) -> InstructionView {
    InstructionView {
        program_id: peer.owner,
        accounts: seq![
            AccountMeta { key: own, is_writable: false, is_signer: false },
            AccountMeta { key: rent.key, is_writable: false, is_signer: false },
        ],
        payload: spec_u64_to_le_bytes(m),
    }
}

/// What either half of the calculator does when it is run or resumed. The
/// payload is the argument `n`, as eight bytes, the lowest first. The value is
/// computed as [`fib_step`] says; once it is known, it is first written to the
/// peer account, where that was handed over writable, and then returned.
pub open spec fn fibonacci_action(
    own: Pubkey,
    handles: Seq<HandleView>,
    payload: Seq<u8>,
    returned: Seq<u64>,
) -> ActionView {
    if handles.len() < 2 || payload.len() != 8 {
        ActionView::Fail
    } else {
        let n = spec_u64_from_le_bytes(payload);
        let calls: nat = if n <= 1 { 0 } else { 2 };
        match fib_step(n, returned) {
            Err(_) => ActionView::Fail,
            Ok(FibStep::Call(m)) => ActionView::Invoke(peer_call(own, handles[0], handles[1], m)),
            Ok(FibStep::Done(v)) => if handles[0].is_writable && returned.len() == calls {
                ActionView::Write(handles[0].key, spec_u64_to_le_bytes(v))
            } else {
                ActionView::Return(v)
            },
        }
    }
}

/// What the program behind `entry` does in a frame that runs as `own`, holds
/// `handles`, was opened with `payload` and was resumed with `returned` so far.
pub open spec fn program_action(
    entry: EntryPoint,
    own: Pubkey,
    handles: Seq<HandleView>,
    payload: Seq<u8>,
    returned: Seq<u64>,
) -> ActionView {
    match entry {
        EntryPoint::HelloWorld => ActionView::Return(0),
        EntryPoint::FibonacciLeft => fibonacci_action(own, handles, payload, returned),
        EntryPoint::FibonacciRight => fibonacci_action(own, handles, payload, returned),
    }
}

/// What a frame does next.
pub open spec fn frame_action(f: crate::frame::FrameView) -> ActionView {
    program_action(f.entry, f.program_id, f.handles, f.instruction.payload, f.returned)
}

/// A frame that was resumed `MAX_STEPS` times asks for nothing more: it
/// returns or fails.
pub proof fn lemma_action_bounded(
    entry: EntryPoint,
    own: Pubkey,
    handles: Seq<HandleView>,
    payload: Seq<u8>,
    returned: Seq<u64>,
)
    requires
        returned.len() >= MAX_STEPS,
    ensures
        program_action(entry, own, handles, payload, returned) is Return || program_action(
            entry,
            own,
            handles,
            payload,
            returned,
        ) is Fail,
{
}

/// No program asks for a nested call with write or signer access.
pub proof fn lemma_invoke_is_plain(
    entry: EntryPoint,
    own: Pubkey,
    handles: Seq<HandleView>,
    payload: Seq<u8>,
    returned: Seq<u64>,
)
    ensures
        match program_action(entry, own, handles, payload, returned) {
            ActionView::Invoke(i) => forall|k: int|
                0 <= k < i.accounts.len() ==> !(#[trigger] i.accounts[k]).is_writable && !i.accounts[k].is_signer,
            _ => true,
        },
{
}

fn build_peer_call(own: &Pubkey, peer: &AccountHandle, rent: &AccountHandle, m: u64) -> (i: Instruction)
    ensures
        i@ == peer_call(*own, peer@, rent@, m),
{
    let mut accounts: Vec<AccountMeta> = Vec::new();
    accounts.push(AccountMeta { key: *own, is_writable: false, is_signer: false });
    accounts.push(AccountMeta { key: rent.key, is_writable: false, is_signer: false });
    let payload = u64_to_le_bytes(m);
    let i = Instruction { program_id: peer.owner, accounts, payload };
    assert(i@.accounts =~= peer_call(*own, peer@, rent@, m).accounts);
    i
}

fn finish(peer: &AccountHandle, fresh: bool, v: u64) -> (a: Action)
    ensures
        a@ == if peer.is_writable && fresh {
            ActionView::Write(peer.key, spec_u64_to_le_bytes(v))
        } else {
            ActionView::Return(v)
        },
{
    if peer.is_writable && fresh {
        Action::Write(peer.key, u64_to_le_bytes(v))
    } else {
        Action::Return(v)
    }
}

fn read_argument(payload: &Vec<u8>) -> (r: Option<u64>)
    ensures
        r == if payload@.len() == 8 {
            Some(spec_u64_from_le_bytes(payload@))
        } else {
            None
        },
{
    if payload.len() == 8 {
        Some(u64_from_le_bytes(payload.as_slice()))
    } else {
        None
    }
}

fn run_left(frame: &CallFrame) -> (a: Action)
    ensures
        a@ == fibonacci_action(frame@.program_id, frame@.handles, frame@.instruction.payload, frame@.returned),
{
    let accounts = match FibonacciLeftAccounts::bind(&frame.handles) {
        Some(accounts) => accounts,
        None => { return Action::Fail; },
    };
    assert(frame@.handles[0] == frame.handles@[0]@);
    assert(frame@.handles[1] == frame.handles@[1]@);
    let n = match read_argument(&frame.instruction.payload) {
        Some(n) => n,
        None => { return Action::Fail; },
    };
    let program = FibonacciLeft {  };
    let calls: usize = if n <= 1 { 0 } else { 2 };
    match program.calculate_fibonacci(n, &frame.returned) {
        Err(_) => Action::Fail,
        Ok(FibStep::Call(m)) => Action::Invoke(build_peer_call(&frame.program_id, accounts.right, accounts.rent, m)),
        Ok(FibStep::Done(v)) => finish(accounts.right, frame.returned.len() == calls, v),
    }
}

fn run_right(frame: &CallFrame) -> (a: Action)
    ensures
        a@ == fibonacci_action(frame@.program_id, frame@.handles, frame@.instruction.payload, frame@.returned),
{
    let accounts = match FibonacciRightAccounts::bind(&frame.handles) {
        Some(accounts) => accounts,
        None => { return Action::Fail; },
    };
    assert(frame@.handles[0] == frame.handles@[0]@);
    assert(frame@.handles[1] == frame.handles@[1]@);
    let n = match read_argument(&frame.instruction.payload) {
        Some(n) => n,
        None => { return Action::Fail; },
    };
    let program = FibonacciRight {  };
    let calls: usize = if n <= 1 { 0 } else { 2 };
    match program.calculate_fibonacci(n, &frame.returned) {
        Err(_) => Action::Fail,
        Ok(FibStep::Call(m)) => Action::Invoke(build_peer_call(&frame.program_id, accounts.left, accounts.rent, m)),
        Ok(FibStep::Done(v)) => finish(accounts.left, frame.returned.len() == calls, v),
    }
}

/// Runs or resumes the program of a frame, up to the next thing that it asks
/// of the dispatcher.
pub fn run_program(frame: &CallFrame) -> (a: Action)
    ensures
        a@ == frame_action(frame@),
{
    match frame.entry {
        EntryPoint::HelloWorld => match initialize(&Initialize {  }) {
            Ok(_) => Action::Return(0),
            Err(_) => Action::Fail,
        },
        EntryPoint::FibonacciLeft => run_left(frame),
        EntryPoint::FibonacciRight => run_right(frame),
    }
}

} // verus!
