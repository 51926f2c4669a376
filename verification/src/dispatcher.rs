use vstd::prelude::*;
use crate::account::{has_key, AccountStore, AccountView, StagedWriteView};
use crate::error::ExecError;
use crate::frame::{frames_view, handles_view, resumed, AccountHandle, CallFrame, FrameView, HandleView};
use crate::instruction::{
    copy_range, holds_signer, holds_writable, read_only, well_formed, AccountMeta, Instruction, InstructionView,
};
use crate::key::Pubkey;
use crate::program::{frame_action, lemma_action_bounded, min_accounts, run_program, Action, ActionView, EntryPoint, MAX_STEPS};
use crate::registry::ProgramRegistry;

verus! {

/// The dispatcher of nested calls: it runs the program of a frame and, when
/// the program asks for a nested call, opens a child frame on an explicit
/// stack, within the depth limit and the rules on privileges.
#[derive(Clone, Copy, Debug)]
pub struct Dispatcher {
    /// The deepest frame that may be opened: the top-level frame has depth 0,
    /// and a frame at this depth can call nothing.
    pub max_depth: usize,
    /// Whether the value of a nested call that returned is kept, and given
    /// again when the same instruction is asked for with room enough below.
    pub reuse: bool,
}

/// The value that a nested call returned, kept for later calls.
#[derive(Debug)]
pub struct MemoEntry {
    pub instruction: Instruction,
    pub value: u64,
    /// The longest chain of nested frames that the call opened below itself.
    pub height: usize,
}

/// The mathematical value of a [`MemoEntry`].
pub struct MemoView {
    pub instruction: InstructionView,
    pub value: u64,
    pub height: nat,
}

impl View for MemoEntry {
    type V = MemoView;

    open spec fn view(&self) -> MemoView {
        MemoView { instruction: self.instruction@, value: self.value, height: self.height as nat }
    }
}

pub open spec fn memo_view(memo: Seq<MemoEntry>) -> Seq<MemoView> {
    Seq::new(memo.len(), |i: int| memo[i]@)
}

/// What stays the same while one call tree runs: the limits, the deployed
/// programs and the committed accounts.
pub struct World {
    pub max_depth: nat,
    pub reuse: bool,
    pub programs: Map<Pubkey, EntryPoint>,
    pub accounts: Seq<AccountView>,
}

/// The state of one call tree: the stack of open frames, the top-level frame
/// first and the running frame last; the staged writes; the kept values; and
/// the result, once there is one.
pub struct Machine {
    pub stack: Seq<FrameView>,
    pub staged: Seq<StagedWriteView>,
    pub memo: Seq<MemoView>,
    pub outcome: Option<Result<u64, ExecError>>,
}

/// The state of a call tree, from the stack and the kept values as they are
/// held while it runs.
pub open spec fn machine_of(
    stack: Seq<CallFrame>,
    staged: Seq<StagedWriteView>,
    memo: Seq<MemoEntry>,
    outcome: Option<Result<u64, ExecError>>,
) -> Machine {
    Machine { stack: frames_view(stack), staged: staged, memo: memo_view(memo), outcome: outcome }
}

/// The reference asks for write or signer access that the caller lacks.
pub open spec fn lacks_privilege(parent: Seq<AccountMeta>, m: AccountMeta) -> bool {
    (m.is_writable && !holds_writable(parent, m.key)) || (m.is_signer && !holds_signer(parent, m.key))
}

/// Some reference of the nested call asks for an access that the caller lacks.
pub open spec fn escalates(parent: Seq<AccountMeta>, child: Seq<AccountMeta>) -> bool {
    exists|i: int| 0 <= i < child.len() && lacks_privilege(parent, #[trigger] child[i])
}

/// Some open frame holds the account writable.
pub open spec fn held_writable(stack: Seq<FrameView>, key: Pubkey) -> bool {
    exists|f: int| 0 <= f < stack.len() && holds_writable((#[trigger] stack[f]).instruction.accounts, key)
}

/// Some reference of the nested call asks for write access to an account that
/// an open frame holds writable.
pub open spec fn reenters(stack: Seq<FrameView>, child: Seq<AccountMeta>) -> bool {
    exists|i: int| 0 <= i < child.len() && (#[trigger] child[i]).is_writable && held_writable(stack, child[i].key)
}

/// The three guards on a nested call, in the order in which they are tried:
/// the depth limit, the narrowing of privileges, the guard against re-entrant
/// mutation. The caller is the last frame of the stack.
pub open spec fn guard(max_depth: nat, stack: Seq<FrameView>, instr: InstructionView) -> Result<(), ExecError>
    recommends
        stack.len() > 0,
{
    if stack.last().depth >= max_depth {
        Err(ExecError::CallDepthExceeded)
    } else if escalates(stack.last().instruction.accounts, instr.accounts) {
        Err(ExecError::PrivilegeEscalation)
    } else if reenters(stack, instr.accounts) {
        Err(ExecError::ReentrantMutation)
    } else {
        Ok(())
    }
}

/// Some reference names an account that is not in the store.
pub open spec fn missing_account(accounts: Seq<AccountView>, metas: Seq<AccountMeta>) -> bool {
    exists|i: int| 0 <= i < metas.len() && !has_key(accounts, (#[trigger] metas[i]).key)
}

/// The account with the key.
pub open spec fn account_of(accounts: Seq<AccountView>, key: Pubkey) -> AccountView {
    accounts[choose|i: int| 0 <= i < accounts.len() && (#[trigger] accounts[i]).key == key]
}

/// The owner of the account with the key.
pub open spec fn owner_of(accounts: Seq<AccountView>, key: Pubkey) -> Pubkey {
    account_of(accounts, key).owner
}

/// One handle for each reference: its key and flags, and the owner and the
/// payload that the store gives for the key.
pub open spec fn handles_for(accounts: Seq<AccountView>, metas: Seq<AccountMeta>) -> Seq<HandleView> {
    Seq::new(
        metas.len(),
        |i: int|
            HandleView {
                key: metas[i].key,
                owner: account_of(accounts, metas[i].key).owner,
                data: account_of(accounts, metas[i].key).data,
                is_writable: metas[i].is_writable,
                is_signer: metas[i].is_signer,
            },
    )
}

/// The frame for an instruction whose program is known: `MalformedInstruction`
/// where the instruction has fewer references than the program's schema asks
/// for, `NotFound` where it names an account that is not in the store.
pub open spec fn bind_frame(
    accounts: Seq<AccountView>,
    entry: EntryPoint,
    instr: InstructionView,
    parent: Option<usize>,
    depth: nat,
    root_id: u64,
) -> Result<FrameView, ExecError> {
    if instr.accounts.len() < min_accounts(entry) {
        Err(ExecError::MalformedInstruction)
    } else if missing_account(accounts, instr.accounts) {
        Err(ExecError::NotFound)
    } else {
        Ok(
            FrameView {
                program_id: instr.program_id,
                instruction: instr,
                parent: parent,
                depth: depth,
                root_id: root_id,
                entry: entry,
                handles: handles_for(accounts, instr.accounts),
                returned: Seq::empty(),
                height: 0,
            },
        )
    }
}

/// The frame for an instruction: the instruction is validated, its program is
/// resolved, and the frame is bound, in that order.
pub open spec fn open_frame(
    world: World,
    instr: InstructionView,
    parent: Option<usize>,
    depth: nat,
    root_id: u64,
) -> Result<FrameView, ExecError> {
    if !well_formed(instr) {
        Err(ExecError::MalformedInstruction)
    } else if !world.programs.contains_key(instr.program_id) {
        Err(ExecError::UnknownProgram)
    } else {
        bind_frame(world.accounts, world.programs[instr.program_id], instr, parent, depth, root_id)
    }
}

/// The child frame for a nested call that the running frame asks for, or the
/// reason for which the call is refused.
pub open spec fn admit_call(world: World, stack: Seq<FrameView>, instr: InstructionView) -> Result<FrameView, ExecError>
    recommends
        stack.len() > 0,
{
    match guard(world.max_depth, stack, instr) {
        Err(e) => Err(e),
        Ok(_) => open_frame(
            world,
            instr,
            Some((stack.len() - 1) as usize),
            stack.last().depth + 1,
            stack.last().root_id,
        ),
    }
}

/// The youngest kept value for the instruction that needs no more than `room`
/// frames below the call.
pub open spec fn memo_find(memo: Seq<MemoView>, instr: InstructionView, room: nat) -> Option<MemoView>
    decreases memo.len(),
{
    if memo.len() == 0 {
        None
    } else if memo.last().instruction == instr && memo.last().height <= room {
        Some(memo.last())
    } else {
        memo_find(memo.drop_last(), instr, room)
    }
}

/// The kept value that stands for running the child frame, if values are kept
/// and there is one.
pub open spec fn recall(reuse: bool, max_depth: nat, memo: Seq<MemoView>, child: FrameView) -> Option<MemoView> {
    if reuse {
        memo_find(memo, child.instruction, (max_depth - child.depth) as nat)
    } else {
        None
    }
}

/// The stack after its running frame was resumed.
pub open spec fn resume_top(stack: Seq<FrameView>, value: u64, reach: nat) -> Seq<FrameView>
    recommends
        stack.len() > 0,
{
    stack.drop_last().push(resumed(stack.last(), value, reach))
}

/// The machine with a result.
pub open spec fn ended(m: Machine, result: Result<u64, ExecError>) -> Machine {
    Machine { stack: m.stack, staged: m.staged, memo: m.memo, outcome: Some(result) }
}

/// One move of the machine. The program of the running frame is run up to
/// what it asks for next:
/// - a return ends the frame; its caller is resumed with the value, or, where
///   it was the top-level frame, the value is the result;
/// - a failure of the program, or of anything the program asked for, is the
///   result, whatever frames are open;
/// - a write is staged under the call tree if the frame holds the account
///   writable, and refused with `PermissionDenied` if not;
/// - a nested call is admitted or refused as [`admit_call`] says; an admitted
///   one opens a child frame, unless a kept value stands for it.
/// A machine that has a result, or no frame, does not move.
pub open spec fn step(world: World, m: Machine) -> Machine {
    if m.outcome is Some || m.stack.len() == 0 {
        m
    } else {
        let top = m.stack.last();
        match frame_action(top) {
            ActionView::Return(v) => {
                if m.stack.len() == 1 {
                    Machine { stack: m.stack.drop_last(), staged: m.staged, memo: m.memo, outcome: Some(Ok(v)) }
                } else {
                    Machine {
                        stack: resume_top(m.stack.drop_last(), v, top.height + 1),
                        staged: m.staged,
                        memo: if world.reuse {
                            m.memo.push(MemoView { instruction: top.instruction, value: v, height: top.height })
                        } else {
                            m.memo
                        },
                        outcome: None,
                    }
                }
            },
            ActionView::Fail => ended(m, Err(ExecError::ProgramLogicError)),
            ActionView::Write(key, data) => {
                if holds_writable(top.instruction.accounts, key) {
                    Machine {
                        stack: resume_top(m.stack, 0, 0),
                        staged: m.staged.push(StagedWriteView { frame_id: top.root_id, key: key, data: data }),
                        memo: m.memo,
                        outcome: None,
                    }
                } else {
                    ended(m, Err(ExecError::PermissionDenied))
                }
            },
            ActionView::Invoke(instr) => {
                match admit_call(world, m.stack, instr) {
                    Err(e) => ended(m, Err(e)),
                    Ok(child) => match recall(world.reuse, world.max_depth, m.memo, child) {
                        Some(kept) => Machine {
                            stack: resume_top(m.stack, kept.value, kept.height + 1),
                            staged: m.staged,
                            memo: m.memo,
                            outcome: None,
                        },
                        None => Machine { stack: m.stack.push(child), staged: m.staged, memo: m.memo, outcome: None },
                    },
                }
            },
        }
    }
}

/// The machine after `n` moves.
pub open spec fn run(world: World, m: Machine, n: nat) -> Machine
    decreases n,
{
    if n == 0 {
        m
    } else {
        step(world, run(world, m, (n - 1) as nat))
    }
}

/// The machine at the start of a call tree: the top-level frame alone, the
/// writes that were staged before, nothing kept.
pub open spec fn start(staged: Seq<StagedWriteView>, top: FrameView) -> Machine {
    Machine { stack: seq![top], staged: staged, memo: Seq::empty(), outcome: None }
}

/// The call tree that starts as `first` ends with `outcome`, and `staged` is
/// then what is staged.
pub open spec fn runs_to(
    world: World,
    first: Machine,
    outcome: Result<u64, ExecError>,
    staged: Seq<StagedWriteView>,
) -> bool {
    exists|n: nat|
        {
            let end = #[trigger] run(world, first, n);
            end.outcome == Some(outcome) && end.staged == staged
        }
}

/// The frame of a top-level instruction before its program has run.
pub open spec fn is_top_frame(f: FrameView) -> bool {
    &&& f.depth == 0
    &&& f.parent is None
    &&& f.returned.len() == 0
    &&& f.height == 0
}

/// What holds of the stack of every running call tree.
pub open spec fn stack_ok(max_depth: nat, stack: Seq<FrameView>) -> bool {
    forall|i: int|
        0 <= i < stack.len() ==> {
            &&& (#[trigger] stack[i]).depth == i
            &&& stack[i].depth + stack[i].height <= max_depth
            &&& stack[i].returned.len() <= MAX_STEPS
            &&& (i < stack.len() - 1 ==> stack[i].returned.len() < MAX_STEPS)
            &&& stack[i].root_id == stack[0].root_id
            &&& (i > 0 ==> read_only(stack[i].instruction.accounts))
            &&& stack[i].parent == if i == 0 {
                None::<usize>
            } else {
                Some((i - 1) as usize)
            }
        }
}

/// `after` is `before` with more writes at its end, each of them staged under
/// `root_id` for an account that `granted` names with write access.
pub open spec fn extends(
    before: Seq<StagedWriteView>,
    after: Seq<StagedWriteView>,
    root_id: u64,
    granted: Seq<AccountMeta>,
) -> bool {
    &&& before.len() <= after.len()
    &&& after.take(before.len() as int) == before
    &&& forall|i: int|
        before.len() <= i < after.len() ==> (#[trigger] after[i]).frame_id == root_id && holds_writable(
            granted,
            after[i].key,
        )
}

pub open spec fn weight(e: nat) -> nat
    decreases e,
{
    if e == 0 {
        1
    } else {
        5 * weight((e - 1) as nat)
    }
}

/// The moves that a frame has left, each counted with the weight of its depth.
pub open spec fn ticks(f: FrameView, waiting: bool, max_depth: nat) -> int {
    (MAX_STEPS + 1 - f.returned.len() - if waiting { 1int } else { 0int }) * weight((max_depth - f.depth) as nat)
}

pub open spec fn ticks_waiting(stack: Seq<FrameView>, max_depth: nat) -> int
    decreases stack.len(),
{
    if stack.len() == 0 {
        0
    } else {
        ticks_waiting(stack.drop_last(), max_depth) + ticks(stack.last(), true, max_depth)
    }
}

/// A bound on the moves that a running call tree has left.
pub open spec fn fuel(stack: Seq<FrameView>, max_depth: nat) -> int {
    if stack.len() == 0 {
        0
    } else {
        ticks_waiting(stack.drop_last(), max_depth) + ticks(stack.last(), false, max_depth)
    }
}

proof fn lemma_weight_positive(e: nat)
    ensures
        weight(e) >= 1,
    decreases e,
{
    if e > 0 {
        lemma_weight_positive((e - 1) as nat);
    }
}

proof fn lemma_ticks_waiting_nonnegative(stack: Seq<FrameView>, max_depth: nat)
    requires
        forall|i: int| 0 <= i < stack.len() ==> (#[trigger] stack[i]).returned.len() < MAX_STEPS,
    ensures
        ticks_waiting(stack, max_depth) >= 0,
    decreases stack.len(),
{
    if stack.len() > 0 {
        let rest = stack.drop_last();
        assert forall|i: int| 0 <= i < rest.len() implies (#[trigger] rest[i]).returned.len() < MAX_STEPS by {
            assert(rest[i] == stack[i]);
        }
        lemma_ticks_waiting_nonnegative(rest, max_depth);
        let f = stack.last();
        let w = weight((max_depth - f.depth) as nat);
        lemma_weight_positive((max_depth - f.depth) as nat);
        let c: int = MAX_STEPS + 1 - f.returned.len() - 1;
        assert(c >= 0);
        assert(c * w >= 0) by (nonlinear_arith)
            requires
                c >= 0,
                w >= 1,
        ;
    }
}

/// Every guard that lets a nested call pass leaves it without write access:
/// what the caller holds writable is closed to the call by the guard against
/// re-entrant mutation, and anything else by the narrowing of privileges.
pub proof fn lemma_admitted_is_read_only(max_depth: nat, stack: Seq<FrameView>, instr: InstructionView)
    requires
        stack.len() > 0,
        guard(max_depth, stack, instr) is Ok,
    ensures
        read_only(instr.accounts),
{
    assert forall|i: int| 0 <= i < instr.accounts.len() implies !(#[trigger] instr.accounts[i]).is_writable by {
        let m = instr.accounts[i];
        if m.is_writable {
            assert(!lacks_privilege(stack.last().instruction.accounts, m));
            assert(holds_writable(stack[stack.len() - 1].instruction.accounts, m.key));
            assert(held_writable(stack, m.key));
            assert(reenters(stack, instr.accounts));
        }
    }
}

/// A frame without write access holds no account writable.
pub proof fn lemma_read_only_holds_nothing(accounts: Seq<AccountMeta>, key: Pubkey)
    requires
        read_only(accounts),
    ensures
        !holds_writable(accounts, key),
{
}

/// A nested call that a frame at the depth limit asks for is refused with
/// `CallDepthExceeded`, whatever else holds of it.
pub proof fn lemma_depth_limit(world: World, stack: Seq<FrameView>, instr: InstructionView)
    requires
        stack.len() > 0,
        stack.last().depth >= world.max_depth,
    ensures
        admit_call(world, stack, instr) == Err::<FrameView, ExecError>(ExecError::CallDepthExceeded),
{
}

/// A call tree whose running frame sits at the depth limit and asks for a
/// nested call ends at that move with `CallDepthExceeded`, and the move stages
/// nothing.
pub proof fn lemma_step_at_limit(world: World, m: Machine)
    requires
        m.outcome is None,
        m.stack.len() > 0,
        m.stack.last().depth >= world.max_depth,
        frame_action(m.stack.last()) is Invoke,
    ensures
        step(world, m) == ended(m, Err(ExecError::CallDepthExceeded)),
{
}

/// A nested call below the depth limit that asks for write access to an
/// account that its caller holds read-only, or not at all, is refused with
/// `PrivilegeEscalation`.
pub proof fn lemma_privilege_escalation(world: World, stack: Seq<FrameView>, instr: InstructionView, i: int)
    requires
        stack.len() > 0,
        stack.last().depth < world.max_depth,
        0 <= i < instr.accounts.len(),
        instr.accounts[i].is_writable,
        !holds_writable(stack.last().instruction.accounts, instr.accounts[i].key),
    ensures
        admit_call(world, stack, instr) == Err::<FrameView, ExecError>(ExecError::PrivilegeEscalation),
{
    assert(lacks_privilege(stack.last().instruction.accounts, instr.accounts[i]));
}

/// A nested call below the depth limit that stays within its caller's
/// privileges and asks for write access to an account that a frame above it
/// holds writable is refused with `ReentrantMutation`.
pub proof fn lemma_reentrant_mutation(world: World, stack: Seq<FrameView>, instr: InstructionView, i: int, f: int)
    requires
        stack.len() > 0,
        stack.last().depth < world.max_depth,
        !escalates(stack.last().instruction.accounts, instr.accounts),
        0 <= i < instr.accounts.len(),
        0 <= f < stack.len(),
        instr.accounts[i].is_writable,
        holds_writable(stack[f].instruction.accounts, instr.accounts[i].key),
    ensures
        admit_call(world, stack, instr) == Err::<FrameView, ExecError>(ExecError::ReentrantMutation),
{
    assert(held_writable(stack, instr.accounts[i].key));
    assert(reenters(stack, instr.accounts));
}

/// A nested call below the depth limit that asks for write access to an
/// account that its caller holds writable is refused with `ReentrantMutation`,
/// unless another of its references asks for more than the caller holds.
pub proof fn lemma_nested_writers(world: World, stack: Seq<FrameView>, instr: InstructionView, i: int)
    requires
        stack.len() > 0,
        stack.last().depth < world.max_depth,
        0 <= i < instr.accounts.len(),
        instr.accounts[i].is_writable,
        holds_writable(stack.last().instruction.accounts, instr.accounts[i].key),
    ensures
        admit_call(world, stack, instr) == Err::<FrameView, ExecError>(
            if escalates(stack.last().instruction.accounts, instr.accounts) {
                ExecError::PrivilegeEscalation
            } else {
                ExecError::ReentrantMutation
            },
        ),
{
    if !escalates(stack.last().instruction.accounts, instr.accounts) {
        lemma_reentrant_mutation(world, stack, instr, i, stack.len() - 1);
    }
}


proof fn lemma_ticks_waiting_push(stack: Seq<FrameView>, f: FrameView, max_depth: nat)
    ensures
        ticks_waiting(stack.push(f), max_depth) == ticks_waiting(stack, max_depth) + ticks(f, true, max_depth),
{
    assert(stack.push(f).drop_last() =~= stack);
}

proof fn lemma_memo_find(memo: Seq<MemoView>, instr: InstructionView, room: nat)
    ensures
        memo_find(memo, instr, room) is Some ==> memo_find(memo, instr, room)->Some_0.height <= room,
    decreases memo.len(),
{
    if memo.len() > 0 {
        lemma_memo_find(memo.drop_last(), instr, room);
    }
}

proof fn lemma_fuel_nonnegative(stack: Seq<FrameView>, max_depth: nat)
    requires
        stack_ok(max_depth, stack),
    ensures
        fuel(stack, max_depth) >= 0,
{
    if stack.len() > 0 {
        let rest = stack.drop_last();
        assert forall|i: int| 0 <= i < rest.len() implies (#[trigger] rest[i]).returned.len() < MAX_STEPS by {
            assert(rest[i] == stack[i]);
        }
        lemma_ticks_waiting_nonnegative(rest, max_depth);
        let f = stack.last();
        let w = weight((max_depth - f.depth) as nat);
        lemma_weight_positive((max_depth - f.depth) as nat);
        let c: int = MAX_STEPS + 1 - f.returned.len();
        assert(c * w >= 0) by (nonlinear_arith)
            requires
                c >= 0,
                w >= 1,
        ;
    }
}

proof fn lemma_resume_top(stack: Seq<FrameView>, value: u64, reach: nat, max_depth: nat)
    requires
        stack.len() > 0,
        stack_ok(max_depth, stack),
        stack.last().returned.len() < MAX_STEPS,
        stack.last().depth + reach <= max_depth,
    ensures
        stack_ok(max_depth, resume_top(stack, value, reach)),
        resume_top(stack, value, reach).len() == stack.len(),
        fuel(resume_top(stack, value, reach), max_depth) < fuel(stack, max_depth),
        resume_top(stack, value, reach)[0].instruction == stack[0].instruction,
        resume_top(stack, value, reach)[0].root_id == stack[0].root_id,
{
    let next = resume_top(stack, value, reach);
    let top = stack.last();
    assert forall|i: int| 0 <= i < next.len() implies {
        &&& (#[trigger] next[i]).depth == i
        &&& next[i].depth + next[i].height <= max_depth
        &&& next[i].returned.len() <= MAX_STEPS
        &&& (i < next.len() - 1 ==> next[i].returned.len() < MAX_STEPS)
        &&& next[i].root_id == next[0].root_id
        &&& (i > 0 ==> read_only(next[i].instruction.accounts))
        &&& next[i].parent == if i == 0 {
            None::<usize>
        } else {
            Some((i - 1) as usize)
        }
    } by {
        assert(stack[i].depth == i);
        assert(stack[0].depth == 0);
        if i < next.len() - 1 {
            assert(next[i] == stack[i]);
        }
    }
    assert(next.drop_last() =~= stack.drop_last());
    let w = weight((max_depth - top.depth) as nat);
    lemma_weight_positive((max_depth - top.depth) as nat);
    let c: int = MAX_STEPS + 1 - top.returned.len();
    assert((c - 1) * w == c * w - w) by (nonlinear_arith);
}

proof fn lemma_push_child(stack: Seq<FrameView>, child: FrameView, max_depth: nat)
    requires
        stack.len() > 0,
        stack_ok(max_depth, stack),
        stack.last().returned.len() < MAX_STEPS,
        stack.last().depth < max_depth,
        child.depth == stack.last().depth + 1,
        child.height == 0,
        child.returned.len() == 0,
        child.root_id == stack.last().root_id,
        child.parent == Some((stack.len() - 1) as usize),
        read_only(child.instruction.accounts),
    ensures
        stack_ok(max_depth, stack.push(child)),
        fuel(stack.push(child), max_depth) < fuel(stack, max_depth),
{
    let next = stack.push(child);
    let top = stack.last();
    assert forall|i: int| 0 <= i < next.len() implies {
        &&& (#[trigger] next[i]).depth == i
        &&& next[i].depth + next[i].height <= max_depth
        &&& next[i].returned.len() <= MAX_STEPS
        &&& (i < next.len() - 1 ==> next[i].returned.len() < MAX_STEPS)
        &&& next[i].root_id == next[0].root_id
        &&& (i > 0 ==> read_only(next[i].instruction.accounts))
        &&& next[i].parent == if i == 0 {
            None::<usize>
        } else {
            Some((i - 1) as usize)
        }
    } by {
        assert(stack[stack.len() - 1].depth == stack.len() - 1);
        assert(stack[stack.len() - 1].root_id == stack[0].root_id);
        if i < stack.len() {
            assert(next[i] == stack[i]);
            assert(stack[i].depth == i);
        }
    }
    assert(next.drop_last() =~= stack);
    assert(stack.drop_last().push(top) =~= stack);
    lemma_ticks_waiting_push(stack.drop_last(), top, max_depth);
    let e: nat = (max_depth - child.depth) as nat;
    let w1 = weight(e);
    let w = weight((max_depth - top.depth) as nat);
    assert(w == 5 * w1);
    lemma_weight_positive(e);
    let c: int = MAX_STEPS + 1 - top.returned.len();
    assert((c - 1) * w == c * w - w) by (nonlinear_arith);
    assert(ticks(child, false, max_depth) == 4 * w1);
}

proof fn lemma_return_to_caller(stack: Seq<FrameView>, value: u64, max_depth: nat)
    requires
        stack.len() > 1,
        stack_ok(max_depth, stack),
    ensures
        stack_ok(max_depth, resume_top(stack.drop_last(), value, stack.last().height + 1)),
        resume_top(stack.drop_last(), value, stack.last().height + 1).len() == stack.len() - 1,
        fuel(resume_top(stack.drop_last(), value, stack.last().height + 1), max_depth) < fuel(stack, max_depth),
        resume_top(stack.drop_last(), value, stack.last().height + 1)[0].instruction == stack[0].instruction,
        resume_top(stack.drop_last(), value, stack.last().height + 1)[0].root_id == stack[0].root_id,
{
    let top = stack.last();
    let below = stack.drop_last();
    let caller = below.last();
    let next = resume_top(below, value, top.height + 1);
    assert(stack[stack.len() - 1].depth == stack.len() - 1);
    assert(caller == stack[stack.len() - 2]);
    assert(stack[stack.len() - 2].depth == stack.len() - 2);
    assert forall|i: int| 0 <= i < next.len() implies {
        &&& (#[trigger] next[i]).depth == i
        &&& next[i].depth + next[i].height <= max_depth
        &&& next[i].returned.len() <= MAX_STEPS
        &&& (i < next.len() - 1 ==> next[i].returned.len() < MAX_STEPS)
        &&& next[i].root_id == next[0].root_id
        &&& (i > 0 ==> read_only(next[i].instruction.accounts))
        &&& next[i].parent == if i == 0 {
            None::<usize>
        } else {
            Some((i - 1) as usize)
        }
    } by {
        assert(stack[i].depth == i);
        assert(stack[0].depth == 0);
        if i < next.len() - 1 {
            assert(next[i] == stack[i]);
        }
    }
    assert(next.drop_last() =~= below.drop_last());
    assert(below.drop_last().push(caller) =~= below);
    lemma_ticks_waiting_push(below.drop_last(), caller, max_depth);
    let w = weight((max_depth - top.depth) as nat);
    lemma_weight_positive((max_depth - top.depth) as nat);
    let c: int = MAX_STEPS + 1 - top.returned.len();
    assert(c * w >= 1) by (nonlinear_arith)
        requires
            c >= 1,
            w >= 1,
    ;
    assert(ticks(resumed(caller, value, top.height + 1), false, max_depth) == ticks(caller, true, max_depth));
}

proof fn lemma_extends_same(staged: Seq<StagedWriteView>, root_id: u64, granted: Seq<AccountMeta>)
    ensures
        extends(staged, staged, root_id, granted),
{
    assert(staged.take(staged.len() as int) =~= staged);
}

/// `extends` is transitive.
pub proof fn lemma_extends_chain(
    a: Seq<StagedWriteView>,
    b: Seq<StagedWriteView>,
    c: Seq<StagedWriteView>,
    root_id: u64,
    granted: Seq<AccountMeta>,
)
    requires
        extends(a, b, root_id, granted),
        extends(b, c, root_id, granted),
    ensures
        extends(a, c, root_id, granted),
{
    assert(c.take(a.len() as int) =~= b.take(a.len() as int)) by {
        assert forall|i: int| 0 <= i < a.len() implies c.take(a.len() as int)[i] == b.take(a.len() as int)[i] by {
            assert(c.take(b.len() as int)[i] == b[i]);
        }
    }
    assert forall|i: int| a.len() <= i < c.len() implies (#[trigger] c[i]).frame_id == root_id && holds_writable(
        granted,
        c[i].key,
    ) by {
        if i < b.len() {
            assert(c.take(b.len() as int)[i] == b[i]);
        }
    }
}

/// What every move keeps and what it gains. A running call tree stays in
/// order; it ends or comes closer to its end; its top-level frame keeps its
/// instruction; and whatever it stages is staged under the top-level frame,
/// for an account that the top-level instruction names with write access.
pub proof fn lemma_step_keeps_order(world: World, m: Machine)
    requires
        m.outcome is None,
        m.stack.len() > 0,
        stack_ok(world.max_depth, m.stack),
    ensures
        stack_ok(world.max_depth, step(world, m).stack),
        fuel(m.stack, world.max_depth) >= 0,
        extends(m.staged, step(world, m).staged, m.stack[0].root_id, m.stack[0].instruction.accounts),
        step(world, m).outcome is None ==> {
            &&& step(world, m).stack.len() > 0
            &&& fuel(step(world, m).stack, world.max_depth) < fuel(m.stack, world.max_depth)
            &&& step(world, m).stack[0].instruction == m.stack[0].instruction
            &&& step(world, m).stack[0].root_id == m.stack[0].root_id
        },
        step(world, m).outcome is Some && step(world, m).outcome->Some_0 is Err ==> step(world, m).staged
            == m.staged,
{
    let top = m.stack.last();
    let next = step(world, m);
    lemma_fuel_nonnegative(m.stack, world.max_depth);
    lemma_extends_same(m.staged, m.stack[0].root_id, m.stack[0].instruction.accounts);
    assert(m.stack[m.stack.len() - 1].depth == m.stack.len() - 1);
    if top.returned.len() >= MAX_STEPS {
        lemma_action_bounded(top.entry, top.program_id, top.handles, top.instruction.payload, top.returned);
    }
    match frame_action(top) {
        ActionView::Return(v) => {
            if m.stack.len() == 1 {
                assert(stack_ok(world.max_depth, m.stack.drop_last()));
            } else {
                lemma_return_to_caller(m.stack, v, world.max_depth);
            }
        },
        ActionView::Fail => {},
        ActionView::Write(key, data) => {
            if holds_writable(top.instruction.accounts, key) {
                lemma_resume_top(m.stack, 0, 0, world.max_depth);
                if m.stack.len() > 1 {
                    lemma_read_only_holds_nothing(top.instruction.accounts, key);
                }
                assert(top == m.stack[0]);
                assert(next.staged.take(m.staged.len() as int) =~= m.staged);
            }
        },
        ActionView::Invoke(instr) => {
            match admit_call(world, m.stack, instr) {
                Err(e) => {},
                Ok(child) => {
                    lemma_admitted_is_read_only(world.max_depth, m.stack, instr);
                    match recall(world.reuse, world.max_depth, m.memo, child) {
                        Some(kept) => {
                            lemma_memo_find(m.memo, child.instruction, (world.max_depth - child.depth) as nat);
                            lemma_resume_top(m.stack, kept.value, kept.height + 1, world.max_depth);
                        },
                        None => {
                            lemma_push_child(m.stack, child, world.max_depth);
                            assert(m.stack.push(child)[0] == m.stack[0]);
                        },
                    }
                },
            }
        },
    }
}

/// A call tree has one end: two runs of the same tree give the same result
/// and the same staged writes.
pub proof fn lemma_one_end(
    world: World,
    first: Machine,
    a: Result<u64, ExecError>,
    staged_a: Seq<StagedWriteView>,
    b: Result<u64, ExecError>,
    staged_b: Seq<StagedWriteView>,
)
    requires
        runs_to(world, first, a, staged_a),
        runs_to(world, first, b, staged_b),
    ensures
        a == b,
        staged_a == staged_b,
{
    let n = choose|n: nat|
        {
            let end = #[trigger] run(world, first, n);
            end.outcome == Some(a) && end.staged == staged_a
        };
    let k = choose|k: nat|
        {
            let end = #[trigger] run(world, first, k);
            end.outcome == Some(b) && end.staged == staged_b
        };
    if n <= k {
        lemma_result_is_final(world, first, n, (k - n) as nat);
    } else {
        lemma_result_is_final(world, first, k, (n - k) as nat);
    }
}

/// A failure anywhere in a call tree is the result of the whole tree: where
/// the running frame, after any number of moves, asks for a nested call that
/// is refused, the tree ends with the reason of the refusal, whatever frames
/// are open, and that move stages nothing.
pub proof fn lemma_refusal_ends_the_tree(world: World, first: Machine, k: nat, instr: InstructionView)
    requires
        run(world, first, k).outcome is None,
        run(world, first, k).stack.len() > 0,
        frame_action(run(world, first, k).stack.last()) == ActionView::Invoke(instr),
        admit_call(world, run(world, first, k).stack, instr) is Err,
    ensures
        runs_to(
            world,
            first,
            Err(admit_call(world, run(world, first, k).stack, instr)->Err_0),
            run(world, first, k).staged,
        ),
{
    let end = run(world, first, k + 1);
    assert(end == step(world, run(world, first, k)));
}

/// A machine that has a result stays as it is: the result of a call tree is
/// the result of its first move that gives one.
pub proof fn lemma_result_is_final(world: World, m: Machine, n: nat, k: nat)
    requires
        run(world, m, n).outcome is Some,
    ensures
        run(world, m, n + k) == run(world, m, n),
    decreases k,
{
    if k > 0 {
        lemma_result_is_final(world, m, n, (k - 1) as nat);
    }
}


impl Dispatcher {
    /// A dispatcher with the depth limit `max_depth`.
    pub fn new(max_depth: usize, reuse: bool) -> (d: Dispatcher)
        ensures
            d.max_depth == max_depth,
            d.reuse == reuse,
    {
        Dispatcher { max_depth, reuse }
    }

    /// What stays the same while a call tree runs under this dispatcher.
    pub open spec fn world(&self, programs: Map<Pubkey, EntryPoint>, accounts: Seq<AccountView>) -> World {
        World { max_depth: self.max_depth as nat, reuse: self.reuse, programs: programs, accounts: accounts }
    }

    /// Tries the three guards on a nested call that the last frame of the
    /// stack asks for: the depth limit, then the narrowing of privileges, then
    /// the guard against re-entrant mutation.
    #[verifier::loop_isolation(false)]
    pub fn check_call(&self, stack: &Vec<CallFrame>, instr: &Instruction) -> (r: Result<(), ExecError>)
        requires
            stack.len() > 0,
        ensures
            r == guard(self.max_depth as nat, frames_view(stack@), instr@),
    {
        let ghost frames = frames_view(stack@);
        let parent = &stack[stack.len() - 1];
        assert(frames.last() == parent@);
        if parent.depth >= self.max_depth {
            return Err(ExecError::CallDepthExceeded);
        }
        let n: usize = instr.accounts.len();
        let mut i: usize = 0;
        while i < n
            invariant
                i <= n == instr.accounts.len(),
                forall|j: int| 0 <= j < i ==> !lacks_privilege(parent@.instruction.accounts, #[trigger] instr@.accounts[j]),
            decreases n - i,
        {
            let m = instr.accounts[i];
            if (m.is_writable && !parent.instruction.holds_writable(&m.key)) || (m.is_signer
                && !parent.instruction.holds_signer(&m.key)) {
                assert(lacks_privilege(parent@.instruction.accounts, instr@.accounts[i as int]));
                return Err(ExecError::PrivilegeEscalation);
            }
            i += 1;
        }
        i = 0;
        while i < n
            invariant
                i <= n == instr.accounts.len(),
                frames == frames_view(stack@),
                forall|j: int|
                    0 <= j < i ==> !((#[trigger] instr@.accounts[j]).is_writable && held_writable(
                        frames,
                        instr@.accounts[j].key,
                    )),
            decreases n - i,
        {
            let m = instr.accounts[i];
            if m.is_writable {
                let mut f: usize = 0;
                while f < stack.len()
                    invariant
                        f <= stack.len(),
                        frames == frames_view(stack@),
                        forall|g: int|
                            0 <= g < f ==> !holds_writable((#[trigger] frames[g]).instruction.accounts, m.key),
                    decreases stack.len() - f,
                {
                    assert(frames[f as int] == stack@[f as int]@);
                    if stack[f].instruction.holds_writable(&m.key) {
                        assert(held_writable(frames, instr@.accounts[i as int].key));
                        assert(reenters(frames, instr@.accounts));
                        return Err(ExecError::ReentrantMutation);
                    }
                    f += 1;
                }
            }
            i += 1;
        }
        Ok(())
    }

    /// Binds a frame for an instruction whose program is known: one handle
    /// for each account reference, with the owner and the payload that the
    /// store gives.
    #[verifier::loop_isolation(false)]
    pub fn bind(
        &self,
        store: &AccountStore,
        entry: EntryPoint,
        instr: Instruction,
        parent: Option<usize>,
        depth: usize,
        root_id: u64,
    ) -> (r: Result<CallFrame, ExecError>)
        requires
            store.wf(),
        ensures
            match r {
                Ok(f) => bind_frame(store@.accounts, entry, instr@, parent, depth as nat, root_id) == Ok::<
                    FrameView,
                    ExecError,
                >(f@),
                Err(e) => bind_frame(store@.accounts, entry, instr@, parent, depth as nat, root_id) == Err::<
                    FrameView,
                    ExecError,
                >(e),
            },
    {
        if instr.accounts.len() < entry.min_accounts() {
            return Err(ExecError::MalformedInstruction);
        }
        let ghost accounts = store@.accounts;
        let ghost metas = instr@.accounts;
        let mut handles: Vec<AccountHandle> = Vec::new();
        let n: usize = instr.accounts.len();
        let mut i: usize = 0;
        while i < n
            invariant
                i <= n == instr.accounts.len(),
                store.wf(),
                accounts == store@.accounts,
                metas == instr@.accounts,
                handles_view(handles@) == handles_for(accounts, metas).take(i as int),
                forall|j: int| 0 <= j < i ==> has_key(accounts, (#[trigger] metas[j]).key),
            decreases n - i,
        {
            let m = instr.accounts[i];
            match store.get(&m.key) {
                Err(_) => {
                    assert(!has_key(accounts, metas[i as int].key));
                    return Err(ExecError::NotFound);
                },
                Ok(a) => {
                    let data = copy_range(&a.data, 0, a.data.len());
                    assert(data@ =~= a.data@);
                    let h = AccountHandle {
                        key: m.key,
                        owner: a.owner,
                        data,
                        is_writable: m.is_writable,
                        is_signer: m.is_signer,
                    };
                    let ghost before = handles_view(handles@);
                    proof {
                        let k = choose|k: int| 0 <= k < accounts.len() && #[trigger] accounts[k] == a@ && a.key == m.key;
                        let c = choose|c: int| 0 <= c < accounts.len() && (#[trigger] accounts[c]).key == m.key;
                        assert(accounts[k].key == m.key);
                        assert(c == k) by {
                            if c < k {
                                assert(accounts[c].key != accounts[k].key);
                            } else if k < c {
                                assert(accounts[k].key != accounts[c].key);
                            }
                        }
                        assert(h@ == handles_for(accounts, metas)[i as int]);
                        assert(handles_for(accounts, metas).take(i + 1) =~= handles_for(accounts, metas).take(
                            i as int,
                        ).push(h@));
                    }
                    handles.push(h);
                    assert(handles_view(handles@) =~= before.push(h@));
                },
            }
            i += 1;
        }
        assert(handles_for(accounts, metas).take(n as int) =~= handles_for(accounts, metas));
        Ok(
            CallFrame {
                program_id: instr.program_id,
                instruction: instr,
                parent,
                depth,
                root_id,
                entry,
                handles,
                returned: Vec::new(),
                height: 0,
            },
        )
    }

    fn open(
        &self,
        registry: &ProgramRegistry,
        store: &AccountStore,
        instr: Instruction,
        parent: Option<usize>,
        depth: usize,
        root_id: u64,
    ) -> (r: Result<CallFrame, ExecError>)
        requires
            store.wf(),
        ensures
            match r {
                Ok(f) => open_frame(self.world(registry@, store@.accounts), instr@, parent, depth as nat, root_id)
                    == Ok::<FrameView, ExecError>(f@),
                Err(e) => open_frame(self.world(registry@, store@.accounts), instr@, parent, depth as nat, root_id)
                    == Err::<FrameView, ExecError>(e),
            },
    {
        if instr.validate().is_err() {
            return Err(ExecError::MalformedInstruction);
        }
        match registry.resolve(&instr.program_id) {
            Err(e) => Err(e),
            Ok(entry) => self.bind(store, entry, instr, parent, depth, root_id),
        }
    }

    /// Opens the frame of a top-level instruction, at depth 0: the
    /// instruction is validated, its program is resolved, and a handle is
    /// bound for each of its account references.
    pub fn open_top(&self, registry: &ProgramRegistry, store: &AccountStore, instr: Instruction, root_id: u64) -> (r:
        Result<CallFrame, ExecError>)
        requires
            store.wf(),
        ensures
            match r {
                Ok(f) => open_frame(self.world(registry@, store@.accounts), instr@, None, 0, root_id) == Ok::<
                    FrameView,
                    ExecError,
                >(f@) && is_top_frame(f@),
                Err(e) => open_frame(self.world(registry@, store@.accounts), instr@, None, 0, root_id) == Err::<
                    FrameView,
                    ExecError,
                >(e),
            },
    {
        self.open(registry, store, instr, None, 0, root_id)
    }

    fn open_child(&self, registry: &ProgramRegistry, store: &AccountStore, stack: &Vec<CallFrame>, instr: Instruction) -> (r:
        Result<CallFrame, ExecError>)
        requires
            store.wf(),
            stack.len() > 0,
        ensures
            match r {
                Ok(f) => admit_call(self.world(registry@, store@.accounts), frames_view(stack@), instr@) == Ok::<
                    FrameView,
                    ExecError,
                >(f@),
                Err(e) => admit_call(self.world(registry@, store@.accounts), frames_view(stack@), instr@) == Err::<
                    FrameView,
                    ExecError,
                >(e),
            },
    {
        match self.check_call(stack, &instr) {
            Err(e) => Err(e),
            Ok(_) => {
                let parent = &stack[stack.len() - 1];
                assert(frames_view(stack@).last() == parent@);
                self.open(registry, store, instr, Some(stack.len() - 1), parent.depth + 1, parent.root_id)
            },
        }
    }

    #[verifier::loop_isolation(false)]
    fn find_kept(&self, memo: &Vec<MemoEntry>, child: &CallFrame) -> (r: Option<(u64, usize)>)
        requires
            child.depth <= self.max_depth,
        ensures
            match r {
                Some(kept) => recall(self.reuse, self.max_depth as nat, memo_view(memo@), child@) == Some(
                    MemoView { instruction: child@.instruction, value: kept.0, height: kept.1 as nat },
                ),
                None => recall(self.reuse, self.max_depth as nat, memo_view(memo@), child@) is None,
            },
    {
        if !self.reuse {
            return None;
        }
        let ghost all = memo_view(memo@);
        let ghost room: nat = (self.max_depth - child.depth) as nat;
        let mut i: usize = memo.len();
        assert(all.take(i as int) =~= all);
        while i > 0
            invariant
                i <= memo.len(),
                all == memo_view(memo@),
                memo_find(all, child@.instruction, room) == memo_find(all.take(i as int), child@.instruction, room),
            decreases i,
        {
            i -= 1;
            assert(all.take(i + 1).drop_last() =~= all.take(i as int));
            assert(all.take(i + 1).last() == memo@[i as int]@);
            if memo[i].height <= self.max_depth - child.depth && memo[i].instruction.equals(&child.instruction) {
                return Some((memo[i].value, memo[i].height));
            }
        }
        None
    }

    /// Makes one move of the call tree: runs the program of the last frame of
    /// the stack up to what it asks for, and does it. A result ends the tree.
    fn advance(
        &self,
        registry: &ProgramRegistry,
        store: &mut AccountStore,
        stack: &mut Vec<CallFrame>,
        memo: &mut Vec<MemoEntry>,
    ) -> (outcome: Option<Result<u64, ExecError>>)
        requires
            old(store).wf(),
            old(stack).len() > 0,
            stack_ok(self.max_depth as nat, frames_view(old(stack)@)),
        ensures
            final(store).wf(),
            final(store)@.accounts == old(store)@.accounts,
            machine_of(final(stack)@, final(store)@.staged, final(memo)@, outcome) == step(
                self.world(registry@, old(store)@.accounts),
                machine_of(old(stack)@, old(store)@.staged, old(memo)@, None),
            ),
    {
        let ghost world = self.world(registry@, store@.accounts);
        let ghost before = machine_of(stack@, store@.staged, memo@, None);
        let ghost expected = step(world, before);
        proof {
            lemma_step_keeps_order(world, before);
        }
        let n: usize = stack.len();
        assert(before.stack.last() == stack@[n - 1]@);
        assert(before.stack[n - 1].depth == n - 1);
        let action = run_program(&stack[n - 1]);
        match action {
            Action::Return(v) => {
                let top = stack.pop().unwrap();
                assert(frames_view(stack@) =~= before.stack.drop_last());
                if stack.len() == 0 {
                    Some(Ok(v))
                } else {
                    let mut caller = stack.pop().unwrap();
                    assert(caller@ == before.stack.drop_last().last());
                    assert(before.stack[n - 2].depth == n - 2);
                    caller.resume(v, top.height + 1);
                    stack.push(caller);
                    assert(frames_view(stack@) =~= expected.stack);
                    if self.reuse {
                        memo.push(MemoEntry { instruction: top.instruction, value: v, height: top.height });
                        assert(memo_view(memo@) =~= expected.memo);
                    }
                    None
                }
            },
            Action::Fail => Some(Err(ExecError::ProgramLogicError)),
            Action::Write(key, data) => {
                match store.stage_write(&key, data, &stack[n - 1]) {
                    Err(e) => Some(Err(e)),
                    Ok(_) => {
                        let mut top = stack.pop().unwrap();
                        top.resume(0, 0);
                        stack.push(top);
                        assert(frames_view(stack@) =~= expected.stack);
                        None
                    },
                }
            },
            Action::Invoke(instr) => {
                match self.open_child(registry, store, stack, instr) {
                    Err(e) => Some(Err(e)),
                    Ok(child) => {
                        proof {
                            lemma_memo_find(before.memo, child@.instruction, (world.max_depth - child@.depth) as nat);
                        }
                        match self.find_kept(memo, &child) {
                            Some(kept) => {
                                let mut top = stack.pop().unwrap();
                                top.resume(kept.0, kept.1 + 1);
                                stack.push(top);
                                assert(frames_view(stack@) =~= expected.stack);
                                None
                            },
                            None => {
                                stack.push(child);
                                assert(frames_view(stack@) =~= expected.stack);
                                None
                            },
                        }
                    },
                }
            },
        }
    }

    /// Runs the call tree of a top-level frame to its result: the value that
    /// the top-level program returns, or the first failure anywhere in the
    /// tree. Writes are staged in the store under the frame's `root_id`;
    /// nothing is committed or discarded here.
    pub fn dispatch(&self, registry: &ProgramRegistry, store: &mut AccountStore, top: CallFrame) -> (r: Result<
        u64,
        ExecError,
    >)
        requires
            old(store).wf(),
            is_top_frame(top@),
        ensures
            final(store).wf(),
            final(store)@.accounts == old(store)@.accounts,
            runs_to(
                self.world(registry@, old(store)@.accounts),
                start(old(store)@.staged, top@),
                r,
                final(store)@.staged,
            ),
            extends(old(store)@.staged, final(store)@.staged, top.root_id, top@.instruction.accounts),
    {
        let ghost world = self.world(registry@, store@.accounts);
        let ghost first = start(store@.staged, top@);
        let ghost root_id = top.root_id;
        let ghost granted = top@.instruction.accounts;
        let ghost mut moves: nat = 0;
        let mut stack: Vec<CallFrame> = Vec::new();
        let mut memo: Vec<MemoEntry> = Vec::new();
        stack.push(top);
        let mut result: Result<u64, ExecError> = Err(ExecError::ProgramLogicError);
        proof {
            assert(frames_view(stack@) =~= first.stack);
            assert(memo_view(memo@) =~= first.memo);
            lemma_extends_same(store@.staged, root_id, granted);
        }
        loop
            invariant_except_break
                stack.len() > 0,
                frames_view(stack@)[0].root_id == root_id,
                frames_view(stack@)[0].instruction.accounts == granted,
                run(world, first, moves) == machine_of(stack@, store@.staged, memo@, None),
            invariant
                store.wf(),
                store@.accounts == old(store)@.accounts,
                world == self.world(registry@, old(store)@.accounts),
                stack_ok(self.max_depth as nat, frames_view(stack@)),
                extends(old(store)@.staged, store@.staged, root_id, granted),
            ensures
                run(world, first, moves) == machine_of(stack@, store@.staged, memo@, Some(result)),
            decreases fuel(frames_view(stack@), self.max_depth as nat),
        {
            let ghost before = run(world, first, moves);
            proof {
                lemma_step_keeps_order(world, before);
                lemma_extends_chain(old(store)@.staged, before.staged, step(world, before).staged, root_id, granted);
            }
            let outcome = self.advance(registry, store, &mut stack, &mut memo);
            proof {
                moves = moves + 1;
                assert(machine_of(stack@, store@.staged, memo@, outcome) == step(world, before));
                lemma_fuel_nonnegative(frames_view(stack@), self.max_depth as nat);
            }
            match outcome {
                Some(r) => {
                    result = r;
                    break ;
                },
                None => {},
            }
        }
        assert(run(world, first, moves).outcome == Some(result));
        result
    }
}

} // verus!
