//! What the two-program Fibonacci calculator computes when the dispatcher
//! runs it: the laws that tie the moves of its frames to the Fibonacci
//! numbers.

use vstd::prelude::*;
use vstd::bytes::{lemma_auto_spec_u64_to_from_le_bytes, spec_u64_from_le_bytes, spec_u64_to_le_bytes};
use crate::account::{has_key, StagedWriteView};
use crate::dispatcher::{
    admit_call, escalates, guard, is_top_frame, lacks_privilege, lemma_one_end, lemma_step_keeps_order, memo_find,
    missing_account, open_frame, owner_of, recall, reenters, resume_top, run, runs_to, stack_ok, start, step,
    Machine, MemoView, World,
};
use crate::error::ExecError;
use crate::frame::{handles_match, resumed, FrameView};
use crate::instruction::{holds_writable, well_formed, InstructionView};
use crate::key::Pubkey;
use crate::program::{fib, fib_step, frame_action, peer_call, ActionView, EntryPoint, FibStep};

verus! {

/// The two halves of the calculator as they are deployed: the identifier of
/// each program, under which its own account lives too, and the key of the
/// rent account.
pub struct Pair {
    pub left: Pubkey,
    pub right: Pubkey,
    pub rent: Pubkey,
}

pub open spec fn is_calculator(entry: EntryPoint) -> bool {
    entry == EntryPoint::FibonacciLeft || entry == EntryPoint::FibonacciRight
}

/// Both halves are deployed, each owns the account under its own identifier,
/// and the rent account is in the store.
pub open spec fn paired(w: World, p: Pair) -> bool {
    &&& w.programs.contains_key(p.left) && is_calculator(w.programs[p.left])
    &&& w.programs.contains_key(p.right) && is_calculator(w.programs[p.right])
    &&& has_key(w.accounts, p.left) && owner_of(w.accounts, p.left) == p.left
    &&& has_key(w.accounts, p.right) && owner_of(w.accounts, p.right) == p.right
    &&& has_key(w.accounts, p.rent)
}

/// The half that `own` calls.
pub open spec fn other(p: Pair, own: Pubkey) -> Pubkey {
    if own == p.left {
        p.right
    } else {
        p.left
    }
}

/// The frame runs one half of the calculator for the argument `n`: its peer
/// account is owned by the other half.
pub open spec fn calculates(f: FrameView, p: Pair, n: u64) -> bool {
    &&& is_calculator(f.entry)
    &&& (f.program_id == p.left || f.program_id == p.right)
    &&& f.handles.len() >= 2
    &&& f.handles[0].owner == other(p, f.program_id)
    &&& f.handles[1].key == p.rent
    &&& f.instruction.payload == spec_u64_to_le_bytes(n)
}

/// The longest chain of nested frames below a frame for the argument `n`.
pub open spec fn span(n: u64) -> nat {
    if n <= 1 {
        0
    } else {
        (n - 1) as nat
    }
}

/// The kept value is the Fibonacci number of the argument that its
/// instruction carries, with the chain of frames that the argument needs.
pub open spec fn sound_entry(e: MemoView) -> bool {
    let n = spec_u64_from_le_bytes(e.instruction.payload);
    &&& e.instruction.payload == spec_u64_to_le_bytes(n)
    &&& fib(n as nat) <= u64::MAX
    &&& e.value == fib(n as nat)
    &&& e.height == span(n)
}

pub open spec fn sound(memo: Seq<MemoView>) -> bool {
    forall|i: int| 0 <= i < memo.len() ==> sound_entry(#[trigger] memo[i])
}

/// The frame once it holds the two numbers that it asked for.
pub open spec fn gathered(f: FrameView, n: u64) -> FrameView {
    FrameView {
        program_id: f.program_id,
        instruction: f.instruction,
        parent: f.parent,
        depth: f.depth,
        root_id: f.root_id,
        entry: f.entry,
        handles: f.handles,
        returned: if n <= 1 {
            Seq::empty()
        } else {
            seq![fib((n - 1) as nat) as u64, fib((n - 2) as nat) as u64]
        },
        height: span(n),
    }
}

/// The write by which a frame records its value in a writable peer account.
pub open spec fn record(f: FrameView, n: u64) -> StagedWriteView {
    StagedWriteView {
        frame_id: f.root_id,
        key: f.handles[0].key,
        data: spec_u64_to_le_bytes(fib(n as nat) as u64),
    }
}

/// What is staged when the calculation of a top-level frame has ended well.
pub open spec fn staged_after(staged: Seq<StagedWriteView>, top: FrameView, n: u64) -> Seq<StagedWriteView> {
    if top.handles[0].is_writable {
        staged.push(record(top, n))
    } else {
        staged
    }
}

/// Moves add up.
pub proof fn lemma_run_add(w: World, m: Machine, a: nat, b: nat)
    ensures
        run(w, m, a + b) == run(w, run(w, m, a), b),
    decreases b,
{
    if b > 0 {
        lemma_run_add(w, m, a, (b - 1) as nat);
        assert(run(w, m, a + b) == step(w, run(w, m, (a + b - 1) as nat)));
    }
}

proof fn lemma_run_one(w: World, m: Machine)
    ensures
        run(w, m, 1) == step(w, m),
{
    assert(run(w, m, 0) == m);
}

proof fn lemma_found_is_kept(memo: Seq<MemoView>, instr: InstructionView, room: nat)
    requires
        sound(memo),
        memo_find(memo, instr, room) is Some,
    ensures
        sound_entry(memo_find(memo, instr, room)->Some_0),
        memo_find(memo, instr, room)->Some_0.instruction == instr,
        memo_find(memo, instr, room)->Some_0.height <= room,
    decreases memo.len(),
{
    if memo.len() > 0 {
        if memo.last().instruction == instr && memo.last().height <= room {
            assert(sound_entry(memo[memo.len() - 1]));
        } else {
            assert forall|i: int| 0 <= i < memo.drop_last().len() implies sound_entry(#[trigger] memo.drop_last()[i]) by {
                assert(memo.drop_last()[i] == memo[i]);
            }
            lemma_found_is_kept(memo.drop_last(), instr, room);
        }
    }
}

proof fn lemma_none_fits(memo: Seq<MemoView>, instr: InstructionView, room: nat)
    requires
        memo.len() == 0,
    ensures
        memo_find(memo, instr, room) is None,
{
}

/// The nested call by which a frame of the calculator asks for the number of
/// `arg` is admitted, if the frame sits below the depth limit, and the child
/// frame runs the other half for `arg`.
proof fn lemma_call_is_admitted(w: World, p: Pair, stack: Seq<FrameView>, n: u64, arg: u64)
    requires
        paired(w, p),
        stack.len() > 0,
        calculates(stack.last(), p, n),
        stack.last().depth < w.max_depth,
    ensures
        admit_call(
            w,
            stack,
            peer_call(stack.last().program_id, stack.last().handles[0], stack.last().handles[1], arg),
        ) is Ok,
        calculates(
            admit_call(
                w,
                stack,
                peer_call(stack.last().program_id, stack.last().handles[0], stack.last().handles[1], arg),
            )->Ok_0,
            p,
            arg,
        ),
        ({
            let child = admit_call(
                w,
                stack,
                peer_call(stack.last().program_id, stack.last().handles[0], stack.last().handles[1], arg),
            )->Ok_0;
            &&& child.returned.len() == 0
            &&& child.height == 0
            &&& child.depth == stack.last().depth + 1
            &&& !child.handles[0].is_writable
            &&& child.instruction == peer_call(
                stack.last().program_id,
                stack.last().handles[0],
                stack.last().handles[1],
                arg,
            )
        }),
{
    lemma_auto_spec_u64_to_from_le_bytes();
    let top = stack.last();
    let instr = peer_call(top.program_id, top.handles[0], top.handles[1], arg);
    assert(instr.accounts.len() == 2);
    assert(!escalates(top.instruction.accounts, instr.accounts)) by {
        assert forall|i: int| 0 <= i < instr.accounts.len() implies !lacks_privilege(
            top.instruction.accounts,
            #[trigger] instr.accounts[i],
        ) by {}
    }
    assert(!reenters(stack, instr.accounts));
    assert(guard(w.max_depth, stack, instr) is Ok);
    assert(well_formed(instr));
    assert(!missing_account(w.accounts, instr.accounts)) by {
        assert forall|i: int| 0 <= i < instr.accounts.len() implies has_key(w.accounts, (#[trigger] instr.accounts[i]).key) by {
            if i == 0 {
                assert(instr.accounts[0].key == top.program_id);
            } else {
                assert(instr.accounts[1].key == p.rent);
            }
        }
    }
    assert(instr.program_id == other(p, top.program_id));
    assert(w.programs.contains_key(instr.program_id));
    let child = open_frame(w, instr, Some((stack.len() - 1) as usize), top.depth + 1, top.root_id)->Ok_0;
    assert(child.handles[0].key == top.program_id);
    assert(child.handles[0].owner == owner_of(w.accounts, top.program_id));
}

/// A frame of the calculator gets the number that it asks for: the nested
/// call runs to its end, or a kept value stands for it, and the frame is
/// resumed with the Fibonacci number of `arg`. The result names the moves
/// that this takes and the values that are kept after them.
proof fn lemma_operand(w: World, p: Pair, m: Machine, n: u64, arg: u64) -> (r: (nat, Seq<MemoView>))
    requires
        paired(w, p),
        m.outcome is None,
        m.stack.len() > 0,
        stack_ok(w.max_depth, m.stack),
        calculates(m.stack.last(), p, n),
        frame_action(m.stack.last()) == ActionView::Invoke(
            peer_call(m.stack.last().program_id, m.stack.last().handles[0], m.stack.last().handles[1], arg),
        ),
        m.stack.last().depth + 1 + span(arg) <= w.max_depth,
        fib(arg as nat) <= u64::MAX,
        sound(m.memo),
    ensures
        sound(r.1),
        run(w, m, r.0) == (Machine {
            stack: resume_top(m.stack, fib(arg as nat) as u64, span(arg) + 1),
            staged: m.staged,
            memo: r.1,
            outcome: None,
        }),
    decreases arg, 1int,
{
    lemma_auto_spec_u64_to_from_le_bytes();
    let top = m.stack.last();
    let instr = peer_call(top.program_id, top.handles[0], top.handles[1], arg);
    lemma_call_is_admitted(w, p, m.stack, n, arg);
    let child = admit_call(w, m.stack, instr)->Ok_0;
    lemma_run_one(w, m);
    match recall(w.reuse, w.max_depth, m.memo, child) {
        Some(kept) => {
            lemma_found_is_kept(m.memo, child.instruction, (w.max_depth - child.depth) as nat);
            assert(spec_u64_from_le_bytes(kept.instruction.payload) == arg);
            (1, m.memo)
        },
        None => {
            let m1 = step(w, m);
            lemma_step_keeps_order(w, m);
            assert(m1.stack == m.stack.push(child));
            let (k1, memo1) = lemma_gather(w, p, m1, arg);
            let m2 = run(w, m1, k1);
            let done = gathered(child, arg);
            assert(m2.stack.last() == done);
            assert(m2.stack.drop_last() =~= m.stack);
            lemma_returns(done, p, arg);
            let m3 = step(w, m2);
            let memo3 = if w.reuse {
                memo1.push(MemoView { instruction: child.instruction, value: fib(arg as nat) as u64, height: span(arg) })
            } else {
                memo1
            };
            assert(m3.memo == memo3);
            assert(sound(memo3)) by {
                assert forall|i: int| 0 <= i < memo3.len() implies sound_entry(#[trigger] memo3[i]) by {
                    if i < memo1.len() {
                        assert(memo3[i] == memo1[i]);
                    }
                }
            }
            lemma_run_add(w, m, 1, k1);
            assert(run(w, m, 1 + k1 + 1) == step(w, run(w, m, 1 + k1)));
            (1 + k1 + 1, memo3)
        },
    }
}

/// A frame that holds its two numbers, or needs none, is done: it returns the
/// Fibonacci number of its argument, after it has recorded it where its peer
/// account is writable.
proof fn lemma_returns(f: FrameView, p: Pair, n: u64)
    requires
        calculates(f, p, n),
        fib(n as nat) <= u64::MAX,
        f.returned == gathered(f, n).returned,
    ensures
        frame_action(f) == if f.handles[0].is_writable {
            ActionView::Write(f.handles[0].key, spec_u64_to_le_bytes(fib(n as nat) as u64))
        } else {
            ActionView::Return(fib(n as nat) as u64)
        },
        frame_action(resumed(f, 0, 0)) == ActionView::Return(fib(n as nat) as u64),
{
    lemma_auto_spec_u64_to_from_le_bytes();
    assert(fib_step(n, f.returned) == Ok::<FibStep, ExecError>(FibStep::Done(fib(n as nat) as u64)));
    assert(fib_step(n, f.returned.push(0)) == Ok::<FibStep, ExecError>(FibStep::Done(fib(n as nat) as u64)));
}

/// A fresh frame of the calculator with room enough below it gathers the
/// Fibonacci numbers of the two arguments before its own, whatever frames are
/// open above it. The result names the moves that this takes and the values
/// that are kept after them.
proof fn lemma_gather(w: World, p: Pair, m: Machine, n: u64) -> (r: (nat, Seq<MemoView>))
    requires
        paired(w, p),
        m.outcome is None,
        m.stack.len() > 0,
        stack_ok(w.max_depth, m.stack),
        calculates(m.stack.last(), p, n),
        m.stack.last().returned.len() == 0,
        m.stack.last().height == 0,
        m.stack.last().depth + span(n) <= w.max_depth,
        fib(n as nat) <= u64::MAX,
        sound(m.memo),
    ensures
        sound(r.1),
        run(w, m, r.0) == (Machine {
            stack: m.stack.drop_last().push(gathered(m.stack.last(), n)),
            staged: m.staged,
            memo: r.1,
            outcome: None,
        }),
    decreases n, 0int,
{
    lemma_auto_spec_u64_to_from_le_bytes();
    let top = m.stack.last();
    if n <= 1 {
        assert(top.returned =~= Seq::<u64>::empty());
        assert(m.stack.drop_last().push(gathered(top, n)) =~= m.stack);
        (0, m.memo)
    } else {
        let first = (n - 1) as u64;
        let second = (n - 2) as u64;
        assert(fib(n as nat) == fib(first as nat) + fib(second as nat));
        assert(top.returned =~= Seq::<u64>::empty());
        let (k1, memo1) = lemma_operand(w, p, m, n, first);
        let m1 = run(w, m, k1);
        let top1 = resumed(top, fib(first as nat) as u64, span(first) + 1);
        assert(m1.stack.last() == top1);
        assert(top1.returned =~= seq![fib(first as nat) as u64]);
        assert(calculates(top1, p, n));
        assert(stack_ok(w.max_depth, m1.stack)) by {
            assert forall|i: int| 0 <= i < m1.stack.len() implies {
                &&& (#[trigger] m1.stack[i]).depth == i
                &&& m1.stack[i].depth + m1.stack[i].height <= w.max_depth
                &&& m1.stack[i].returned.len() <= crate::program::MAX_STEPS
                &&& (i < m1.stack.len() - 1 ==> m1.stack[i].returned.len() < crate::program::MAX_STEPS)
                &&& m1.stack[i].root_id == m1.stack[0].root_id
                &&& (i > 0 ==> crate::instruction::read_only(m1.stack[i].instruction.accounts))
                &&& m1.stack[i].parent == if i == 0 {
                    None::<usize>
                } else {
                    Some((i - 1) as usize)
                }
            } by {
                assert(m.stack[i].depth == i);
                assert(m.stack[0].depth == 0);
                if i < m1.stack.len() - 1 {
                    assert(m1.stack[i] == m.stack[i]);
                }
            }
        }
        let (k2, memo2) = lemma_operand(w, p, m1, n, second);
        let top2 = resumed(top1, fib(second as nat) as u64, span(second) + 1);
        assert(top2.returned =~= gathered(top, n).returned);
        assert(top2 == gathered(top, n));
        assert(resume_top(m1.stack, fib(second as nat) as u64, span(second) + 1) =~= m.stack.drop_last().push(
            gathered(top, n),
        ));
        lemma_run_add(w, m, k1, k2);
        (k1 + k2, memo2)
    }
}

/// The calculator computes the Fibonacci numbers. The call tree of a
/// top-level frame that runs one half of the calculator for `n`, with the
/// other half deployed beside it, ends with the Fibonacci number of `n`,
/// provided that the number fits in 64 bits and the depth limit leaves room
/// for the `n - 1` frames that are nested below the top-level frame. The
/// tree stages one write, the value for the peer account, where that
/// account is writable, and nothing else.
pub proof fn lemma_calculation_ends_well(w: World, p: Pair, staged: Seq<StagedWriteView>, top: FrameView, n: u64)
    requires
        paired(w, p),
        is_top_frame(top),
        calculates(top, p, n),
        handles_match(top.handles, top.instruction.accounts),
        span(n) <= w.max_depth,
        fib(n as nat) <= u64::MAX,
    ensures
        runs_to(w, start(staged, top), Ok(fib(n as nat) as u64), staged_after(staged, top, n)),
{
    let m = start(staged, top);
    assert(m.stack.last() == top);
    assert(sound(m.memo));
    let (k, memo1) = lemma_gather(w, p, m, n);
    let m1 = run(w, m, k);
    let done = gathered(top, n);
    assert(m1.stack =~= seq![done]);
    lemma_returns(done, p, n);
    let value = fib(n as nat) as u64;
    if top.handles[0].is_writable {
        assert(top.instruction.accounts[0].key == top.handles[0].key);
        assert(holds_writable(done.instruction.accounts, done.handles[0].key));
        let m2 = step(w, m1);
        assert(m2.stack =~= seq![resumed(done, 0, 0)]);
        let m3 = step(w, m2);
        assert(m3.outcome == Some(Ok::<u64, ExecError>(value)));
        assert(run(w, m, k + 1) == m2);
        assert(run(w, m, k + 2) == m3);
        assert(run(w, m, k + 2).staged == staged_after(staged, top, n));
    } else {
        let m2 = step(w, m1);
        assert(run(w, m, k + 1) == m2);
        assert(m2.outcome == Some(Ok::<u64, ExecError>(value)));
    }
}

/// A calculation that needs more nested frames than the depth limit allows
/// ends with `CallDepthExceeded` and stages nothing, whatever frames are
/// open above its frame, as long as no value is kept yet.
proof fn lemma_descends(w: World, p: Pair, m: Machine, n: u64) -> (k: nat)
    requires
        paired(w, p),
        m.outcome is None,
        m.stack.len() > 0,
        stack_ok(w.max_depth, m.stack),
        calculates(m.stack.last(), p, n),
        m.stack.last().returned.len() == 0,
        m.stack.last().depth + span(n) > w.max_depth,
        m.memo.len() == 0,
    ensures
        run(w, m, k).outcome == Some(Err::<u64, ExecError>(ExecError::CallDepthExceeded)),
        run(w, m, k).staged == m.staged,
    decreases n,
{
    lemma_auto_spec_u64_to_from_le_bytes();
    let top = m.stack.last();
    assert(m.stack[m.stack.len() - 1].depth == m.stack.len() - 1);
    assert(n >= 2);
    let first = (n - 1) as u64;
    assert(top.returned =~= Seq::<u64>::empty());
    let instr = peer_call(top.program_id, top.handles[0], top.handles[1], first);
    assert(frame_action(top) == ActionView::Invoke(instr));
    lemma_run_one(w, m);
    if top.depth >= w.max_depth {
        1
    } else {
        lemma_call_is_admitted(w, p, m.stack, n, first);
        let child = admit_call(w, m.stack, instr)->Ok_0;
        lemma_none_fits(m.memo, child.instruction, (w.max_depth - child.depth) as nat);
        let m1 = step(w, m);
        lemma_step_keeps_order(w, m);
        assert(m1.stack == m.stack.push(child));
        let k1 = lemma_descends(w, p, m1, first);
        lemma_run_add(w, m, 1, k1);
        1 + k1
    }
}

/// A call tree that exceeds the depth limit fails with `CallDepthExceeded`.
/// The call tree of a top-level frame that runs one half of the calculator
/// for `n`, where the `n - 1` frames nested below it do not fit under the
/// depth limit, ends with `CallDepthExceeded`, and nothing is staged.
pub proof fn lemma_calculation_too_deep(w: World, p: Pair, staged: Seq<StagedWriteView>, top: FrameView, n: u64)
    requires
        paired(w, p),
        is_top_frame(top),
        calculates(top, p, n),
        span(n) > w.max_depth,
    ensures
        runs_to(w, start(staged, top), Err(ExecError::CallDepthExceeded), staged),
{
    let m = start(staged, top);
    assert(m.stack.last() == top);
    let k = lemma_descends(w, p, m, n);
}

/// The instruction asks one half of the calculator for the Fibonacci number
/// of `n`: it names the account of the other half first and the rent account
/// second, and carries `n` as eight bytes, the lowest first.
pub open spec fn asks(i: InstructionView, p: Pair, n: u64) -> bool {
    &&& (i.program_id == p.left || i.program_id == p.right)
    &&& i.accounts.len() >= 2
    &&& i.accounts[0].key == other(p, i.program_id)
    &&& i.accounts[1].key == p.rent
    &&& i.payload == spec_u64_to_le_bytes(n)
}

/// The top-level frame that is opened for an instruction to the calculator
/// runs the calculation that the instruction asks for.
pub proof fn lemma_opened_frame_calculates(w: World, p: Pair, i: InstructionView, n: u64, root_id: u64)
    requires
        paired(w, p),
        asks(i, p, n),
        open_frame(w, i, None, 0, root_id) is Ok,
    ensures
        is_top_frame(open_frame(w, i, None, 0, root_id)->Ok_0),
        calculates(open_frame(w, i, None, 0, root_id)->Ok_0, p, n),
        handles_match(open_frame(w, i, None, 0, root_id)->Ok_0.handles, i.accounts),
        open_frame(w, i, None, 0, root_id)->Ok_0.instruction == i,
        open_frame(w, i, None, 0, root_id)->Ok_0.root_id == root_id,
{
}

/// The result of the calculator, whichever way its call tree was run: with
/// too little room under the depth limit it is `CallDepthExceeded`, and
/// nothing is staged; with room enough it is the Fibonacci number of `n`, if
/// that fits in 64 bits, and the one write for a writable peer account is
/// staged.
pub proof fn lemma_calculator_result(
    w: World,
    p: Pair,
    staged: Seq<StagedWriteView>,
    top: FrameView,
    n: u64,
    outcome: Result<u64, ExecError>,
    staged_end: Seq<StagedWriteView>,
)
    requires
        paired(w, p),
        is_top_frame(top),
        calculates(top, p, n),
        handles_match(top.handles, top.instruction.accounts),
        span(n) > w.max_depth || fib(n as nat) <= u64::MAX,
        runs_to(w, start(staged, top), outcome, staged_end),
    ensures
        outcome == if span(n) > w.max_depth {
            Err::<u64, ExecError>(ExecError::CallDepthExceeded)
        } else {
            Ok::<u64, ExecError>(fib(n as nat) as u64)
        },
        staged_end == if span(n) > w.max_depth {
            staged
        } else {
            staged_after(staged, top, n)
        },
{
    if span(n) > w.max_depth {
        lemma_calculation_too_deep(w, p, staged, top, n);
        lemma_one_end(w, start(staged, top), outcome, staged_end, Err(ExecError::CallDepthExceeded), staged);
    } else {
        lemma_calculation_ends_well(w, p, staged, top, n);
        lemma_one_end(
            w,
            start(staged, top),
            outcome,
            staged_end,
            Ok(fib(n as nat) as u64),
            staged_after(staged, top, n),
        );
    }
}

} // verus!
