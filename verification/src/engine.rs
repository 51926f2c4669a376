use vstd::prelude::*;
use crate::account::{
    apply_writes, lemma_apply_writes_frame, lemma_writes_all, same_identities, staged_view, Account, AccountStore,
    AccountView, StagedWrite, StagedWriteView, distinct_keys, has_key, writes_touch,
};
use crate::dispatcher::{open_frame, runs_to, start, Dispatcher, World};
use crate::error::ExecError;
use crate::instruction::{holds_writable, well_formed, wire, Instruction, InstructionView};
use crate::key::Pubkey;
use crate::program::EntryPoint;
use crate::registry::ProgramRegistry;

verus! {

/// Where a top-level instruction stands on its way through the engine.
#[derive(Clone, Copy, Debug, PartialEq, Eq, Structural)]
pub enum EngineState {
    Pending,
    Decoding,
    Resolving,
    Executing,
    Committed,
    Aborted,
}

/// The state that follows `s`, where `ok` says whether the work of `s` went
/// well. `Committed` and `Aborted` are terminal: nothing leaves them.
pub open spec fn next_state(s: EngineState, ok: bool) -> EngineState {
    match s {
        EngineState::Pending => EngineState::Decoding,
        EngineState::Decoding => if ok { EngineState::Resolving } else { EngineState::Aborted },
        EngineState::Resolving => if ok { EngineState::Executing } else { EngineState::Aborted },
        EngineState::Executing => if ok { EngineState::Committed } else { EngineState::Aborted },
        EngineState::Committed => EngineState::Committed,
        EngineState::Aborted => EngineState::Aborted,
    }
}

pub open spec fn is_terminal(s: EngineState) -> bool {
    s == EngineState::Committed || s == EngineState::Aborted
}

/// The states that an instruction passes: it is decoded, its program is
/// resolved, it is executed, and it is committed; the first of these that
/// fails leads to `Aborted` instead.
pub open spec fn passage(decoded: bool, resolved: bool, ran: bool) -> Seq<EngineState> {
    if !decoded {
        seq![EngineState::Pending, EngineState::Decoding, EngineState::Aborted]
    } else if !resolved {
        seq![EngineState::Pending, EngineState::Decoding, EngineState::Resolving, EngineState::Aborted]
    } else if !ran {
        seq![
            EngineState::Pending,
            EngineState::Decoding,
            EngineState::Resolving,
            EngineState::Executing,
            EngineState::Aborted,
        ]
    } else {
        seq![
            EngineState::Pending,
            EngineState::Decoding,
            EngineState::Resolving,
            EngineState::Executing,
            EngineState::Committed,
        ]
    }
}

/// `b` is a state that follows `a`.
pub open spec fn follows(a: EngineState, b: EngineState) -> bool {
    b == next_state(a, true) || b == next_state(a, false)
}

/// Every passage starts in `Pending`, goes from each state to one that
/// follows it, and ends in a terminal state.
pub proof fn lemma_passage_follows(decoded: bool, resolved: bool, ran: bool)
    ensures
        passage(decoded, resolved, ran)[0] == EngineState::Pending,
        is_terminal(passage(decoded, resolved, ran).last()),
        forall|i: int|
            0 <= i < passage(decoded, resolved, ran).len() - 1 ==> follows(
                #[trigger] passage(decoded, resolved, ran)[i],
                passage(decoded, resolved, ran)[i + 1],
            ),
{
}

/// No transition leaves a terminal state.
pub proof fn lemma_terminal_stays(s: EngineState, ok: bool)
    requires
        is_terminal(s),
    ensures
        next_state(s, ok) == s,
{
}

impl EngineState {
    /// The state that follows, where `ok` says whether the work of this state
    /// went well.
    pub fn advance(self, ok: bool) -> (next: EngineState)
        ensures
            next == next_state(self, ok),
    {
        match self {
            EngineState::Pending => EngineState::Decoding,
            EngineState::Decoding => if ok { EngineState::Resolving } else { EngineState::Aborted },
            EngineState::Resolving => if ok { EngineState::Executing } else { EngineState::Aborted },
            EngineState::Executing => if ok { EngineState::Committed } else { EngineState::Aborted },
            EngineState::Committed => EngineState::Committed,
            EngineState::Aborted => EngineState::Aborted,
        }
    }

    /// Whether the state is `Committed` or `Aborted`.
    pub fn is_terminal(&self) -> (t: bool)
        ensures
            t == is_terminal(*self),
    {
        match self {
            EngineState::Committed => true,
            EngineState::Aborted => true,
            _ => false,
        }
    }
}

/// How a top-level instruction ended.
#[derive(Debug)]
pub struct ExecutionResult {
    /// The value that the program returned, or the reason of the abort.
    pub outcome: Result<u64, ExecError>,
    /// The writes that were committed, oldest first; none after an abort.
    pub mutations: Vec<StagedWrite>,
    /// The terminal state: `Committed` or `Aborted`.
    pub state: EngineState,
    /// The states that the instruction passed, `Pending` first.
    pub trace: Vec<EngineState>,
}

/// Drives top-level instructions, one at a time, from their wire format to a
/// commit or an abort.
#[derive(Debug)]
pub struct ExecutionEngine {
    registry: ProgramRegistry,
    store: AccountStore,
    dispatcher: Dispatcher,
    next_id: u64,
}

/// The mathematical value of an [`ExecutionEngine`].
pub struct EngineView {
    pub max_depth: nat,
    pub reuse: bool,
    pub programs: Map<Pubkey, EntryPoint>,
    pub accounts: Seq<AccountView>,
    /// The writes that wait in the store for a commit or a discard.
    pub staged: Seq<StagedWriteView>,
    /// The identifier that the next top-level frame gets.
    pub next_id: u64,
}

/// The bytes are the wire format of some well-formed instruction.
pub open spec fn decodes(raw: Seq<u8>) -> bool {
    exists|v: InstructionView| well_formed(v) && #[trigger] wire(v) == raw
}

/// The instruction whose wire format the bytes are.
pub open spec fn decoded(raw: Seq<u8>) -> InstructionView {
    choose|v: InstructionView| well_formed(v) && #[trigger] wire(v) == raw
}

/// What stays the same while the engine executes one instruction.
pub open spec fn world_of(e: EngineView) -> World {
    World { max_depth: e.max_depth, reuse: e.reuse, programs: e.programs, accounts: e.accounts }
}

/// The identifier after `id`; after the last one, the first again.
pub open spec fn following_id(id: u64) -> u64 {
    if id == u64::MAX {
        0
    } else {
        (id + 1) as u64
    }
}

impl View for ExecutionEngine {
    type V = EngineView;

    closed spec fn view(&self) -> EngineView {
        EngineView {
            max_depth: self.dispatcher.max_depth as nat,
            reuse: self.dispatcher.reuse,
            programs: self.registry@,
            accounts: self.store@.accounts,
            staged: self.store@.staged,
            next_id: self.next_id,
        }
    }
}

impl ExecutionEngine {
    /// The invariant of the engine: the accounts of its store have distinct
    /// keys, and between two instructions nothing is staged.
    pub open spec fn wf(&self) -> bool {
        distinct_keys(self@.accounts) && self@.staged == Seq::<StagedWriteView>::empty()
    }

    /// An engine without programs and without accounts.
    pub fn new(max_depth: usize, reuse: bool) -> (e: ExecutionEngine)
        ensures
            e.wf(),
            e@.max_depth == max_depth,
            e@.reuse == reuse,
            e@.programs == Map::<Pubkey, EntryPoint>::empty(),
            e@.accounts == Seq::<AccountView>::empty(),
            e@.next_id == 0,
    {
        ExecutionEngine {
            registry: ProgramRegistry::new(),
            store: AccountStore::new(),
            dispatcher: Dispatcher::new(max_depth, reuse),
            next_id: 0,
        }
    }

    /// Deploys a program; an identifier that is taken is refused.
    pub fn deploy(&mut self, program_id: Pubkey, entry: EntryPoint) -> (added: bool)
        requires
            old(self).wf(),
        ensures
            final(self).wf(),
            added == !old(self)@.programs.contains_key(program_id),
            final(self)@ == (EngineView {
                programs: if added {
                    old(self)@.programs.insert(program_id, entry)
                } else {
                    old(self)@.programs
                },
                ..old(self)@
            }),
    {
        self.registry.register(program_id, entry)
    }

    /// Adds an account; a key that is taken is refused.
    pub fn provision(&mut self, account: Account) -> (added: bool)
        requires
            old(self).wf(),
        ensures
            final(self).wf(),
            added == !has_key(old(self)@.accounts, account.key),
            final(self)@ == (EngineView {
                accounts: if added {
                    old(self)@.accounts.push(account@)
                } else {
                    old(self)@.accounts
                },
                ..old(self)@
            }),
    {
        self.store.provision(account)
    }

    /// The committed account with the key, or `NotFound`.
    pub fn account(&self, key: &Pubkey) -> (r: Result<&Account, ExecError>)
        requires
            self.wf(),
        ensures
            match r {
                Ok(a) => exists|i: int|
                    0 <= i < self@.accounts.len() && #[trigger] self@.accounts[i] == a@ && a.key == *key,
                Err(e) => e == ExecError::NotFound && !has_key(self@.accounts, *key),
            },
    {
        let r = self.store.get(key);
        proof {
            if let Ok(a) = r {
                let i = choose|i: int|
                    0 <= i < self.store@.accounts.len() && #[trigger] self.store@.accounts[i] == a@ && a.key == *key;
                assert(self@.accounts[i] == a@);
            }
        }
        r
    }

    /// The entry point of a deployed program, or `UnknownProgram`.
    pub fn resolve(&self, program_id: &Pubkey) -> (r: Result<EntryPoint, ExecError>)
        ensures
            r == if self@.programs.contains_key(*program_id) {
                Ok::<EntryPoint, ExecError>(self@.programs[*program_id])
            } else {
                Err::<EntryPoint, ExecError>(ExecError::UnknownProgram)
            },
    {
        self.registry.resolve(program_id)
    }

    /// The result of an instruction whose work failed in `state`.
    fn aborted(trace: Vec<EngineState>, state: EngineState, reason: ExecError) -> (res: ExecutionResult)
        requires
            state == EngineState::Decoding || state == EngineState::Resolving || state == EngineState::Executing,
        ensures
            res.outcome == Err::<u64, ExecError>(reason),
            res.mutations@.len() == 0,
            res.state == EngineState::Aborted,
            res.trace@ == trace@.push(EngineState::Aborted),
    {
        let mut trace = trace;
        let end = state.advance(false);
        trace.push(end);
        ExecutionResult { outcome: Err(reason), mutations: Vec::new(), state: end, trace }
    }

    /// Executes one top-level instruction, given in its wire format: it is
    /// decoded, its program is resolved, its frame is opened at depth 0 and
    /// its call tree is run; opening the frame is the first part of the
    /// execution. If the tree ends with a value, everything that it staged is
    /// committed at once; if anything fails, everything is discarded and the
    /// store is as it was before. Only accounts that the instruction names
    /// with write access can change.
    pub fn execute(&mut self, raw: &Vec<u8>) -> (res: ExecutionResult)
        requires
            old(self).wf(),
        ensures
            final(self).wf(),
            final(self)@ == (EngineView {
                accounts: final(self)@.accounts,
                next_id: following_id(old(self)@.next_id),
                ..old(self)@
            }),
            !decodes(raw@) ==> res.outcome == Err::<u64, ExecError>(ExecError::MalformedInstruction),
            decodes(raw@) ==> match open_frame(world_of(old(self)@), decoded(raw@), None, 0, old(self)@.next_id) {
                Err(e) => res.outcome == Err::<u64, ExecError>(e),
                Ok(top) => exists|staged: Seq<StagedWriteView>|
                    {
                        &&& #[trigger] runs_to(
                            world_of(old(self)@),
                            start(Seq::empty(), top),
                            res.outcome,
                            staged,
                        )
                        &&& res.outcome is Ok ==> staged == staged_view(res.mutations@)
                    },
            },
            res.outcome is Err ==> final(self)@.accounts == old(self)@.accounts && final(self)@.staged == old(
                self,
            )@.staged && res.mutations@.len() == 0,
            res.outcome is Ok ==> {
                &&& final(self)@.accounts == apply_writes(old(self)@.accounts, staged_view(res.mutations@))
                &&& same_identities(final(self)@.accounts, old(self)@.accounts)
                &&& forall|i: int|
                    0 <= i < old(self)@.accounts.len() && !holds_writable(
                        decoded(raw@).accounts,
                        (#[trigger] old(self)@.accounts[i]).key,
                    ) ==> final(self)@.accounts[i] == old(self)@.accounts[i]
            },
            forall|k: int|
                0 <= k < res.mutations@.len() ==> (#[trigger] res.mutations@[k]).frame_id == old(self)@.next_id
                    && holds_writable(decoded(raw@).accounts, res.mutations@[k].key),
            res.state == if res.outcome is Ok {
                EngineState::Committed
            } else {
                EngineState::Aborted
            },
            res.trace@ == passage(
                decodes(raw@),
                old(self)@.programs.contains_key(decoded(raw@).program_id),
                res.outcome is Ok,
            ),
    {
        let id = self.next_id;
        self.next_id = if id == u64::MAX { 0 } else { id + 1 };
        let ghost world = world_of(old(self)@);
        let mut trace: Vec<EngineState> = Vec::new();
        let mut state = EngineState::Pending;
        trace.push(state);
        state = state.advance(true);
        trace.push(state);
        let instr = match Instruction::decode(raw) {
            Err(e) => {
                assert(trace@.push(EngineState::Aborted) =~= passage(false, false, false));
                return Self::aborted(trace, state, e);
            },
            Ok(instr) => instr,
        };
        proof {
            assert(decodes(raw@));
            crate::instruction::lemma_wire_injective(instr@, decoded(raw@));
        }
        state = state.advance(true);
        trace.push(state);
        let entry = match self.registry.resolve(&instr.program_id) {
            Err(e) => {
                assert(trace@.push(EngineState::Aborted) =~= passage(true, false, false));
                return Self::aborted(trace, state, e);
            },
            Ok(entry) => entry,
        };
        state = state.advance(true);
        trace.push(state);
        assert(trace@.push(EngineState::Aborted) =~= passage(true, true, false));
        assert(trace@.push(EngineState::Committed) =~= passage(true, true, true));
        let ghost granted = instr@.accounts;
        let top = match self.dispatcher.bind(&self.store, entry, instr, None, 0, id) {
            Err(e) => {
                return Self::aborted(trace, state, e);
            },
            Ok(top) => top,
        };
        let ghost before = self.store@;
        match self.dispatcher.dispatch(&self.registry, &mut self.store, top) {
            Err(e) => {
                proof {
                    lemma_writes_all(self.store@.staged, id);
                }
                self.store.discard(id);
                Self::aborted(trace, state, e)
            },
            Ok(v) => {
                let ghost staged = self.store@.staged;
                proof {
                    lemma_writes_all(staged, id);
                    lemma_apply_writes_frame(before.accounts, staged);
                    assert forall|i: int|
                        0 <= i < before.accounts.len() && !holds_writable(granted, (#[trigger] before.accounts[i]).key) implies !writes_touch(
                        staged,
                        before.accounts[i].key,
                    ) by {
                        if writes_touch(staged, before.accounts[i].key) {
                            let k = choose|k: int| 0 <= k < staged.len() && (#[trigger] staged[k]).key == before.accounts[i].key;
                            assert(holds_writable(granted, staged[k].key));
                        }
                    }
                }
                let mutations = self.store.pending(id);
                assert forall|k: int| 0 <= k < mutations@.len() implies (#[trigger] mutations@[k]).frame_id == id
                    && holds_writable(granted, mutations@[k].key) by {
                    assert(staged_view(mutations@)[k] == mutations@[k]@);
                    assert(staged[k].frame_id == id);
                }
                self.store.commit(id);
                state = state.advance(true);
                trace.push(state);
                ExecutionResult { outcome: Ok(v), mutations, state, trace }
            },
        }
    }
}

} // verus!
