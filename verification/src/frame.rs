use vstd::prelude::*;
use crate::instruction::{AccountMeta, Instruction, InstructionView};
use crate::key::Pubkey;
use crate::program::EntryPoint;

verus! {

/// What a program sees of one account that its instruction names: who it is,
/// which program owns it, the payload as it was committed when the frame was
/// opened, and the access granted for this call.
#[derive(Clone, Debug, PartialEq, Eq)]
pub struct AccountHandle {
    pub key: Pubkey,
    pub owner: Pubkey,
    pub data: Vec<u8>,
    pub is_writable: bool,
    pub is_signer: bool,
}

/// The mathematical value of an [`AccountHandle`].
pub struct HandleView {
    pub key: Pubkey,
    pub owner: Pubkey,
    pub data: Seq<u8>,
    pub is_writable: bool,
    pub is_signer: bool,
}

impl View for AccountHandle {
    type V = HandleView;

    open spec fn view(&self) -> HandleView {
        HandleView {
            key: self.key,
            owner: self.owner,
            data: self.data@,
            is_writable: self.is_writable,
            is_signer: self.is_signer,
        }
    }
}

/// The values of a list of handles.
pub open spec fn handles_view(handles: Seq<AccountHandle>) -> Seq<HandleView> {
    Seq::new(handles.len(), |i: int| handles[i]@)
}

/// One level of nested program execution within a call tree.
#[derive(Clone, Debug, PartialEq, Eq)]
pub struct CallFrame {
    /// The program that runs in this frame.
    pub program_id: Pubkey,
    /// The instruction that opened the frame.
    pub instruction: Instruction,
    /// Position of the calling frame in the frame stack; `None` for the frame
    /// of a top-level instruction. It is for lookup only.
    pub parent: Option<usize>,
    /// Number of frames between this one and the top-level frame.
    pub depth: usize,
    /// Identifier of the top-level frame of the call tree: staged writes are
    /// buffered under it.
    pub root_id: u64,
    /// The entry point that the registry gave for the program.
    pub entry: EntryPoint,
    /// One handle for each account reference of the instruction, in order.
    pub handles: Vec<AccountHandle>,
    /// What the program was resumed with so far: the value of each nested call
    /// that returned, and a zero for each write that was staged.
    pub returned: Vec<u64>,
    /// The longest chain of nested frames that was opened below this one.
    pub height: usize,
}

/// The mathematical value of a [`CallFrame`].
pub struct FrameView {
    pub program_id: Pubkey,
    pub instruction: InstructionView,
    pub parent: Option<usize>,
    pub depth: nat,
    pub root_id: u64,
    pub entry: EntryPoint,
    pub handles: Seq<HandleView>,
    pub returned: Seq<u64>,
    pub height: nat,
}

impl View for CallFrame {
    type V = FrameView;

    open spec fn view(&self) -> FrameView {
        FrameView {
            program_id: self.program_id,
            instruction: self.instruction@,
            parent: self.parent,
            depth: self.depth as nat,
            root_id: self.root_id,
            entry: self.entry,
            handles: handles_view(self.handles@),
            returned: self.returned@,
            height: self.height as nat,
        }
    }
}

/// The handle at each position carries the key and the flags of the
/// instruction's reference at that position.
pub open spec fn handles_match(handles: Seq<HandleView>, accounts: Seq<AccountMeta>) -> bool {
    &&& handles.len() == accounts.len()
    &&& forall|i: int|
        0 <= i < handles.len() ==> (#[trigger] handles[i]).key == accounts[i].key && handles[i].is_writable
            == accounts[i].is_writable && handles[i].is_signer == accounts[i].is_signer
}

/// The values of the frames of a stack, the top-level frame first.
pub open spec fn frames_view(stack: Seq<CallFrame>) -> Seq<FrameView> {
    Seq::new(stack.len(), |i: int| stack[i]@)
}

/// The frame after it was resumed with `value`, where the nested work that
/// gave the value reached `reach` frames below this one.
pub open spec fn resumed(f: FrameView, value: u64, reach: nat) -> FrameView {
    FrameView {
        program_id: f.program_id,
        instruction: f.instruction,
        parent: f.parent,
        depth: f.depth,
        root_id: f.root_id,
        entry: f.entry,
        handles: f.handles,
        returned: f.returned.push(value),
        height: if f.height < reach { reach } else { f.height },
    }
}

impl CallFrame {
    /// The frame that called this one, looked up in the stack of open frames
    /// through the parent reference; nothing for a top-level frame, or where
    /// the reference leads out of the stack.
    pub fn caller<'a>(&self, stack: &'a Vec<CallFrame>) -> (r: Option<&'a CallFrame>)
        ensures
            match self.parent {
                Some(at) => if at < stack.len() {
                    r == Some(&stack[at as int])
                } else {
                    r is None
                },
                None => r is None,
            },
    {
        match self.parent {
            Some(at) => if at < stack.len() {
                Some(&stack[at])
            } else {
                None
            },
            None => None,
        }
    }

    /// Resumes the frame with `value`, where the nested work that gave the
    /// value reached `reach` frames below this one.
    pub fn resume(&mut self, value: u64, reach: usize)
        ensures
            final(self)@ == resumed(old(self)@, value, reach as nat),
    {
        self.returned.push(value);
        if self.height < reach {
            self.height = reach;
        }
    }
}

} // verus!
