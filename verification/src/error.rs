use vstd::prelude::*;

verus! {

/// Why a top-level instruction was aborted. Every reason is terminal for the
/// instruction: nothing is retried and nothing that was staged survives.
#[derive(Clone, Copy, Debug, PartialEq, Eq, Structural)]
pub enum ExecError {
    /// An account named by an instruction is not in the store.
    NotFound,
    /// The bytes are no instruction, or the instruction breaks a rule of the
    /// wire format or of the target program's account schema.
    MalformedInstruction,
    /// No entry point is registered under the program identifier.
    UnknownProgram,
    /// A frame staged a write to an account that it does not hold writable.
    PermissionDenied,
    /// A nested call was requested by a frame that already sits at the limit.
    CallDepthExceeded,
    /// A nested call asked for write or signer access that its caller lacks.
    PrivilegeEscalation,
    /// A nested call asked for write access to an account that a frame above
    /// it already holds writable.
    ReentrantMutation,
    /// The program body itself gave up.
    ProgramLogicError,
}

impl ExecError {
    /// The number of the reason, for callers that carry a reason as a number:
    /// the reasons are numbered from 1, in the order in which they are listed.
    pub fn code(&self) -> (c: u32)
        ensures
            c == error_code(*self),
    {
        match self {
            ExecError::NotFound => 1,
            ExecError::MalformedInstruction => 2,
            ExecError::UnknownProgram => 3,
            ExecError::PermissionDenied => 4,
            ExecError::CallDepthExceeded => 5,
            ExecError::PrivilegeEscalation => 6,
            ExecError::ReentrantMutation => 7,
            ExecError::ProgramLogicError => 8,
        }
    }

    /// The name of the reason, as it is written in logs and messages.
    pub fn name(&self) -> (s: &'static str)
        ensures
            s@ == error_name(*self),
    {
        match self {
            ExecError::NotFound => "NotFound",
            ExecError::MalformedInstruction => "MalformedInstruction",
            ExecError::UnknownProgram => "UnknownProgram",
            ExecError::PermissionDenied => "PermissionDenied",
            ExecError::CallDepthExceeded => "CallDepthExceeded",
            ExecError::PrivilegeEscalation => "PrivilegeEscalation",
            ExecError::ReentrantMutation => "ReentrantMutation",
            ExecError::ProgramLogicError => "ProgramLogicError",
        }
    }
}

pub open spec fn error_code(e: ExecError) -> u32 {
    match e {
        ExecError::NotFound => 1,
        ExecError::MalformedInstruction => 2,
        ExecError::UnknownProgram => 3,
        ExecError::PermissionDenied => 4,
        ExecError::CallDepthExceeded => 5,
        ExecError::PrivilegeEscalation => 6,
        ExecError::ReentrantMutation => 7,
        ExecError::ProgramLogicError => 8,
    }
}

pub open spec fn error_name(e: ExecError) -> Seq<char> {
    match e {
        ExecError::NotFound => "NotFound"@,
        ExecError::MalformedInstruction => "MalformedInstruction"@,
        ExecError::UnknownProgram => "UnknownProgram"@,
        ExecError::PermissionDenied => "PermissionDenied"@,
        ExecError::CallDepthExceeded => "CallDepthExceeded"@,
        ExecError::PrivilegeEscalation => "PrivilegeEscalation"@,
        ExecError::ReentrantMutation => "ReentrantMutation"@,
        ExecError::ProgramLogicError => "ProgramLogicError"@,
    }
}

} // verus!
