//! A small execution core for on-chain programs: an account store with staged
//! writes, an instruction decoder, a program registry, a dispatcher for nested
//! cross-program calls and an engine that commits or aborts one instruction.

pub mod account;
pub mod calculator;
pub mod dispatcher;
pub mod engine;
pub mod error;
pub mod frame;
pub mod instruction;
pub mod key;
pub mod locks;
pub mod program;
pub mod registry;
