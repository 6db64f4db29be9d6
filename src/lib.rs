//! Live-reload execution core: loads module metadata, publishes exported
//! functions into a dispatch table, links imports, hot-swaps modules on file
//! events, and checks typed invocations against published signatures.

pub mod abi;
pub mod dispatch;
pub mod invoke;
pub mod laws;
pub mod model;
pub mod runtime;

pub use crate::abi::{FunctionInfo, FunctionSignature, ModuleInfo, TypeTag};
pub use crate::dispatch::DispatchTable;
pub use crate::invoke::{resolve_call, InvokeError, RetryResultExt};
pub use crate::runtime::{
    Assembly, FileEvent, Runtime, RuntimeBuilder, RuntimeError, RuntimeOptions, DEFAULT_DELAY_MS,
};
