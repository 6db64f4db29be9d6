use vstd::prelude::*;

use crate::abi::{FunctionView, TypeTag};
use crate::dispatch::DispatchTable;

verus! {

/// Why a call by path was refused before reaching native code.
#[derive(Debug)]
pub enum InvokeError {
    /// No function answers this path.
    NotFound(String),
    /// The function takes the first count of arguments; the second was supplied.
    ArgumentCount(usize, usize),
    /// The argument at this index has the second type; the function expects the first.
    ArgumentType(usize, TypeTag, TypeTag),
    /// The function returns the first type; the caller asked for the second.
    ReturnType(TypeTag, TypeTag),
}

/// The mathematical value of a check's outcome: the address to call, or why not.
pub enum CallOutcome {
    Call(u64),
    NotFound,
    ArgumentCount(nat, nat),
    ArgumentType(int, TypeTag, TypeTag),
    ReturnType(TypeTag, TypeTag),
}

/// The first position at which `args` and `params` differ, at or after `from`.
pub open spec fn first_mismatch(params: Seq<TypeTag>, args: Seq<TypeTag>, from: int) -> Option<int>
    decreases params.len() - from,
{
    if from >= params.len() || from < 0 {
        None
    } else if params[from] != args[from] {
        Some(from)
    } else {
        first_mismatch(params, args, from + 1)
    }
}

/// What calling `f` with arguments of types `args`, expecting `ret`, comes to.
pub open spec fn check_call(f: FunctionView, args: Seq<TypeTag>, ret: TypeTag) -> CallOutcome {
    if f.params.len() != args.len() {
        CallOutcome::ArgumentCount(f.params.len(), args.len())
    } else {
        match first_mismatch(f.params, args, 0) {
            Some(i) => CallOutcome::ArgumentType(i, f.params[i], args[i]),
            None => if f.ret != ret {
                CallOutcome::ReturnType(f.ret, ret)
            } else {
                CallOutcome::Call(f.address)
            },
        }
    }
}

/// What a call by `path` against table `t` comes to.
pub open spec fn call_outcome(
    t: Map<Seq<char>, FunctionView>,
    path: Seq<char>,
    args: Seq<TypeTag>,
    ret: TypeTag,
) -> CallOutcome {
    if t.contains_key(path) {
        check_call(t[path], args, ret)
    } else {
        CallOutcome::NotFound
    }
}

/// The mathematical value of a result of [`resolve_call`].
pub open spec fn outcome_of(r: Result<u64, InvokeError>) -> CallOutcome {
    match r {
        Ok(a) => CallOutcome::Call(a),
        Err(InvokeError::NotFound(_)) => CallOutcome::NotFound,
        Err(InvokeError::ArgumentCount(e, s)) => CallOutcome::ArgumentCount(e as nat, s as nat),
        Err(InvokeError::ArgumentType(i, e, s)) => CallOutcome::ArgumentType(i as int, e, s),
        Err(InvokeError::ReturnType(e, s)) => CallOutcome::ReturnType(e, s),
    }
}

/// Checks a call of the function at `path` with arguments of types `args`,
/// expecting a result of type `ret`, and returns the native address to call.
/// The call itself is made by the caller; nothing is called here.
pub fn resolve_call(table: &DispatchTable, path: &String, args: &Vec<TypeTag>, ret: TypeTag) -> (r:
    Result<u64, InvokeError>)
    requires
        table.wf(),
    ensures
        outcome_of(r) == call_outcome(table@, path@, args@, ret),
        match r {
            Err(InvokeError::NotFound(q)) => q@ == path@,
            _ => true,
        },
{
    let info = match table.get(path) {
        Some(info) => info,
        None => {
            return Err(InvokeError::NotFound(path.clone()));
        },
    };
    let params = &info.signature.params;
    if params.len() != args.len() {
        return Err(InvokeError::ArgumentCount(params.len(), args.len()));
    }
    let mut i: usize = 0;
    while i < params.len()
        invariant
            table@.contains_key(path@),
            info@ == table@[path@],
            params@ == info@.params,
            params@.len() == args@.len(),
            i <= params@.len(),
            first_mismatch(params@, args@, 0) == first_mismatch(params@, args@, i as int),
        decreases params@.len() - i,
    {
        if params[i] != args[i] {
            assert(first_mismatch(params@, args@, i as int) == Some(i as int));
            return Err(InvokeError::ArgumentType(i, params[i], args[i]));
        }
        assert(first_mismatch(params@, args@, i as int) == first_mismatch(params@, args@, i + 1));
        i = i + 1;
    }
    assert(first_mismatch(params@, args@, i as int) is None);
    if info.signature.ret != ret {
        return Err(InvokeError::ReturnType(info.signature.ret, ret));
    }
    Ok(info.address)
}

/// Lets the outcome of an action be attempted again.
pub trait RetryResultExt: Sized {
    /// The value carried by a successful outcome.
    type Output;

    /// Attempts the action again, giving a new outcome of the same shape.
    fn retry(self) -> Self;

    /// Attempts the action until it succeeds, and returns the success value.
    fn wait(self) -> Self::Output;
}

} // verus!
