//! Compilation targets: a function of the host program, identified by its address, whose
//! code is compiled on its first run and reused afterwards; and the shapes of argument
//! lists that compiled code can be called with.

use vstd::prelude::*;

verus! {

/// A function of the host program that is run through compiled code.
pub struct JitTarget {
    /// The address of the host function.
    pub target_function: usize,
    /// The number of arguments that the host function takes.
    pub num_args: i32,
    /// The address of the compiled code, once it has been compiled.
    pub jitted: Option<usize>,
}

impl JitTarget {
    /// A target for the host function at `target_function`, not compiled yet.
    pub fn new(target_function: usize, num_args: i32) -> (r: JitTarget)
        ensures
            r == (JitTarget { target_function, num_args, jitted: None }),
    {
        JitTarget { target_function, num_args, jitted: None }
    }

    /// Whether the target still has to be compiled before it runs.
    pub fn needs_code(&self) -> (r: bool)
        ensures
            r == self.jitted is None,
    {
        self.jitted.is_none()
    }

    /// Records the code compiled for the target.
    pub fn record_code(&mut self, code: usize)
        requires
            old(self).jitted is None,
        ensures
            *final(self) == spec_recorded(*old(self), code),
    {
        self.jitted = Some(code);
    }

    /// The compiled code of the target, once it has been compiled.
    pub fn code(&self) -> (r: Option<usize>)
        ensures
            r == self.jitted,
    {
        self.jitted
    }
}

/// The target `t` once `code` is recorded as its compiled code.
pub open spec fn spec_recorded(t: JitTarget, code: usize) -> JitTarget {
    JitTarget { jitted: Some(code), ..t }
}

/// A target is compiled at most once: once code is recorded for it, it needs no more code,
/// and it runs the recorded code.
pub proof fn law_target_compiled_once(t: JitTarget, code: usize)
    requires
        t.jitted is None,
    ensures
        !(spec_recorded(t, code).jitted is None),
        spec_recorded(t, code).jitted == Some(code),
        spec_recorded(t, code).target_function == t.target_function,
        spec_recorded(t, code).num_args == t.num_args,
{
}

/// The argument list that compiled code is called with.
#[derive(PartialEq, Eq, Structural, Clone, Copy, Debug)]
pub enum CallShape {
    /// No argument.
    NoArgs,
    /// One argument, passed as a signed 64-bit integer.
    OneArg(i64),
}

/// The argument list for calling compiled code with `params`: compiled code takes at most
/// one argument, whose bits are passed unchanged as a signed integer.
pub fn call_shape(params: &[u64]) -> (r: CallShape)
    requires
        params@.len() <= 1,
    ensures
        params@.len() == 0 ==> r == CallShape::NoArgs,
        params@.len() == 1 ==> r == CallShape::OneArg(params@[0] as i64),
{
    if params.len() == 0 {
        CallShape::NoArgs
    } else {
        CallShape::OneArg(params[0] as i64)
    }
}

} // verus!
