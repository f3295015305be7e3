use vstd::prelude::*;

verus! {

/// The kernel operation that failed.
#[derive(Clone, Copy, Debug, PartialEq, Eq, Structural)]
pub enum KernelOp {
    TaskInspection,
    ThreadInspection,
    MemoryRead,
    SuspendResume,
    PortRight,
}

/// A failed kernel call: which operation, and the raw status code it returned.
#[derive(Clone, Copy, Debug, PartialEq, Eq, Structural)]
pub struct KernelError {
    pub op: KernelOp,
    pub code: i32,
}

impl KernelError {
    pub fn new(op: KernelOp, code: i32) -> (r: KernelError)
        ensures
            r.op == op,
            r.code == code,
    {
        KernelError { op, code }
    }

    pub fn op(&self) -> (r: KernelOp)
        ensures
            r == self.op,
    {
        self.op
    }

    pub fn code(&self) -> (r: i32)
        ensures
            r == self.code,
    {
        self.code
    }
}

} // verus!
