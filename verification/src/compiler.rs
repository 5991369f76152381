//! The boundary to the native code generator: it takes ownership of a
//! finalized operation sequence and hands it out read-only. Lowering to
//! machine code goes through an external toolchain and happens outside this
//! crate.

use vstd::prelude::*;

use crate::ir::{IntermRep, Operation};

verus! {

/// Holds a finalized operation sequence for the native backend.
pub struct Compiler {
    ir: IntermRep,
}

impl Compiler {
    /// The operation sequence handed over for lowering.
    pub closed spec fn program(&self) -> Seq<Operation> {
        self.ir@
    }

    pub fn new(ir: IntermRep) -> (r: Compiler)
        ensures
            r.program() == ir@,
    {
        Compiler { ir }
    }

    /// The held operations, for a backend to walk.
    pub fn operations(&self) -> (r: &Vec<Operation>)
        ensures
            r@ == self.program(),
    {
        &self.ir.operations
    }
}

} // verus!
