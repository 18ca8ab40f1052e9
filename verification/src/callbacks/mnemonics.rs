//! The handler of mnemonic keywords.

use crate::callbacks::handled;
use crate::ir::{AsmError, Mnemonic, Program, ProgramView};
use vstd::prelude::*;

verus! {

/// The state after a mnemonic: it becomes the line's instruction, unless
/// the line has one already or an operand came first.
pub open spec fn spec_insert_mnem(p: ProgramView, ins: Mnemonic) -> Result<ProgramView, AsmError> {
    if p.ins is Some {
        Err(AsmError::MultipleMnemonics)
    } else if p.op is Some {
        Err(AsmError::MnemonicAfterOperand)
    } else {
        Ok(ProgramView { ins: Some(ins), start_line: false, ..p })
    }
}

/// A mnemonic keyword, whichever it is.
pub fn insert_mnem(p: &mut Program, ins: Mnemonic) -> (r: Result<(), AsmError>)
    ensures
        handled(old(p)@, final(p)@, r, spec_insert_mnem(old(p)@, ins)),
        old(p)@.wf() ==> final(p)@.wf(),
{
    if p.ins.is_some() {
        Err(AsmError::MultipleMnemonics)
    } else if p.op.is_some() {
        Err(AsmError::MnemonicAfterOperand)
    } else {
        p.ins = Some(ins);
        p.start_line = false;
        Ok(())
    }
}

} // verus!
