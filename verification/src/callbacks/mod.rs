//! The handlers that the scanner calls, one per kind of token. Each takes
//! the assembly state from before the token to the state after it, or
//! refuses the token and leaves the state as it was.

use crate::callbacks::labels::{
    child_label, label, spec_child_label, spec_label, spec_vis, vis_global, vis_object,
};
use crate::callbacks::mnemonics::{insert_mnem, spec_insert_mnem};
use crate::callbacks::operands::{
    acc, byte_high, byte_low, comma, imme, lparen, number, rparen, spec_acc,
    spec_comma, spec_imme, spec_lparen, spec_number, spec_rparen, spec_select, spec_xreg,
    spec_yreg, xreg, yreg,
};
use crate::codec::{lemma_index_of, spec_index_of};
use crate::ir::{
    name_eq, section_views, AddressMode, AsmError, ByteSelect, Mnemonic, OpState, OpVal, Program,
    ProgramView, Reference, Section, SectionView, Visibility, MAX_CODE,
};
use crate::opcodes::{opcode, spec_opcode};
use crate::token::Token;
use vstd::prelude::*;
use vstd::slice::slice_subrange;

pub mod labels;
pub mod mnemonics;
pub mod operands;

verus! {

/// What a handler owes: on success the state that `want` names, on failure
/// the error that `want` names and the state unchanged.
pub open spec fn handled(
    pre: ProgramView,
    post: ProgramView,
    r: Result<(), AsmError>,
    want: Result<ProgramView, AsmError>,
) -> bool {
    match want {
        Ok(v) => r is Ok && post == v,
        Err(e) => r == Err::<(), AsmError>(e) && post == pre,
    }
}

/// The state after an operand token: the operand replaced, all else kept.
pub open spec fn op_outcome(p: ProgramView, next: Result<OpState, AsmError>) -> Result<
    ProgramView,
    AsmError,
> {
    match next {
        Ok(op) => Ok(p.with_op(op)),
        Err(e) => Err(e),
    }
}

/// The names of the sections, in order.
pub open spec fn section_names(sections: Seq<SectionView>) -> Seq<[u8; 32]> {
    Seq::new(sections.len(), |i: int| sections[i].name)
}

/// The index of the first of `sections` that has the given name.
pub open spec fn spec_find_section(sections: Seq<SectionView>, name: [u8; 32]) -> Option<int> {
    spec_index_of(section_names(sections), name)
}

/// What `spec_find_section` finds: the first section of that name, or
/// nothing where no section has it.
pub proof fn lemma_find_section(sections: Seq<SectionView>, name: [u8; 32])
    ensures
        match spec_find_section(sections, name) {
            Some(i) => 0 <= i < sections.len() && sections[i].name == name && forall|j: int|
                0 <= j < i ==> (#[trigger] sections[j]).name != name,
            None => forall|j: int|
                0 <= j < sections.len() ==> (#[trigger] sections[j]).name != name,
        },
{
    let names = section_names(sections);
    lemma_index_of(names, name);
    match spec_find_section(sections, name) {
        Some(i) => {
            assert forall|j: int| 0 <= j < i implies (#[trigger] sections[j]).name != name by {
                assert(names[j] != name);
            }
        },
        None => {
            assert forall|j: int| 0 <= j < sections.len() implies (#[trigger] sections[j]).name
                != name by {
                assert(names[j] != name);
            }
        },
    }
}

fn find_section(sections: &Vec<Section>, name: &[u8; 32]) -> (r: Option<usize>)
    ensures
        match r {
            Some(i) => spec_find_section(section_views(sections@), *name) == Some(i as int),
            None => spec_find_section(section_views(sections@), *name) is None,
        },
{
    let ghost views = section_views(sections@);
    let mut i: usize = 0;
    while i < sections.len()
        invariant
            i <= sections@.len(),
            views == section_views(sections@),
            forall|j: int| 0 <= j < i ==> (#[trigger] views[j]).name != *name,
        decreases sections@.len() - i,
    {
        if name_eq(&sections[i].name, name) {
            proof {
                lemma_find_section(views, *name);
                assert(views[i as int].name == *name);
            }
            return Some(i);
        }
        i += 1;
    }
    proof {
        lemma_find_section(views, *name);
    }
    None
}

/// The state at the start of the next line: the line counted, nothing on it.
pub open spec fn next_line(p: ProgramView) -> ProgramView {
    ProgramView {
        line: if p.line < usize::MAX {
            (p.line + 1) as usize
        } else {
            p.line
        },
        vis: None,
        start_line: true,
        ins: None,
        op: None,
        ..p
    }
}

/// The state with the named section active; a name not seen before gets an
/// empty section behind the others.
pub open spec fn switch_section(p: ProgramView, name: [u8; 32]) -> ProgramView {
    match spec_find_section(p.sections, name) {
        Some(i) => ProgramView { active: i as usize, ..p },
        None => ProgramView {
            sections: p.sections.push(SectionView::empty(name)),
            active: p.sections.len() as usize,
            ..p
        },
    }
}

/// The bytes of a value in the code: a byte, or a word with its low byte first.
pub open spec fn value_bytes(v: OpVal) -> Seq<u8> {
    match v {
        OpVal::Byte(b) => seq![b],
        OpVal::Word(w) => seq![(w % 256) as u8, (w / 256) as u8],
        OpVal::Ref(_) => Seq::empty(),
    }
}

/// The bytes that a statement other than `sct` adds to the code. `dfb`
/// takes a plain byte-wide value and `dfw` a plain word-wide one, and each
/// writes just the value. An instruction writes its opcode for the mode
/// that the operand finishes in, then the value unless the mode is implied
/// or the accumulator. A reference is written as zeros.
pub open spec fn spec_statement(ins: Mnemonic, op: OpState) -> Result<Seq<u8>, AsmError> {
    if ins == Mnemonic::Dfb {
        match op {
            OpState::Plain(v) => if v.spec_is_word() {
                Err(AsmError::InvalidDfb)
            } else {
                Ok(value_bytes(v.spec_placeholder()))
            },
            _ => Err(AsmError::InvalidDfb),
        }
    } else if ins == Mnemonic::Dfw {
        match op {
            OpState::Plain(v) => if v.spec_is_word() {
                Ok(value_bytes(v.spec_placeholder()))
            } else {
                Err(AsmError::InvalidDfw)
            },
            _ => Err(AsmError::InvalidDfw),
        }
    } else {
        match op.spec_destruct() {
            None => Err(AsmError::InvalidOperand),
            Some((mode, v)) => match spec_opcode(ins, mode) {
                None => Err(AsmError::InvalidCombination),
                Some(opc) => Ok(
                    if mode == AddressMode::Impl || mode == AddressMode::Acc {
                        seq![opc]
                    } else {
                        seq![opc] + value_bytes(v)
                    },
                ),
            },
        }
    }
}

/// The state after the end of a line. A line without a mnemonic adds
/// nothing. `sct` takes a plain reference without child or byte selector
/// and makes the section of that name active, a new and empty one if no
/// section has the name; every section there was stays as it is, with the
/// reference that the name began. Any other statement adds its bytes to
/// the active section, if they fit under the limit, and leaves the
/// references as they are: the reference of its operand is among them
/// since it was read. Then the next line starts.
pub open spec fn spec_eol(p: ProgramView) -> Result<ProgramView, AsmError> {
    match p.ins {
        None => Ok(next_line(p)),
        Some(ins) => {
            let op = match p.op {
                Some(op) => op,
                None => OpState::Impl,
            };
            if ins == Mnemonic::Sct {
                match op {
                    OpState::Plain(OpVal::Ref(rf)) => if rf.child is Some {
                        Err(AsmError::SctChild)
                    } else if !rf.spec_is_word() {
                        Err(AsmError::InvalidSct)
                    } else {
                        Ok(next_line(switch_section(p, rf.parent)))
                    },
                    _ => Err(AsmError::InvalidSct),
                }
            } else {
                match spec_statement(ins, op) {
                    Err(e) => Err(e),
                    Ok(bytes) => if p.current().code.len() + bytes.len() > MAX_CODE {
                        Err(AsmError::ProgramTooLarge)
                    } else {
                        Ok(next_line(p.with_current(p.current().with_code(bytes))))
                    },
                }
            }
        },
    }
}

/// The bytes of a statement settle the reference of its line: with them
/// the reference lies in the code, and the section is well formed again.
pub proof fn lemma_statement_settles(p: ProgramView)
    requires
        p.wf(),
        p.ins matches Some(ins) && ins != Mnemonic::Sct,
        spec_eol(p) is Ok,
    ensures
        ({
            let op = match p.op {
                Some(op) => op,
                None => OpState::Impl,
            };
            let after = p.current().with_code(spec_statement(p.ins->0, op)->Ok_0);
            &&& after.wf()
            &&& p.pending() matches Some(rf) ==> rf.offset + rf.width() <= after.code.len()
        }),
{
    let op = match p.op {
        Some(op) => op,
        None => OpState::Impl,
    };
    let s = p.current();
    let after = s.with_code(spec_statement(p.ins->0, op)->Ok_0);
    match p.pending() {
        Some(rf) => {
            let settled = s.without_last_reference();
            assert(settled.wf());
            assert forall|i: int| 0 <= i < after.references.len() implies {
                &&& (#[trigger] after.references[i]).offset <= after.code.len()
                &&& after.references[i].names_terminated()
            } by {
                if i < after.references.len() - 1 {
                    assert(settled.references[i] == after.references[i]);
                }
            }
            assert forall|i: int| 0 <= i < after.labels.len() implies {
                &&& (#[trigger] after.labels[i]).offset <= after.code.len()
                &&& after.labels[i].name@[31] == 0
            } by {
                assert(settled.labels[i] == after.labels[i]);
            }
        },
        None => {
            assert(s.wf());
        },
    }
}

/// The end of an `sct` line with a plain name makes the section of that
/// name active: the first section of the name if there is one, and else a
/// new and empty one behind the others. Every section there was stays
/// exactly as it is, and no byte is added.
pub proof fn lemma_section_switch(p: ProgramView, rf: Reference)
    requires
        p.ins == Some(Mnemonic::Sct),
        p.op == Some(OpState::Plain(OpVal::Ref(rf))),
        rf.child is None,
        rf.spec_is_word(),
        p.sections.len() < usize::MAX,
    ensures
        spec_eol(p) matches Ok(q) && {
            &&& q.sections.len() >= p.sections.len()
            &&& forall|i: int| 0 <= i < p.sections.len() ==> q.sections[i] == p.sections[i]
            &&& q.active < q.sections.len()
            &&& q.current().name == rf.parent
            &&& forall|i: int| 0 <= i < q.active ==> (#[trigger] q.sections[i]).name != rf.parent
            &&& q.active >= p.sections.len() ==> q.sections.len() == p.sections.len() + 1
                && q.current() == SectionView::empty(rf.parent)
            &&& q.ins is None && q.op is None && q.vis is None && q.start_line
        },
{
    lemma_find_section(p.sections, rf.parent);
}

/// The reference of a section name may stay where its line stood: it
/// starts at the end of the code, so the section is well formed with it.
pub proof fn lemma_section_name_settles(p: ProgramView)
    requires
        p.wf(),
        p.ins == Some(Mnemonic::Sct),
        p.pending() is Some,
    ensures
        p.current().wf(),
{
    let s = p.current();
    let settled = s.without_last_reference();
    assert(settled.wf());
    assert forall|i: int| 0 <= i < s.references.len() implies {
        &&& (#[trigger] s.references[i]).offset <= s.code.len()
        &&& s.references[i].names_terminated()
    } by {
        if i < s.references.len() - 1 {
            assert(settled.references[i] == s.references[i]);
        }
    }
}

fn push_value(bytes: &mut Vec<u8>, v: OpVal)
    requires
        !(v is Ref),
    ensures
        final(bytes)@ == old(bytes)@ + value_bytes(v),
{
    match v {
        OpVal::Byte(b) => {
            bytes.push(b);
            assert(bytes@ =~= old(bytes)@ + value_bytes(v));
        },
        OpVal::Word(w) => {
            bytes.push((w % 256) as u8);
            bytes.push((w / 256) as u8);
            assert(bytes@ =~= old(bytes)@ + value_bytes(v));
        },
        OpVal::Ref(_) => {},
    }
}

fn statement(ins: Mnemonic, op: OpState) -> (r: Result<Vec<u8>, AsmError>)
    ensures
        match spec_statement(ins, op) {
            Ok(bytes) => r is Ok && r->Ok_0@ == bytes,
            Err(e) => r == Err::<Vec<u8>, AsmError>(e),
        },
{
    let mut bytes: Vec<u8> = Vec::new();
    match ins {
        Mnemonic::Dfb => match op {
            OpState::Plain(v) => if v.is_word() {
                return Err(AsmError::InvalidDfb);
            } else {
                push_value(&mut bytes, v.placeholder());
            },
            _ => return Err(AsmError::InvalidDfb),
        },
        Mnemonic::Dfw => match op {
            OpState::Plain(v) => if v.is_word() {
                push_value(&mut bytes, v.placeholder());
            } else {
                return Err(AsmError::InvalidDfw);
            },
            _ => return Err(AsmError::InvalidDfw),
        },
        _ => match op.destruct() {
            None => return Err(AsmError::InvalidOperand),
            Some((mode, v)) => match opcode(ins, mode) {
                None => return Err(AsmError::InvalidCombination),
                Some(opc) => {
                    bytes.push(opc);
                    assert(bytes@ =~= seq![opc]);
                    match mode {
                        AddressMode::Impl | AddressMode::Acc => {},
                        _ => push_value(&mut bytes, v),
                    }
                },
            },
        },
    }
    Ok(bytes)
}

fn start_next_line(p: &mut Program)
    ensures
        final(p)@ == next_line(old(p)@),
{
    if p.line < usize::MAX {
        p.line = p.line + 1;
    }
    p.vis = None;
    p.start_line = true;
    p.ins = None;
    p.op = None;
}

/// The end of a line: the statement on it is encoded into the active section.
pub fn eol(p: &mut Program) -> (r: Result<(), AsmError>)
    requires
        old(p)@.wf(),
    ensures
        handled(old(p)@, final(p)@, r, spec_eol(old(p)@)),
        final(p)@.wf(),
{
    let ins = match p.ins {
        None => {
            start_next_line(p);
            return Ok(());
        },
        Some(ins) => ins,
    };
    let op = match p.op {
        Some(op) => op,
        None => OpState::Impl,
    };
    match ins {
        Mnemonic::Sct => {
            let rf = match op {
                OpState::Plain(OpVal::Ref(rf)) => rf,
                _ => return Err(AsmError::InvalidSct),
            };
            if rf.child.is_some() {
                return Err(AsmError::SctChild);
            }
            if !rf.is_word() {
                return Err(AsmError::InvalidSct);
            }
            proof {
                lemma_find_section(old(p)@.sections, rf.parent);
                lemma_section_name_settles(old(p)@);
            }
            match find_section(&p.sections, &rf.parent) {
                Some(i) => {
                    p.active = i;
                },
                None => {
                    p.active = p.sections.len();
                    p.sections.push(Section::new(rf.parent));
                    assert(p@.sections =~= old(p)@.sections.push(SectionView::empty(rf.parent)));
                },
            }
            start_next_line(p);
            Ok(())
        },
        _ => {
            let bytes = statement(ins, op)?;
            let active = p.active;
            if p.sections[active].code.len() + bytes.len() > MAX_CODE {
                return Err(AsmError::ProgramTooLarge);
            }
            let ghost before = p.sections[active as int]@;
            let mut i: usize = 0;
            while i < bytes.len()
                invariant
                    i <= bytes@.len(),
                    active < p.sections@.len(),
                    p.sections@.len() == old(p).sections@.len(),
                    forall|k: int|
                        0 <= k < p.sections@.len() && k != active ==> p.sections@[k]
                            == old(p).sections@[k],
                    p.sections@[active as int]@ == (SectionView {
                        code: before.code + bytes@.take(i as int),
                        ..before
                    }),
                    p.line == old(p).line,
                    p.active == old(p).active,
                    p.vis == old(p).vis,
                    p.start_line == old(p).start_line,
                    p.ins == old(p).ins,
                    p.op == old(p).op,
                decreases bytes@.len() - i,
            {
                p.sections[active].code.push(bytes[i]);
                i += 1;
                assert(before.code + bytes@.take(i as int) =~= (before.code + bytes@.take(
                    i - 1,
                )).push(bytes@[i - 1]));
            }
            assert(bytes@.take(i as int) =~= bytes@);
            start_next_line(p);
            proof {
                let want = spec_eol(old(p)@)->Ok_0;
                assert(p@.sections =~= want.sections);
                lemma_statement_settles(old(p)@);
            }
            Ok(())
        },
    }
}

/// The state after a token, given by its kind and its text: the
/// transition that the token's handler makes. An identifier that starts
/// with a dot is a child name.
pub open spec fn spec_step(p: ProgramView, token: Token, text: Seq<u8>) -> Result<
    ProgramView,
    AsmError,
> {
    match token {
        Token::Mnem(ins) => spec_insert_mnem(p, ins),
        Token::A => op_outcome(p, spec_acc(p.op)),
        Token::X => op_outcome(p, spec_xreg(p.op)),
        Token::Y => op_outcome(p, spec_yreg(p.op)),
        Token::Comma => op_outcome(p, spec_comma(p.op)),
        Token::Imme => op_outcome(p, spec_imme(p.op)),
        Token::Lparen => op_outcome(p, spec_lparen(p.op)),
        Token::Rparen => op_outcome(p, spec_rparen(p.op)),
        Token::ByteHi => spec_select(p, ByteSelect::High),
        Token::ByteLo => spec_select(p, ByteSelect::Low),
        Token::VisObj => spec_vis(p, Visibility::Object),
        Token::VisGlobal => spec_vis(p, Visibility::Global),
        Token::Num => op_outcome(p, spec_number(p.op, text)),
        Token::Ident => if text.len() > 0 && text[0] == '.' as u8 {
            spec_child_label(p, text.skip(1))
        } else {
            spec_label(p, text)
        },
        Token::Eol => spec_eol(p),
        Token::Error => Err(AsmError::UnrecognizedToken),
    }
}

/// Hands a token to its handler.
pub fn step(p: &mut Program, token: Token, text: &[u8]) -> (r: Result<(), AsmError>)
    requires
        old(p)@.wf(),
    ensures
        handled(old(p)@, final(p)@, r, spec_step(old(p)@, token, text@)),
        final(p)@.wf(),
{
    match token {
        Token::Mnem(ins) => insert_mnem(p, ins),
        Token::A => acc(p),
        Token::X => xreg(p),
        Token::Y => yreg(p),
        Token::Comma => comma(p),
        Token::Imme => imme(p),
        Token::Lparen => lparen(p),
        Token::Rparen => rparen(p),
        Token::ByteHi => byte_high(p),
        Token::ByteLo => byte_low(p),
        Token::VisObj => vis_object(p),
        Token::VisGlobal => vis_global(p),
        Token::Num => number(p, text),
        Token::Ident => if text.len() > 0 && text[0] == '.' as u8 {
            let name = slice_subrange(text, 1, text.len());
            assert(name@ =~= text@.skip(1));
            child_label(p, name)
        } else {
            label(p, text)
        },
        Token::Eol => eol(p),
        Token::Error => Err(AsmError::UnrecognizedToken),
    }
}

} // verus!
