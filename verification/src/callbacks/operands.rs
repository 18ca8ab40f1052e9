//! The handlers of the tokens that make up an operand.

use crate::callbacks::{handled, op_outcome};
use crate::ir::{
    lemma_reference_changed, AsmError, ByteSelect, IndOp, OpState, OpVal, Program, ProgramView,
    Reference,
};
use vstd::prelude::*;
use vstd::slice::slice_subrange;

verus! {

/// The operand state with the byte selection of its reference replaced.
/// Only a reference that was just written, still selects both bytes and
/// does not stand behind a branch can take a selector.
pub open spec fn spec_byte_select(op: Option<OpState>, which: ByteSelect) -> Result<
    OpState,
    AsmError,
> {
    match op {
        Some(OpState::Plain(OpVal::Ref(rf))) => if rf.spec_is_word() {
            Ok(OpState::Plain(OpVal::Ref(Reference { which_byte: which, ..rf })))
        } else {
            Err(AsmError::InvalidByteSelect)
        },
        Some(OpState::Imme(OpVal::Ref(rf))) => if rf.spec_is_word() {
            Ok(OpState::Imme(OpVal::Ref(Reference { which_byte: which, ..rf })))
        } else {
            Err(AsmError::InvalidByteSelect)
        },
        Some(OpState::MaybeInd(IndOp::Other(OpVal::Ref(rf)))) => if rf.spec_is_word() {
            Ok(OpState::MaybeInd(IndOp::Other(OpVal::Ref(Reference { which_byte: which, ..rf }))))
        } else {
            Err(AsmError::InvalidByteSelect)
        },
        _ => Err(AsmError::InvalidByteSelect),
    }
}

/// The state after a byte selector: the reference of the line takes it,
/// in the operand and as the last of the active section's references.
pub open spec fn spec_select(p: ProgramView, which: ByteSelect) -> Result<ProgramView, AsmError> {
    match spec_byte_select(p.op, which) {
        Ok(op) => Ok(p.with_changed(op)),
        Err(e) => Err(e),
    }
}

fn byte_select(p: &mut Program, which: ByteSelect) -> (r: Result<(), AsmError>)
    requires
        old(p)@.wf(),
    ensures
        handled(old(p)@, final(p)@, r, spec_select(old(p)@, which)),
        final(p)@.wf(),
{
    let next = match p.op {
        Some(OpState::Plain(OpVal::Ref(rf))) => if rf.is_word() {
            OpState::Plain(OpVal::Ref(Reference { which_byte: which, ..rf }))
        } else {
            return Err(AsmError::InvalidByteSelect);
        },
        Some(OpState::Imme(OpVal::Ref(rf))) => if rf.is_word() {
            OpState::Imme(OpVal::Ref(Reference { which_byte: which, ..rf }))
        } else {
            return Err(AsmError::InvalidByteSelect);
        },
        Some(OpState::MaybeInd(IndOp::Other(OpVal::Ref(rf)))) => if rf.is_word() {
            OpState::MaybeInd(IndOp::Other(OpVal::Ref(Reference { which_byte: which, ..rf })))
        } else {
            return Err(AsmError::InvalidByteSelect);
        },
        _ => return Err(AsmError::InvalidByteSelect),
    };
    p.change_reference(next);
    proof {
        lemma_reference_changed(old(p)@.current(), next.spec_reference()->0);
    }
    Ok(())
}

/// `<`: the reference just written takes the high byte of its label's
/// address, in the operand and in the section's list.
pub fn byte_high(p: &mut Program) -> (r: Result<(), AsmError>)
    requires
        old(p)@.wf(),
    ensures
        handled(old(p)@, final(p)@, r, spec_select(old(p)@, ByteSelect::High)),
        final(p)@.wf(),
{
    byte_select(p, ByteSelect::High)
}

/// `>`: the reference just written takes the low byte of its label's
/// address, in the operand and in the section's list.
pub fn byte_low(p: &mut Program) -> (r: Result<(), AsmError>)
    requires
        old(p)@.wf(),
    ensures
        handled(old(p)@, final(p)@, r, spec_select(old(p)@, ByteSelect::Low)),
        final(p)@.wf(),
{
    byte_select(p, ByteSelect::Low)
}

/// The operand state after `a`: the accumulator, if nothing came before.
pub open spec fn spec_acc(op: Option<OpState>) -> Result<OpState, AsmError> {
    match op {
        None => Ok(OpState::Acc),
        Some(_) => Err(AsmError::AccNotAlone),
    }
}

/// `a`: the accumulator operand, which must stand alone.
pub fn acc(p: &mut Program) -> (r: Result<(), AsmError>)
    ensures
        handled(old(p)@, final(p)@, r, op_outcome(old(p)@, spec_acc(old(p).op))),
        old(p)@.wf() ==> final(p)@.wf(),
{
    if p.op.is_some() {
        Err(AsmError::AccNotAlone)
    } else {
        p.op = Some(OpState::Acc);
        Ok(())
    }
}

/// The operand state after `x`.
pub open spec fn spec_xreg(op: Option<OpState>) -> Result<OpState, AsmError> {
    match op {
        Some(OpState::Idx(v)) => Ok(
            if v.spec_is_word() {
                OpState::AbsX(v)
            } else {
                OpState::ZpgX(v)
            },
        ),
        Some(OpState::MaybeInd(IndOp::XindComma(v))) => Ok(OpState::MaybeInd(IndOp::Xind(v))),
        _ => Err(AsmError::InvalidX),
    }
}

/// `x`: closes `v,` into an X-indexed form chosen by the value's width, or
/// continues `(v,`.
pub fn xreg(p: &mut Program) -> (r: Result<(), AsmError>)
    ensures
        handled(old(p)@, final(p)@, r, op_outcome(old(p)@, spec_xreg(old(p).op))),
        old(p)@.wf() ==> final(p)@.wf(),
{
    let next = match p.op {
        Some(OpState::Idx(v)) => if v.is_word() {
            OpState::AbsX(v)
        } else {
            OpState::ZpgX(v)
        },
        Some(OpState::MaybeInd(IndOp::XindComma(v))) => OpState::MaybeInd(IndOp::Xind(v)),
        _ => return Err(AsmError::InvalidX),
    };
    p.op = Some(next);
    Ok(())
}

/// The operand state after `y`.
pub open spec fn spec_yreg(op: Option<OpState>) -> Result<OpState, AsmError> {
    match op {
        Some(OpState::Idx(v)) => Ok(
            if v.spec_is_word() {
                OpState::AbsY(v)
            } else {
                OpState::ZpgY(v)
            },
        ),
        Some(OpState::MaybeInd(IndOp::IndYComma(v))) => if v.spec_is_word() {
            Err(AsmError::InvalidY)
        } else {
            Ok(OpState::IndY(v))
        },
        _ => Err(AsmError::InvalidY),
    }
}

/// `y`: closes `v,` into a Y-indexed form chosen by the value's width, or
/// closes `(v),`.
pub fn yreg(p: &mut Program) -> (r: Result<(), AsmError>)
    ensures
        handled(old(p)@, final(p)@, r, op_outcome(old(p)@, spec_yreg(old(p).op))),
        old(p)@.wf() ==> final(p)@.wf(),
{
    let next = match p.op {
        Some(OpState::Idx(v)) => if v.is_word() {
            OpState::AbsY(v)
        } else {
            OpState::ZpgY(v)
        },
        Some(OpState::MaybeInd(IndOp::IndYComma(v))) => if v.is_word() {
            return Err(AsmError::InvalidY);
        } else {
            OpState::IndY(v)
        },
        _ => return Err(AsmError::InvalidY),
    };
    p.op = Some(next);
    Ok(())
}

/// The operand state after `#`.
pub open spec fn spec_imme(op: Option<OpState>) -> Result<OpState, AsmError> {
    match op {
        None => Ok(OpState::StartImme),
        Some(_) => Err(AsmError::ImmeNotFirst),
    }
}

/// `#`: opens an immediate operand.
pub fn imme(p: &mut Program) -> (r: Result<(), AsmError>)
    ensures
        handled(old(p)@, final(p)@, r, op_outcome(old(p)@, spec_imme(old(p).op))),
        old(p)@.wf() ==> final(p)@.wf(),
{
    if p.op.is_some() {
        Err(AsmError::ImmeNotFirst)
    } else {
        p.op = Some(OpState::StartImme);
        Ok(())
    }
}

/// The operand state after `(`.
pub open spec fn spec_lparen(op: Option<OpState>) -> Result<OpState, AsmError> {
    match op {
        None => Ok(OpState::StartInd),
        Some(_) => Err(AsmError::LparenNotFirst),
    }
}

/// `(`: opens an indirect operand.
pub fn lparen(p: &mut Program) -> (r: Result<(), AsmError>)
    ensures
        handled(old(p)@, final(p)@, r, op_outcome(old(p)@, spec_lparen(old(p).op))),
        old(p)@.wf() ==> final(p)@.wf(),
{
    if p.op.is_some() {
        Err(AsmError::LparenNotFirst)
    } else {
        p.op = Some(OpState::StartInd);
        Ok(())
    }
}

/// The operand state after `)`.
pub open spec fn spec_rparen(op: Option<OpState>) -> Result<OpState, AsmError> {
    match op {
        Some(OpState::MaybeInd(IndOp::Other(v))) => Ok(
            if v.spec_is_word() {
                OpState::Ind(v)
            } else {
                OpState::MaybeInd(IndOp::IndY(v))
            },
        ),
        Some(OpState::MaybeInd(IndOp::Xind(v))) => Ok(OpState::Xind(v)),
        _ => Err(AsmError::InvalidRparen),
    }
}

/// `)`: closes `(v` into an indirect form if the value is a word and into
/// the start of `(v),y` if it is a byte, or closes `(v,x`.
pub fn rparen(p: &mut Program) -> (r: Result<(), AsmError>)
    ensures
        handled(old(p)@, final(p)@, r, op_outcome(old(p)@, spec_rparen(old(p).op))),
        old(p)@.wf() ==> final(p)@.wf(),
{
    let next = match p.op {
        Some(OpState::MaybeInd(IndOp::Other(v))) => if v.is_word() {
            OpState::Ind(v)
        } else {
            OpState::MaybeInd(IndOp::IndY(v))
        },
        Some(OpState::MaybeInd(IndOp::Xind(v))) => OpState::Xind(v),
        _ => return Err(AsmError::InvalidRparen),
    };
    p.op = Some(next);
    Ok(())
}

/// The operand state after `,`.
pub open spec fn spec_comma(op: Option<OpState>) -> Result<OpState, AsmError> {
    match op {
        Some(OpState::Plain(v)) => Ok(OpState::Idx(v)),
        Some(OpState::MaybeInd(IndOp::Other(v))) => if v.spec_is_word() {
            Err(AsmError::InvalidComma)
        } else {
            Ok(OpState::MaybeInd(IndOp::XindComma(v)))
        },
        Some(OpState::MaybeInd(IndOp::IndY(v))) => Ok(OpState::MaybeInd(IndOp::IndYComma(v))),
        _ => Err(AsmError::InvalidComma),
    }
}

/// `,`: turns a plain value into the start of an indexed form, and
/// continues `(v` (for a byte only) and `(v)`.
pub fn comma(p: &mut Program) -> (r: Result<(), AsmError>)
    ensures
        handled(old(p)@, final(p)@, r, op_outcome(old(p)@, spec_comma(old(p).op))),
        old(p)@.wf() ==> final(p)@.wf(),
{
    let next = match p.op {
        Some(OpState::Plain(v)) => OpState::Idx(v),
        Some(OpState::MaybeInd(IndOp::Other(v))) => if v.is_word() {
            return Err(AsmError::InvalidComma);
        } else {
            OpState::MaybeInd(IndOp::XindComma(v))
        },
        Some(OpState::MaybeInd(IndOp::IndY(v))) => OpState::MaybeInd(IndOp::IndYComma(v)),
        _ => return Err(AsmError::InvalidComma),
    };
    p.op = Some(next);
    Ok(())
}

/// The radix that a literal's first byte announces: `%` 2, `@` 8, `$` 16,
/// anything else 10.
pub open spec fn radix_of(text: Seq<u8>) -> nat {
    if text.len() > 0 && text[0] == '%' as u8 {
        2
    } else if text.len() > 0 && text[0] == '@' as u8 {
        8
    } else if text.len() > 0 && text[0] == '$' as u8 {
        16
    } else {
        10
    }
}

/// The digits of a literal: the text without its radix prefix.
pub open spec fn digits_of(text: Seq<u8>) -> Seq<u8> {
    if radix_of(text) == 10 {
        text
    } else {
        text.skip(1)
    }
}

/// The value of a digit in any radix up to 16; 16 for a byte that is no digit.
pub open spec fn digit_value(c: u8) -> nat {
    if '0' as u8 <= c <= '9' as u8 {
        (c - '0' as u8) as nat
    } else if 'a' as u8 <= c <= 'f' as u8 {
        (c - 'a' as u8 + 10) as nat
    } else if 'A' as u8 <= c <= 'F' as u8 {
        (c - 'A' as u8 + 10) as nat
    } else {
        16
    }
}

/// The number that a digit string writes in a radix.
pub open spec fn digits_value(digits: Seq<u8>, radix: nat) -> nat
    decreases digits.len(),
{
    if digits.len() == 0 {
        0
    } else {
        digits_value(digits.drop_last(), radix) * radix + digit_value(digits.last())
    }
}

/// Whether every byte is a digit of the radix.
pub open spec fn all_digits(digits: Seq<u8>, radix: nat) -> bool {
    forall|i: int| 0 <= i < digits.len() ==> digit_value(#[trigger] digits[i]) < radix
}

/// The most digits a byte literal may have in a radix; one more digit pads
/// the literal to a word.
pub open spec fn byte_digits(radix: nat) -> nat {
    if radix == 2 {
        8
    } else if radix == 16 {
        2
    } else {
        3
    }
}

/// The value of a numeric literal. It is a word if it is above 255 or has
/// more digits than a byte needs in its radix, and a byte otherwise. A text
/// without digits, with a byte that is no digit of its radix, or above
/// 65535 is no literal.
pub open spec fn spec_literal(text: Seq<u8>) -> Option<OpVal> {
    let radix = radix_of(text);
    let digits = digits_of(text);
    let value = digits_value(digits, radix);
    if digits.len() == 0 || !all_digits(digits, radix) || value > 0xffff {
        None
    } else if value > 0xff || digits.len() > byte_digits(radix) {
        Some(OpVal::Word(value as u16))
    } else {
        Some(OpVal::Byte(value as u8))
    }
}

proof fn lemma_digits_value_monotone(digits: Seq<u8>, radix: nat, k: int)
    requires
        0 <= k <= digits.len(),
        radix >= 1,
    ensures
        digits_value(digits.take(k), radix) <= digits_value(digits, radix),
    decreases digits.len(),
{
    if k == digits.len() {
        assert(digits.take(k) =~= digits);
    } else {
        lemma_digits_value_monotone(digits.drop_last(), radix, k);
        assert(digits.drop_last().take(k) =~= digits.take(k));
        let v = digits_value(digits.drop_last(), radix);
        assert(v * radix >= v) by (nonlinear_arith)
            requires
                radix >= 1,
                v >= 0,
        ;
    }
}

fn digit(c: u8) -> (v: u32)
    ensures
        v == digit_value(c),
{
    if '0' as u8 <= c && c <= '9' as u8 {
        (c - '0' as u8) as u32
    } else if 'a' as u8 <= c && c <= 'f' as u8 {
        (c - 'a' as u8 + 10) as u32
    } else if 'A' as u8 <= c && c <= 'F' as u8 {
        (c - 'A' as u8 + 10) as u32
    } else {
        16
    }
}

/// The number that a digit string writes in a radix, if it has a digit,
/// has nothing but digits of the radix and is at most 65535.
pub open spec fn spec_read_digits(digits: Seq<u8>, radix: nat) -> Option<u16> {
    if digits.len() == 0 || !all_digits(digits, radix) || digits_value(digits, radix) > 0xffff {
        None
    } else {
        Some(digits_value(digits, radix) as u16)
    }
}

/// Reads a digit string in a radix.
pub fn read_digits(digits: &[u8], radix: u32) -> (r: Option<u16>)
    requires
        1 <= radix <= 16,
    ensures
        r == spec_read_digits(digits@, radix as nat),
{
    if digits.len() == 0 {
        return None;
    }
    let mut value: u32 = 0;
    let mut i: usize = 0;
    assert(digits@.take(0) =~= Seq::<u8>::empty());
    while i < digits.len()
        invariant
            i <= digits@.len(),
            1 <= radix <= 16,
            value == digits_value(digits@.take(i as int), radix as nat),
            value <= 0xffff,
            all_digits(digits@.take(i as int), radix as nat),
        decreases digits@.len() - i,
    {
        let d = digit(digits[i]);
        if d >= radix {
            assert(digit_value(digits@[i as int]) >= radix);
            return None;
        }
        proof {
            assert(digits@.take(i + 1).drop_last() =~= digits@.take(i as int));
            assert(digits@.take(i + 1).last() == digits@[i as int]);
            assert(value * radix <= 0xffff * 16) by (nonlinear_arith)
                requires
                    value <= 0xffff,
                    radix <= 16,
            ;
        }
        value = value * radix + d;
        if value > 0xffff {
            proof {
                lemma_digits_value_monotone(digits@, radix as nat, i + 1);
            }
            return None;
        }
        i += 1;
    }
    assert(digits@.take(i as int) =~= digits@);
    Some(value as u16)
}

/// Reads a numeric literal.
pub fn literal(text: &[u8]) -> (r: Option<OpVal>)
    ensures
        r == spec_literal(text@),
{
    let (radix, start, limit): (u32, usize, usize) = if text.len() > 0 && text[0] == '%' as u8 {
        (2, 1, 8)
    } else if text.len() > 0 && text[0] == '@' as u8 {
        (8, 1, 3)
    } else if text.len() > 0 && text[0] == '$' as u8 {
        (16, 1, 2)
    } else {
        (10, 0, 3)
    };
    let digits = slice_subrange(text, start, text.len());
    assert(digits@ =~= digits_of(text@));
    match read_digits(digits, radix) {
        None => None,
        Some(value) => if value > 0xff || digits.len() > limit {
            Some(OpVal::Word(value))
        } else {
            Some(OpVal::Byte(value as u8))
        },
    }
}

/// The operand state after a numeric literal: a plain value at the start
/// of the operand, an immediate after `#` (a byte only), the inside of an
/// indirect form after `(`.
pub open spec fn spec_number(op: Option<OpState>, text: Seq<u8>) -> Result<OpState, AsmError> {
    match spec_literal(text) {
        None => Err(AsmError::InvalidNumber),
        Some(v) => match op {
            None => Ok(OpState::Plain(v)),
            Some(OpState::StartImme) => if v is Byte {
                Ok(OpState::Imme(v))
            } else {
                Err(AsmError::InvalidNumberPlacement)
            },
            Some(OpState::StartInd) => Ok(OpState::MaybeInd(IndOp::Other(v))),
            _ => Err(AsmError::InvalidNumberPlacement),
        },
    }
}

/// A numeric literal, given by its text with the radix prefix.
pub fn number(p: &mut Program, text: &[u8]) -> (r: Result<(), AsmError>)
    ensures
        handled(old(p)@, final(p)@, r, op_outcome(old(p)@, spec_number(old(p).op, text@))),
        old(p)@.wf() ==> final(p)@.wf(),
{
    let v = match literal(text) {
        None => return Err(AsmError::InvalidNumber),
        Some(v) => v,
    };
    let next = match p.op {
        None => OpState::Plain(v),
        Some(OpState::StartImme) => match v {
            OpVal::Byte(_) => OpState::Imme(v),
            _ => return Err(AsmError::InvalidNumberPlacement),
        },
        Some(OpState::StartInd) => OpState::MaybeInd(IndOp::Other(v)),
        _ => return Err(AsmError::InvalidNumberPlacement),
    };
    p.op = Some(next);
    Ok(())
}

} // verus!
