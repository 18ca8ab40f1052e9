//! The opcode table: which byte encodes a mnemonic in an address mode.

use crate::ir::{AddressMode, Mnemonic};
use vstd::prelude::*;

verus! {

/// The byte that encodes `ins` in `mode`; `None` where the instruction does
/// not have that mode. Directives have no entry.
pub open spec fn spec_opcode(ins: Mnemonic, mode: AddressMode) -> Option<u8> {
    match (ins, mode) {
        (Mnemonic::Adc, AddressMode::Abs) => Some(0x6d),
        (Mnemonic::Adc, AddressMode::AbsX) => Some(0x7d),
        (Mnemonic::Adc, AddressMode::AbsY) => Some(0x79),
        (Mnemonic::Adc, AddressMode::Imme) => Some(0x69),
        (Mnemonic::Adc, AddressMode::Xind) => Some(0x61),
        (Mnemonic::Adc, AddressMode::IndY) => Some(0x71),
        (Mnemonic::Adc, AddressMode::Zpg) => Some(0x65),
        (Mnemonic::Adc, AddressMode::ZpgX) => Some(0x75),
        (Mnemonic::And, AddressMode::Abs) => Some(0x2d),
        (Mnemonic::And, AddressMode::AbsX) => Some(0x3d),
        (Mnemonic::And, AddressMode::AbsY) => Some(0x39),
        (Mnemonic::And, AddressMode::Imme) => Some(0x29),
        (Mnemonic::And, AddressMode::Xind) => Some(0x21),
        (Mnemonic::And, AddressMode::IndY) => Some(0x31),
        (Mnemonic::And, AddressMode::Zpg) => Some(0x25),
        (Mnemonic::And, AddressMode::ZpgX) => Some(0x35),
        (Mnemonic::Asl, AddressMode::Acc) => Some(0x0a),
        (Mnemonic::Asl, AddressMode::Abs) => Some(0x0e),
        (Mnemonic::Asl, AddressMode::AbsX) => Some(0x1e),
        (Mnemonic::Asl, AddressMode::Zpg) => Some(0x06),
        (Mnemonic::Asl, AddressMode::ZpgX) => Some(0x16),
        (Mnemonic::Bcc, AddressMode::Zpg) => Some(0x90),
        (Mnemonic::Bcs, AddressMode::Zpg) => Some(0xb0),
        (Mnemonic::Beq, AddressMode::Zpg) => Some(0xf0),
        (Mnemonic::Bit, AddressMode::Abs) => Some(0x2c),
        (Mnemonic::Bit, AddressMode::Zpg) => Some(0x24),
        (Mnemonic::Bmi, AddressMode::Zpg) => Some(0x30),
        (Mnemonic::Bne, AddressMode::Zpg) => Some(0xd0),
        (Mnemonic::Bpl, AddressMode::Zpg) => Some(0x10),
        (Mnemonic::Brk, AddressMode::Impl) => Some(0x00),
        (Mnemonic::Bvc, AddressMode::Zpg) => Some(0x50),
        (Mnemonic::Bvs, AddressMode::Zpg) => Some(0x70),
        (Mnemonic::Clc, AddressMode::Impl) => Some(0x18),
        (Mnemonic::Cld, AddressMode::Impl) => Some(0xd8),
        (Mnemonic::Cli, AddressMode::Impl) => Some(0x58),
        (Mnemonic::Clv, AddressMode::Impl) => Some(0xb8),
        (Mnemonic::Cmp, AddressMode::Abs) => Some(0xcd),
        (Mnemonic::Cmp, AddressMode::AbsX) => Some(0xdd),
        (Mnemonic::Cmp, AddressMode::AbsY) => Some(0xd9),
        (Mnemonic::Cmp, AddressMode::Imme) => Some(0xc9),
        (Mnemonic::Cmp, AddressMode::Xind) => Some(0xc1),
        (Mnemonic::Cmp, AddressMode::IndY) => Some(0xd1),
        (Mnemonic::Cmp, AddressMode::Zpg) => Some(0xc5),
        (Mnemonic::Cmp, AddressMode::ZpgX) => Some(0xd5),
        (Mnemonic::Cpx, AddressMode::Abs) => Some(0xec),
        (Mnemonic::Cpx, AddressMode::Imme) => Some(0xe0),
        (Mnemonic::Cpx, AddressMode::Zpg) => Some(0xe4),
        (Mnemonic::Cpy, AddressMode::Abs) => Some(0xcc),
        (Mnemonic::Cpy, AddressMode::Imme) => Some(0xc0),
        (Mnemonic::Cpy, AddressMode::Zpg) => Some(0xc4),
        (Mnemonic::Dec, AddressMode::Abs) => Some(0xce),
        (Mnemonic::Dec, AddressMode::AbsX) => Some(0xde),
        (Mnemonic::Dec, AddressMode::Zpg) => Some(0xc6),
        (Mnemonic::Dec, AddressMode::ZpgX) => Some(0xd6),
        (Mnemonic::Dex, AddressMode::Impl) => Some(0xca),
        (Mnemonic::Dey, AddressMode::Impl) => Some(0x88),
        (Mnemonic::Eor, AddressMode::Abs) => Some(0x4d),
        (Mnemonic::Eor, AddressMode::AbsX) => Some(0x5d),
        (Mnemonic::Eor, AddressMode::AbsY) => Some(0x59),
        (Mnemonic::Eor, AddressMode::Imme) => Some(0x49),
        (Mnemonic::Eor, AddressMode::Xind) => Some(0x41),
        (Mnemonic::Eor, AddressMode::IndY) => Some(0x51),
        (Mnemonic::Eor, AddressMode::Zpg) => Some(0x45),
        (Mnemonic::Eor, AddressMode::ZpgX) => Some(0x55),
        (Mnemonic::Inc, AddressMode::Abs) => Some(0xee),
        (Mnemonic::Inc, AddressMode::AbsX) => Some(0xfe),
        (Mnemonic::Inc, AddressMode::Zpg) => Some(0xe6),
        (Mnemonic::Inc, AddressMode::ZpgX) => Some(0xf6),
        (Mnemonic::Inx, AddressMode::Impl) => Some(0xe8),
        (Mnemonic::Iny, AddressMode::Impl) => Some(0xc8),
        (Mnemonic::Jmp, AddressMode::Abs) => Some(0x4c),
        (Mnemonic::Jmp, AddressMode::Ind) => Some(0x6c),
        (Mnemonic::Jsr, AddressMode::Abs) => Some(0x20),
        (Mnemonic::Lda, AddressMode::Abs) => Some(0xad),
        (Mnemonic::Lda, AddressMode::AbsX) => Some(0xbd),
        (Mnemonic::Lda, AddressMode::AbsY) => Some(0xb9),
        (Mnemonic::Lda, AddressMode::Imme) => Some(0xa9),
        (Mnemonic::Lda, AddressMode::Xind) => Some(0xa1),
        (Mnemonic::Lda, AddressMode::IndY) => Some(0xb1),
        (Mnemonic::Lda, AddressMode::Zpg) => Some(0xa5),
        (Mnemonic::Lda, AddressMode::ZpgX) => Some(0xb5),
        (Mnemonic::Ldx, AddressMode::Abs) => Some(0xae),
        (Mnemonic::Ldx, AddressMode::AbsX) => Some(0xbe),
        (Mnemonic::Ldx, AddressMode::Imme) => Some(0xa2),
        (Mnemonic::Ldx, AddressMode::Zpg) => Some(0xa6),
        (Mnemonic::Ldx, AddressMode::ZpgX) => Some(0xb6),
        (Mnemonic::Ldx, AddressMode::ZpgY) => Some(0xb6),
        (Mnemonic::Ldy, AddressMode::Abs) => Some(0xac),
        (Mnemonic::Ldy, AddressMode::AbsX) => Some(0xbc),
        (Mnemonic::Ldy, AddressMode::Imme) => Some(0xa0),
        (Mnemonic::Ldy, AddressMode::Zpg) => Some(0xa4),
        (Mnemonic::Ldy, AddressMode::ZpgX) => Some(0xb4),
        (Mnemonic::Lsr, AddressMode::Acc) => Some(0x4a),
        (Mnemonic::Lsr, AddressMode::Abs) => Some(0x4e),
        (Mnemonic::Lsr, AddressMode::AbsX) => Some(0x5e),
        (Mnemonic::Lsr, AddressMode::Zpg) => Some(0x46),
        (Mnemonic::Lsr, AddressMode::ZpgX) => Some(0x56),
        (Mnemonic::Nop, AddressMode::Impl) => Some(0xea),
        (Mnemonic::Ora, AddressMode::Abs) => Some(0x0d),
        (Mnemonic::Ora, AddressMode::AbsX) => Some(0x1d),
        (Mnemonic::Ora, AddressMode::AbsY) => Some(0x19),
        (Mnemonic::Ora, AddressMode::Imme) => Some(0x09),
        (Mnemonic::Ora, AddressMode::Xind) => Some(0x01),
        (Mnemonic::Ora, AddressMode::IndY) => Some(0x11),
        (Mnemonic::Ora, AddressMode::Zpg) => Some(0x05),
        (Mnemonic::Ora, AddressMode::ZpgX) => Some(0x15),
        (Mnemonic::Pha, AddressMode::Impl) => Some(0x48),
        (Mnemonic::Php, AddressMode::Impl) => Some(0x08),
        (Mnemonic::Pla, AddressMode::Impl) => Some(0x68),
        (Mnemonic::Plp, AddressMode::Impl) => Some(0x28),
        (Mnemonic::Rol, AddressMode::Acc) => Some(0x2a),
        (Mnemonic::Rol, AddressMode::Abs) => Some(0x2e),
        (Mnemonic::Rol, AddressMode::AbsX) => Some(0x3e),
        (Mnemonic::Rol, AddressMode::Zpg) => Some(0x26),
        (Mnemonic::Rol, AddressMode::ZpgX) => Some(0x36),
        (Mnemonic::Ror, AddressMode::Acc) => Some(0x6a),
        (Mnemonic::Ror, AddressMode::Abs) => Some(0x6e),
        (Mnemonic::Ror, AddressMode::AbsX) => Some(0x7e),
        (Mnemonic::Ror, AddressMode::Zpg) => Some(0x66),
        (Mnemonic::Ror, AddressMode::ZpgX) => Some(0x76),
        (Mnemonic::Rti, AddressMode::Impl) => Some(0x40),
        (Mnemonic::Rts, AddressMode::Impl) => Some(0x60),
        (Mnemonic::Sbc, AddressMode::Abs) => Some(0xed),
        (Mnemonic::Sbc, AddressMode::AbsX) => Some(0xfd),
        (Mnemonic::Sbc, AddressMode::AbsY) => Some(0xf9),
        (Mnemonic::Sbc, AddressMode::Imme) => Some(0xe9),
        (Mnemonic::Sbc, AddressMode::Xind) => Some(0xe1),
        (Mnemonic::Sbc, AddressMode::IndY) => Some(0xf1),
        (Mnemonic::Sbc, AddressMode::Zpg) => Some(0xe5),
        (Mnemonic::Sbc, AddressMode::ZpgX) => Some(0xf5),
        (Mnemonic::Sec, AddressMode::Impl) => Some(0x38),
        (Mnemonic::Sed, AddressMode::Impl) => Some(0xf8),
        (Mnemonic::Sei, AddressMode::Impl) => Some(0x78),
        (Mnemonic::Sta, AddressMode::Abs) => Some(0x8d),
        (Mnemonic::Sta, AddressMode::AbsX) => Some(0x9d),
        (Mnemonic::Sta, AddressMode::AbsY) => Some(0x99),
        (Mnemonic::Sta, AddressMode::Xind) => Some(0x81),
        (Mnemonic::Sta, AddressMode::IndY) => Some(0x91),
        (Mnemonic::Sta, AddressMode::Zpg) => Some(0x85),
        (Mnemonic::Sta, AddressMode::ZpgX) => Some(0x95),
        (Mnemonic::Stx, AddressMode::Abs) => Some(0x8e),
        (Mnemonic::Stx, AddressMode::Zpg) => Some(0x86),
        (Mnemonic::Stx, AddressMode::ZpgY) => Some(0x96),
        (Mnemonic::Sty, AddressMode::Abs) => Some(0x8c),
        (Mnemonic::Sty, AddressMode::Zpg) => Some(0x84),
        (Mnemonic::Sty, AddressMode::ZpgX) => Some(0x94),
        (Mnemonic::Tax, AddressMode::Impl) => Some(0xaa),
        (Mnemonic::Tay, AddressMode::Impl) => Some(0xa8),
        (Mnemonic::Tsx, AddressMode::Impl) => Some(0xba),
        (Mnemonic::Txa, AddressMode::Impl) => Some(0x8a),
        (Mnemonic::Txs, AddressMode::Impl) => Some(0x9a),
        (Mnemonic::Tya, AddressMode::Impl) => Some(0x98),
        _ => None,
    }
}

/// Looks up the byte that encodes `ins` in `mode`.
#[verifier::when_used_as_spec(spec_opcode)]
pub fn opcode(ins: Mnemonic, mode: AddressMode) -> (r: Option<u8>)
    ensures
        r == spec_opcode(ins, mode),
{
    match (ins, mode) {
        (Mnemonic::Adc, AddressMode::Abs) => Some(0x6d),
        (Mnemonic::Adc, AddressMode::AbsX) => Some(0x7d),
        (Mnemonic::Adc, AddressMode::AbsY) => Some(0x79),
        (Mnemonic::Adc, AddressMode::Imme) => Some(0x69),
        (Mnemonic::Adc, AddressMode::Xind) => Some(0x61),
        (Mnemonic::Adc, AddressMode::IndY) => Some(0x71),
        (Mnemonic::Adc, AddressMode::Zpg) => Some(0x65),
        (Mnemonic::Adc, AddressMode::ZpgX) => Some(0x75),
        (Mnemonic::And, AddressMode::Abs) => Some(0x2d),
        (Mnemonic::And, AddressMode::AbsX) => Some(0x3d),
        (Mnemonic::And, AddressMode::AbsY) => Some(0x39),
        (Mnemonic::And, AddressMode::Imme) => Some(0x29),
        (Mnemonic::And, AddressMode::Xind) => Some(0x21),
        (Mnemonic::And, AddressMode::IndY) => Some(0x31),
        (Mnemonic::And, AddressMode::Zpg) => Some(0x25),
        (Mnemonic::And, AddressMode::ZpgX) => Some(0x35),
        (Mnemonic::Asl, AddressMode::Acc) => Some(0x0a),
        (Mnemonic::Asl, AddressMode::Abs) => Some(0x0e),
        (Mnemonic::Asl, AddressMode::AbsX) => Some(0x1e),
        (Mnemonic::Asl, AddressMode::Zpg) => Some(0x06),
        (Mnemonic::Asl, AddressMode::ZpgX) => Some(0x16),
        (Mnemonic::Bcc, AddressMode::Zpg) => Some(0x90),
        (Mnemonic::Bcs, AddressMode::Zpg) => Some(0xb0),
        (Mnemonic::Beq, AddressMode::Zpg) => Some(0xf0),
        (Mnemonic::Bit, AddressMode::Abs) => Some(0x2c),
        (Mnemonic::Bit, AddressMode::Zpg) => Some(0x24),
        (Mnemonic::Bmi, AddressMode::Zpg) => Some(0x30),
        (Mnemonic::Bne, AddressMode::Zpg) => Some(0xd0),
        (Mnemonic::Bpl, AddressMode::Zpg) => Some(0x10),
        (Mnemonic::Brk, AddressMode::Impl) => Some(0x00),
        (Mnemonic::Bvc, AddressMode::Zpg) => Some(0x50),
        (Mnemonic::Bvs, AddressMode::Zpg) => Some(0x70),
        (Mnemonic::Clc, AddressMode::Impl) => Some(0x18),
        (Mnemonic::Cld, AddressMode::Impl) => Some(0xd8),
        (Mnemonic::Cli, AddressMode::Impl) => Some(0x58),
        (Mnemonic::Clv, AddressMode::Impl) => Some(0xb8),
        (Mnemonic::Cmp, AddressMode::Abs) => Some(0xcd),
        (Mnemonic::Cmp, AddressMode::AbsX) => Some(0xdd),
        (Mnemonic::Cmp, AddressMode::AbsY) => Some(0xd9),
        (Mnemonic::Cmp, AddressMode::Imme) => Some(0xc9),
        (Mnemonic::Cmp, AddressMode::Xind) => Some(0xc1),
        (Mnemonic::Cmp, AddressMode::IndY) => Some(0xd1),
        (Mnemonic::Cmp, AddressMode::Zpg) => Some(0xc5),
        (Mnemonic::Cmp, AddressMode::ZpgX) => Some(0xd5),
        (Mnemonic::Cpx, AddressMode::Abs) => Some(0xec),
        (Mnemonic::Cpx, AddressMode::Imme) => Some(0xe0),
        (Mnemonic::Cpx, AddressMode::Zpg) => Some(0xe4),
        (Mnemonic::Cpy, AddressMode::Abs) => Some(0xcc),
        (Mnemonic::Cpy, AddressMode::Imme) => Some(0xc0),
        (Mnemonic::Cpy, AddressMode::Zpg) => Some(0xc4),
        (Mnemonic::Dec, AddressMode::Abs) => Some(0xce),
        (Mnemonic::Dec, AddressMode::AbsX) => Some(0xde),
        (Mnemonic::Dec, AddressMode::Zpg) => Some(0xc6),
        (Mnemonic::Dec, AddressMode::ZpgX) => Some(0xd6),
        (Mnemonic::Dex, AddressMode::Impl) => Some(0xca),
        (Mnemonic::Dey, AddressMode::Impl) => Some(0x88),
        (Mnemonic::Eor, AddressMode::Abs) => Some(0x4d),
        (Mnemonic::Eor, AddressMode::AbsX) => Some(0x5d),
        (Mnemonic::Eor, AddressMode::AbsY) => Some(0x59),
        (Mnemonic::Eor, AddressMode::Imme) => Some(0x49),
        (Mnemonic::Eor, AddressMode::Xind) => Some(0x41),
        (Mnemonic::Eor, AddressMode::IndY) => Some(0x51),
        (Mnemonic::Eor, AddressMode::Zpg) => Some(0x45),
        (Mnemonic::Eor, AddressMode::ZpgX) => Some(0x55),
        (Mnemonic::Inc, AddressMode::Abs) => Some(0xee),
        (Mnemonic::Inc, AddressMode::AbsX) => Some(0xfe),
        (Mnemonic::Inc, AddressMode::Zpg) => Some(0xe6),
        (Mnemonic::Inc, AddressMode::ZpgX) => Some(0xf6),
        (Mnemonic::Inx, AddressMode::Impl) => Some(0xe8),
        (Mnemonic::Iny, AddressMode::Impl) => Some(0xc8),
        (Mnemonic::Jmp, AddressMode::Abs) => Some(0x4c),
        (Mnemonic::Jmp, AddressMode::Ind) => Some(0x6c),
        (Mnemonic::Jsr, AddressMode::Abs) => Some(0x20),
        (Mnemonic::Lda, AddressMode::Abs) => Some(0xad),
        (Mnemonic::Lda, AddressMode::AbsX) => Some(0xbd),
        (Mnemonic::Lda, AddressMode::AbsY) => Some(0xb9),
        (Mnemonic::Lda, AddressMode::Imme) => Some(0xa9),
        (Mnemonic::Lda, AddressMode::Xind) => Some(0xa1),
        (Mnemonic::Lda, AddressMode::IndY) => Some(0xb1),
        (Mnemonic::Lda, AddressMode::Zpg) => Some(0xa5),
        (Mnemonic::Lda, AddressMode::ZpgX) => Some(0xb5),
        (Mnemonic::Ldx, AddressMode::Abs) => Some(0xae),
        (Mnemonic::Ldx, AddressMode::AbsX) => Some(0xbe),
        (Mnemonic::Ldx, AddressMode::Imme) => Some(0xa2),
        (Mnemonic::Ldx, AddressMode::Zpg) => Some(0xa6),
        (Mnemonic::Ldx, AddressMode::ZpgX) => Some(0xb6),
        (Mnemonic::Ldx, AddressMode::ZpgY) => Some(0xb6),
        (Mnemonic::Ldy, AddressMode::Abs) => Some(0xac),
        (Mnemonic::Ldy, AddressMode::AbsX) => Some(0xbc),
        (Mnemonic::Ldy, AddressMode::Imme) => Some(0xa0),
        (Mnemonic::Ldy, AddressMode::Zpg) => Some(0xa4),
        (Mnemonic::Ldy, AddressMode::ZpgX) => Some(0xb4),
        (Mnemonic::Lsr, AddressMode::Acc) => Some(0x4a),
        (Mnemonic::Lsr, AddressMode::Abs) => Some(0x4e),
        (Mnemonic::Lsr, AddressMode::AbsX) => Some(0x5e),
        (Mnemonic::Lsr, AddressMode::Zpg) => Some(0x46),
        (Mnemonic::Lsr, AddressMode::ZpgX) => Some(0x56),
        (Mnemonic::Nop, AddressMode::Impl) => Some(0xea),
        (Mnemonic::Ora, AddressMode::Abs) => Some(0x0d),
        (Mnemonic::Ora, AddressMode::AbsX) => Some(0x1d),
        (Mnemonic::Ora, AddressMode::AbsY) => Some(0x19),
        (Mnemonic::Ora, AddressMode::Imme) => Some(0x09),
        (Mnemonic::Ora, AddressMode::Xind) => Some(0x01),
        (Mnemonic::Ora, AddressMode::IndY) => Some(0x11),
        (Mnemonic::Ora, AddressMode::Zpg) => Some(0x05),
        (Mnemonic::Ora, AddressMode::ZpgX) => Some(0x15),
        (Mnemonic::Pha, AddressMode::Impl) => Some(0x48),
        (Mnemonic::Php, AddressMode::Impl) => Some(0x08),
        (Mnemonic::Pla, AddressMode::Impl) => Some(0x68),
        (Mnemonic::Plp, AddressMode::Impl) => Some(0x28),
        (Mnemonic::Rol, AddressMode::Acc) => Some(0x2a),
        (Mnemonic::Rol, AddressMode::Abs) => Some(0x2e),
        (Mnemonic::Rol, AddressMode::AbsX) => Some(0x3e),
        (Mnemonic::Rol, AddressMode::Zpg) => Some(0x26),
        (Mnemonic::Rol, AddressMode::ZpgX) => Some(0x36),
        (Mnemonic::Ror, AddressMode::Acc) => Some(0x6a),
        (Mnemonic::Ror, AddressMode::Abs) => Some(0x6e),
        (Mnemonic::Ror, AddressMode::AbsX) => Some(0x7e),
        (Mnemonic::Ror, AddressMode::Zpg) => Some(0x66),
        (Mnemonic::Ror, AddressMode::ZpgX) => Some(0x76),
        (Mnemonic::Rti, AddressMode::Impl) => Some(0x40),
        (Mnemonic::Rts, AddressMode::Impl) => Some(0x60),
        (Mnemonic::Sbc, AddressMode::Abs) => Some(0xed),
        (Mnemonic::Sbc, AddressMode::AbsX) => Some(0xfd),
        (Mnemonic::Sbc, AddressMode::AbsY) => Some(0xf9),
        (Mnemonic::Sbc, AddressMode::Imme) => Some(0xe9),
        (Mnemonic::Sbc, AddressMode::Xind) => Some(0xe1),
        (Mnemonic::Sbc, AddressMode::IndY) => Some(0xf1),
        (Mnemonic::Sbc, AddressMode::Zpg) => Some(0xe5),
        (Mnemonic::Sbc, AddressMode::ZpgX) => Some(0xf5),
        (Mnemonic::Sec, AddressMode::Impl) => Some(0x38),
        (Mnemonic::Sed, AddressMode::Impl) => Some(0xf8),
        (Mnemonic::Sei, AddressMode::Impl) => Some(0x78),
        (Mnemonic::Sta, AddressMode::Abs) => Some(0x8d),
        (Mnemonic::Sta, AddressMode::AbsX) => Some(0x9d),
        (Mnemonic::Sta, AddressMode::AbsY) => Some(0x99),
        (Mnemonic::Sta, AddressMode::Xind) => Some(0x81),
        (Mnemonic::Sta, AddressMode::IndY) => Some(0x91),
        (Mnemonic::Sta, AddressMode::Zpg) => Some(0x85),
        (Mnemonic::Sta, AddressMode::ZpgX) => Some(0x95),
        (Mnemonic::Stx, AddressMode::Abs) => Some(0x8e),
        (Mnemonic::Stx, AddressMode::Zpg) => Some(0x86),
        (Mnemonic::Stx, AddressMode::ZpgY) => Some(0x96),
        (Mnemonic::Sty, AddressMode::Abs) => Some(0x8c),
        (Mnemonic::Sty, AddressMode::Zpg) => Some(0x84),
        (Mnemonic::Sty, AddressMode::ZpgX) => Some(0x94),
        (Mnemonic::Tax, AddressMode::Impl) => Some(0xaa),
        (Mnemonic::Tay, AddressMode::Impl) => Some(0xa8),
        (Mnemonic::Tsx, AddressMode::Impl) => Some(0xba),
        (Mnemonic::Txa, AddressMode::Impl) => Some(0x8a),
        (Mnemonic::Txs, AddressMode::Impl) => Some(0x9a),
        (Mnemonic::Tya, AddressMode::Impl) => Some(0x98),
        _ => None,
    }
}

} // verus!
