use s502::callbacks::labels::{child_label, label, vis_global, vis_object};
use s502::callbacks::mnemonics::insert_mnem;
use s502::callbacks::operands::{
    acc, byte_high, byte_low, comma, imme, literal, lparen, number, rparen, xreg, yreg,
};
use s502::callbacks::{eol, step};
use s502::ir::{
    make_name, AddressMode, AsmError, ByteSelect, ErrorClass, IndOp, Mnemonic, OpState, OpVal,
    Program, Reference, Section, Visibility,
};
use s502::opcodes::opcode;
use s502::output::{assemble, assemble_to_object, create_object};
use s502::token::{next_token, Token};

fn code_of(src: &[u8]) -> Vec<u8> {
    let p: Program = assemble(src).expect("the source assembles");
    p.sections[0].code.clone()
}

fn error_of(src: &[u8]) -> AsmError {
    assemble(src).expect_err("the source is refused").error
}

#[test]
fn lda_immediate_in_every_radix() {
    assert_eq!(code_of(b"lda #255\n"), vec![0xa9, 0xff]);
    assert_eq!(code_of(b"lda #$ff\n"), vec![0xa9, 0xff]);
    assert_eq!(code_of(b"lda #$FF\n"), vec![0xa9, 0xff]);
    assert_eq!(code_of(b"lda #%11111111\n"), vec![0xa9, 0xff]);
    assert_eq!(code_of(b"lda #@377\n"), vec![0xa9, 0xff]);
    assert_eq!(code_of(b"lda #0"), vec![0xa9, 0x00]);
    assert_eq!(code_of(b"lda #$7"), vec![0xa9, 0x07]);
    assert_eq!(code_of(b"\tlda  #%101 ; five\n"), vec![0xa9, 0x05]);
}

#[test]
fn lda_absolute_is_low_byte_first() {
    assert_eq!(code_of(b"lda $1234\n"), vec![0xad, 0x34, 0x12]);
}

#[test]
fn padded_immediate_is_refused() {
    let f = assemble(b"lda #$00ff\n").unwrap_err();
    assert_eq!(f.error, AsmError::InvalidNumberPlacement);
    assert_eq!(f.line, 1);
    assert_eq!((f.start, f.end), (5, 10));
}

#[test]
fn every_address_mode() {
    assert_eq!(code_of(b"asl a\n"), vec![0x0a]);
    assert_eq!(code_of(b"nop\n"), vec![0xea]);
    assert_eq!(code_of(b"lda $10\n"), vec![0xa5, 0x10]);
    assert_eq!(code_of(b"lda $10,x\n"), vec![0xb5, 0x10]);
    assert_eq!(code_of(b"ldx $10,y\n"), vec![0xb6, 0x10]);
    assert_eq!(code_of(b"lda $1234,x\n"), vec![0xbd, 0x34, 0x12]);
    assert_eq!(code_of(b"sta $1234,y\n"), vec![0x99, 0x34, 0x12]);
    assert_eq!(code_of(b"lda ($10,x)\n"), vec![0xa1, 0x10]);
    assert_eq!(code_of(b"lda ($10),y\n"), vec![0xb1, 0x10]);
    assert_eq!(code_of(b"jmp ($1234)\n"), vec![0x6c, 0x34, 0x12]);
    assert_eq!(code_of(b"bne $10\n"), vec![0xd0, 0x10]);
}

#[test]
fn width_follows_value_and_digit_count() {
    assert_eq!(literal(b"255"), Some(OpVal::Byte(255)));
    assert_eq!(literal(b"256"), Some(OpVal::Word(256)));
    assert_eq!(literal(b"0016"), Some(OpVal::Word(16)));
    assert_eq!(literal(b"016"), Some(OpVal::Byte(16)));
    assert_eq!(literal(b"$10"), Some(OpVal::Byte(0x10)));
    assert_eq!(literal(b"$010"), Some(OpVal::Word(0x10)));
    assert_eq!(literal(b"%11111111"), Some(OpVal::Byte(255)));
    assert_eq!(literal(b"%011111111"), Some(OpVal::Word(255)));
    assert_eq!(literal(b"@377"), Some(OpVal::Byte(255)));
    assert_eq!(literal(b"@0377"), Some(OpVal::Word(255)));
    assert_eq!(literal(b"@400"), Some(OpVal::Word(256)));
    assert_eq!(literal(b"65535"), Some(OpVal::Word(65535)));
    assert_eq!(literal(b"65536"), None);
    assert_eq!(literal(b"$"), None);
    assert_eq!(literal(b""), None);
    assert_eq!(literal(b"%12"), None);
    assert_eq!(literal(b"@8"), None);
    assert_eq!(literal(b"12a"), None);
    assert_eq!(literal(b"$fffff"), None);
    assert_eq!(code_of(b"lda $0010\n"), vec![0xad, 0x10, 0x00]);
}

#[test]
fn scanner_takes_the_longest_match() {
    assert_eq!(next_token(b"lda", 0), (Token::Mnem(Mnemonic::Lda), 3));
    assert_eq!(next_token(b"ldax", 0), (Token::Ident, 4));
    assert_eq!(next_token(b"LDA", 0), (Token::Ident, 3));
    assert_eq!(next_token(b"a", 0), (Token::A, 1));
    assert_eq!(next_token(b"ab", 0), (Token::Ident, 2));
    assert_eq!(next_token(b"x,", 0), (Token::X, 1));
    assert_eq!(next_token(b"y)", 0), (Token::Y, 1));
    assert_eq!(next_token(b"!!x", 0), (Token::VisGlobal, 2));
    assert_eq!(next_token(b"!x", 0), (Token::VisObj, 1));
    assert_eq!(next_token(b"$ff,", 0), (Token::Num, 3));
    assert_eq!(next_token(b"$g", 0), (Token::Error, 1));
    assert_eq!(next_token(b"12ab", 0), (Token::Num, 2));
    assert_eq!(next_token(b".loop ", 0), (Token::Ident, 5));
    assert_eq!(next_token(b". ", 0), (Token::Error, 1));
    assert_eq!(next_token(b"; note\nlda", 0), (Token::Eol, 7));
    assert_eq!(next_token(b"; note", 0), (Token::Error, 1));
    assert_eq!(next_token(b"\n", 0), (Token::Eol, 1));
    assert_eq!(next_token(b"lda #1", 4), (Token::Imme, 1));
    assert_eq!(next_token(b"?", 0), (Token::Error, 1));
    assert_eq!(next_token(b"_a1 ", 0), (Token::Ident, 3));
    assert_eq!(next_token(b"(<>)", 1), (Token::ByteHi, 1));
    assert_eq!(next_token(b"(<>)", 2), (Token::ByteLo, 1));
}

#[test]
fn opcode_table_entries() {
    assert_eq!(opcode(Mnemonic::Lda, AddressMode::Imme), Some(0xa9));
    assert_eq!(opcode(Mnemonic::Lda, AddressMode::Abs), Some(0xad));
    assert_eq!(opcode(Mnemonic::Jmp, AddressMode::Ind), Some(0x6c));
    assert_eq!(opcode(Mnemonic::Brk, AddressMode::Impl), Some(0x00));
    assert_eq!(opcode(Mnemonic::Sta, AddressMode::Imme), None);
    assert_eq!(opcode(Mnemonic::Dfb, AddressMode::Zpg), None);
    assert_eq!(opcode(Mnemonic::Hlt, AddressMode::Impl), None);
    assert!(Mnemonic::Bvs.is_branch());
    assert!(!Mnemonic::Jmp.is_branch());
    assert!(Mnemonic::Sct.is_directive());
    assert!(!Mnemonic::Brk.is_directive());
}

#[test]
fn destruct_finishes_by_width() {
    assert_eq!(OpState::Impl.destruct(), Some((AddressMode::Impl, OpVal::Byte(0))));
    assert_eq!(OpState::Acc.destruct(), Some((AddressMode::Acc, OpVal::Byte(0))));
    assert_eq!(
        OpState::Plain(OpVal::Byte(7)).destruct(),
        Some((AddressMode::Zpg, OpVal::Byte(7)))
    );
    assert_eq!(
        OpState::Plain(OpVal::Word(7)).destruct(),
        Some((AddressMode::Abs, OpVal::Word(7)))
    );
    assert_eq!(OpState::Imme(OpVal::Word(7)).destruct(), None);
    assert_eq!(OpState::AbsX(OpVal::Byte(7)).destruct(), None);
    assert_eq!(OpState::StartInd.destruct(), None);
    assert_eq!(OpState::StartImme.destruct(), None);
    assert_eq!(OpState::Idx(OpVal::Byte(1)).destruct(), None);
    assert_eq!(OpState::MaybeInd(IndOp::Other(OpVal::Byte(1))).destruct(), None);
    let rf = Reference {
        parent: make_name(b"foo"),
        child: None,
        offset: 1,
        which_byte: ByteSelect::Both,
        branch: false,
    };
    assert_eq!(
        OpState::Plain(OpVal::Ref(rf)).destruct(),
        Some((AddressMode::Abs, OpVal::Word(0)))
    );
    let low = Reference { which_byte: ByteSelect::Low, ..rf };
    assert_eq!(
        OpState::Imme(OpVal::Ref(low)).destruct(),
        Some((AddressMode::Imme, OpVal::Byte(0)))
    );
    assert_eq!(OpState::Imme(OpVal::Ref(rf)).destruct(), None);
    let branch = Reference { branch: true, ..rf };
    assert_eq!(
        OpState::Plain(OpVal::Ref(branch)).destruct(),
        Some((AddressMode::Zpg, OpVal::Byte(0)))
    );
}

#[test]
fn labels_and_references() {
    let p = assemble(b"start lda #1\n.loop dex\n bne .loop\n jmp start\n!hid lda table<\n")
        .unwrap();
    let s = &p.sections[0];
    assert_eq!(s.code, vec![0xa9, 1, 0xca, 0xd0, 0, 0x4c, 0, 0, 0xa5, 0]);
    assert_eq!(s.labels.len(), 3);
    assert_eq!(s.labels[0].name, make_name(b"start"));
    assert_eq!(s.labels[0].vis, Visibility::Global);
    assert_eq!(s.labels[0].num_children, 1);
    assert_eq!(s.labels[0].offset, 0);
    assert_eq!(s.labels[1].name, make_name(b"loop"));
    assert_eq!(s.labels[1].vis, Visibility::Hidden);
    assert_eq!(s.labels[1].offset, 2);
    assert_eq!(s.labels[2].name, make_name(b"hid"));
    assert_eq!(s.labels[2].vis, Visibility::Object);
    assert_eq!(s.labels[2].offset, 8);
    assert_eq!(s.num_parents, 2);
    assert_eq!(s.last_parent, Some(2));
    assert_eq!(
        s.references,
        vec![
            Reference {
                parent: make_name(b"start"),
                child: Some(make_name(b"loop")),
                offset: 4,
                which_byte: ByteSelect::Both,
                branch: true,
            },
            Reference {
                parent: make_name(b"start"),
                child: None,
                offset: 6,
                which_byte: ByteSelect::Both,
                branch: false,
            },
            Reference {
                parent: make_name(b"table"),
                child: None,
                offset: 9,
                which_byte: ByteSelect::High,
                branch: false,
            },
        ]
    );
    assert_eq!(p.line, 7);
}

#[test]
fn qualified_reference_and_low_byte() {
    let p = assemble(b"lda #main.data>\n").unwrap();
    assert_eq!(p.sections[0].code, vec![0xa9, 0]);
    assert_eq!(
        p.sections[0].references,
        vec![Reference {
            parent: make_name(b"main"),
            child: Some(make_name(b"data")),
            offset: 1,
            which_byte: ByteSelect::Low,
            branch: false,
        }]
    );
}

#[test]
fn child_visibility_can_be_marked() {
    let p = assemble(b"main\n!! .entry nop\n").unwrap();
    assert_eq!(p.sections[0].labels[1].vis, Visibility::Global);
    assert_eq!(p.sections[0].labels[0].num_children, 1);
}

#[test]
fn directives() {
    let p = assemble(b"dfb $12\ndfw $1234\ndfw 0001\ndfb lab<\ndfw lab\n").unwrap();
    let s = &p.sections[0];
    assert_eq!(s.code, vec![0x12, 0x34, 0x12, 0x01, 0x00, 0, 0, 0]);
    assert_eq!(s.references.len(), 2);
    assert_eq!(s.references[0].offset, 5);
    assert_eq!(s.references[0].which_byte, ByteSelect::High);
    assert_eq!(s.references[1].offset, 6);
    assert_eq!(s.references[1].which_byte, ByteSelect::Both);
    assert_eq!(error_of(b"dfb $1234\n"), AsmError::InvalidDfb);
    assert_eq!(error_of(b"dfb lab\n"), AsmError::InvalidDfb);
    assert_eq!(error_of(b"dfb #1\n"), AsmError::InvalidDfb);
    assert_eq!(error_of(b"dfw $12\n"), AsmError::InvalidDfw);
    assert_eq!(error_of(b"dfw lab<\n"), AsmError::InvalidDfw);
    assert_eq!(error_of(b"dfw\n"), AsmError::InvalidDfw);
    assert_eq!(error_of(b"hlt\n"), AsmError::InvalidCombination);
}

#[test]
fn sections_switch_and_persist() {
    let p = assemble(b"nop\nsct data\ndfb 1\nsct text\nbrk\nsct data\ndfb 2\n").unwrap();
    assert_eq!(p.sections.len(), 3);
    assert_eq!(p.sections[0].name, [0u8; 32]);
    assert_eq!(p.sections[0].code, vec![0xea]);
    assert_eq!(p.sections[1].name, make_name(b"data"));
    assert_eq!(p.sections[1].code, vec![1, 2]);
    assert_eq!(p.sections[2].name, make_name(b"text"));
    assert_eq!(p.sections[2].code, vec![0x00]);
    assert_eq!(p.active, 1);
    let switches: Vec<Vec<([u8; 32], usize)>> = p
        .sections
        .iter()
        .map(|s| s.references.iter().map(|r| (r.parent, r.offset)).collect())
        .collect();
    assert_eq!(
        switches,
        vec![
            vec![(make_name(b"data"), 1)],
            vec![(make_name(b"text"), 1)],
            vec![(make_name(b"data"), 1)],
        ]
    );
    assert_eq!(error_of(b"sct data.part\n"), AsmError::SctChild);
    assert_eq!(error_of(b"sct 5\n"), AsmError::InvalidSct);
    assert_eq!(error_of(b"sct\n"), AsmError::InvalidSct);
    assert_eq!(error_of(b"sct data<\n"), AsmError::InvalidSct);
}

#[test]
fn long_identifiers_are_refused_everywhere() {
    let long = [b'a'; 32];
    let ok = [b'a'; 31];
    let mut p = Program::default();
    assert_eq!(label(&mut p, &long), Err(AsmError::IdentTooLong));
    assert_eq!(child_label(&mut p, &long), Err(AsmError::IdentTooLong));
    assert_eq!(label(&mut p, &ok), Ok(()));
    assert_eq!(child_label(&mut p, &ok), Err(AsmError::ChildNotFirst));
    let mut q = Program::default();
    insert_mnem(&mut q, Mnemonic::Lda).unwrap();
    assert_eq!(label(&mut q, &long), Err(AsmError::IdentTooLong));
    assert_eq!(child_label(&mut q, &long), Err(AsmError::IdentTooLong));
    let mut src = long.to_vec();
    src.push(b'\n');
    assert_eq!(error_of(&src), AsmError::IdentTooLong);
    let mut src = b"lda .".to_vec();
    src.extend_from_slice(&long);
    assert_eq!(error_of(&src), AsmError::IdentTooLong);
}

#[test]
fn child_before_any_parent_is_refused() {
    let f = assemble(b"\n.foo\n").unwrap_err();
    assert_eq!(f.error, AsmError::NoParent);
    assert_eq!(f.error.message(), "no parent label has been created yet");
    assert_eq!(f.line, 2);
    assert_eq!(error_of(b"main\nsct data\n.foo\n"), AsmError::NoParent);
    assert_eq!(error_of(b"lda .foo\n"), AsmError::NoParent);
}

#[test]
fn every_error_has_an_input() {
    assert_eq!(error_of(b"lda ?\n"), AsmError::UnrecognizedToken);
    assert_eq!(error_of(b"foo !\n"), AsmError::VisibilityNotFirst);
    assert_eq!(error_of(b"! !! foo\n"), AsmError::VisibilityNotFirst);
    assert_eq!(error_of(b"lda 5 foo\n"), AsmError::InvalidReference);
    assert_eq!(error_of(b"main .foo\n"), AsmError::ChildNotFirst);
    assert_eq!(error_of(b"lda m.b.c\n"), AsmError::InvalidChild);
    assert_eq!(error_of(b"lda 5 .c\n"), AsmError::InvalidChild);
    assert_eq!(error_of(b"lda sta\n"), AsmError::MultipleMnemonics);
    assert_eq!(error_of(b"#5 lda\n"), AsmError::MnemonicAfterOperand);
    assert_eq!(error_of(b"lda 5<\n"), AsmError::InvalidByteSelect);
    assert_eq!(error_of(b"lda foo<>\n"), AsmError::InvalidByteSelect);
    assert_eq!(error_of(b"bne foo<\n"), AsmError::InvalidByteSelect);
    assert_eq!(error_of(b"asl 5 a\n"), AsmError::AccNotAlone);
    assert_eq!(error_of(b"lda x\n"), AsmError::InvalidX);
    assert_eq!(error_of(b"lda ($10),x\n"), AsmError::InvalidX);
    assert_eq!(error_of(b"lda y\n"), AsmError::InvalidY);
    assert_eq!(error_of(b"lda ($10,y\n"), AsmError::InvalidY);
    assert_eq!(error_of(b"lda 5 #\n"), AsmError::ImmeNotFirst);
    assert_eq!(error_of(b"lda 65536\n"), AsmError::InvalidNumber);
    assert_eq!(error_of(b"lda 5 5\n"), AsmError::InvalidNumberPlacement);
    assert_eq!(error_of(b"lda a 5\n"), AsmError::InvalidNumberPlacement);
    assert_eq!(error_of(b"lda 5 (\n"), AsmError::LparenNotFirst);
    assert_eq!(error_of(b"lda 5)\n"), AsmError::InvalidRparen);
    assert_eq!(error_of(b"lda ($10))\n"), AsmError::InvalidRparen);
    assert_eq!(error_of(b"lda ,\n"), AsmError::InvalidComma);
    assert_eq!(error_of(b"lda ($1234,x)\n"), AsmError::InvalidComma);
    assert_eq!(error_of(b"lda 5,\n"), AsmError::InvalidOperand);
    assert_eq!(error_of(b"lda (5\n"), AsmError::InvalidOperand);
    assert_eq!(error_of(b"lda #\n"), AsmError::InvalidOperand);
    assert_eq!(error_of(b"lda #foo\n"), AsmError::InvalidOperand);
    assert_eq!(error_of(b"lda\n"), AsmError::InvalidCombination);
    assert_eq!(error_of(b"sta #1\n"), AsmError::InvalidCombination);
    assert_eq!(error_of(b"bne $1234\n"), AsmError::InvalidCombination);
    assert_eq!(error_of(b"jmp ($10)"), AsmError::InvalidOperand);
}

#[test]
fn error_classes_and_messages() {
    assert_eq!(AsmError::UnrecognizedToken.class(), ErrorClass::Lexical);
    assert_eq!(AsmError::MultipleMnemonics.class(), ErrorClass::Syntax);
    assert_eq!(AsmError::InvalidOperand.class(), ErrorClass::Syntax);
    assert_eq!(AsmError::IdentTooLong.class(), ErrorClass::Semantic);
    assert_eq!(AsmError::InvalidCombination.class(), ErrorClass::Semantic);
    assert_eq!(AsmError::ProgramTooLarge.message(), "program is too large");
    assert_eq!(
        AsmError::InvalidCombination.message(),
        "invalid instruction and address mode combination"
    );
    assert_eq!(AsmError::IdentTooLong.message(), "identifier must be 31 chars or less");
}

#[test]
fn failure_reports_line_and_text() {
    let src = b"nop\n\n; note\nlda #1 sta\n";
    let f = assemble(src).unwrap_err();
    assert_eq!(f.error, AsmError::MultipleMnemonics);
    assert_eq!(f.line, 4);
    assert_eq!(&src[f.start..f.end], b"sta");
    let f = assemble(b"nop\nlda 5,").unwrap_err();
    assert_eq!(f.error, AsmError::InvalidOperand);
    assert_eq!((f.line, f.start, f.end), (2, 10, 10));
}

#[test]
fn section_holds_65536_bytes_and_no_more() {
    let mut src = Vec::new();
    for _ in 0..65536 {
        src.extend_from_slice(b"nop\n");
    }
    let p = assemble(&src).unwrap();
    assert_eq!(p.sections[0].code.len(), 65536);
    src.extend_from_slice(b"nop\n");
    let f = assemble(&src).unwrap_err();
    assert_eq!(f.error, AsmError::ProgramTooLarge);
    assert_eq!(f.line, 65537);
    let mut src = Vec::new();
    for _ in 0..32767 {
        src.extend_from_slice(b"dfw $1234\n");
    }
    src.extend_from_slice(b"nop\nlda #1\n");
    assert_eq!(error_of(&src), AsmError::ProgramTooLarge);
}

#[test]
fn section_holds_256_labels_and_no_more() {
    let mut src = Vec::new();
    for i in 0..256 {
        src.extend_from_slice(format!("l{}\n", i).as_bytes());
    }
    let p = assemble(&src).unwrap();
    assert_eq!(p.sections[0].labels.len(), 256);
    assert_eq!(p.sections[0].num_parents, 256);
    let mut more = src.clone();
    more.extend_from_slice(b"one_more\n");
    assert_eq!(error_of(&more), AsmError::TooManyLabels);
    let mut child = src.clone();
    child.extend_from_slice(b".child\n");
    assert_eq!(error_of(&child), AsmError::TooManyLabels);
    let mut reference = src.clone();
    reference.extend_from_slice(b"jmp l0\nsct other\nfresh\n");
    assert!(assemble(&reference).is_ok());
}

#[test]
fn handlers_step_through_an_indirect_operand() {
    let mut p = Program::default();
    insert_mnem(&mut p, Mnemonic::Lda).unwrap();
    lparen(&mut p).unwrap();
    assert_eq!(p.op, Some(OpState::StartInd));
    number(&mut p, b"$10").unwrap();
    assert_eq!(p.op, Some(OpState::MaybeInd(IndOp::Other(OpVal::Byte(0x10)))));
    rparen(&mut p).unwrap();
    assert_eq!(p.op, Some(OpState::MaybeInd(IndOp::IndY(OpVal::Byte(0x10)))));
    comma(&mut p).unwrap();
    assert_eq!(p.op, Some(OpState::MaybeInd(IndOp::IndYComma(OpVal::Byte(0x10)))));
    assert_eq!(xreg(&mut p), Err(AsmError::InvalidX));
    assert_eq!(p.op, Some(OpState::MaybeInd(IndOp::IndYComma(OpVal::Byte(0x10)))));
    yreg(&mut p).unwrap();
    assert_eq!(p.op, Some(OpState::IndY(OpVal::Byte(0x10))));
    eol(&mut p).unwrap();
    assert_eq!(p.sections[0].code, vec![0xb1, 0x10]);
    assert_eq!((p.op, p.ins, p.vis, p.start_line, p.line), (None, None, None, true, 2));
}

#[test]
fn handlers_of_markers_and_selectors() {
    let mut p = Program::default();
    vis_object(&mut p).unwrap();
    assert_eq!(p.vis, Some(Visibility::Object));
    assert_eq!(vis_global(&mut p), Err(AsmError::VisibilityNotFirst));
    label(&mut p, b"here").unwrap();
    assert_eq!(p.sections[0].labels[0].vis, Visibility::Object);
    assert!(!p.start_line);
    insert_mnem(&mut p, Mnemonic::Lda).unwrap();
    imme(&mut p).unwrap();
    label(&mut p, b"there").unwrap();
    byte_high(&mut p).unwrap();
    assert_eq!(byte_low(&mut p), Err(AsmError::InvalidByteSelect));
    step(&mut p, Token::Eol, b"\n").unwrap();
    assert_eq!(p.sections[0].code, vec![0xa9, 0]);
    assert_eq!(p.sections[0].references[0].which_byte, ByteSelect::High);
    let mut q = Program::default();
    insert_mnem(&mut q, Mnemonic::Asl).unwrap();
    acc(&mut q).unwrap();
    assert_eq!(acc(&mut q), Err(AsmError::AccNotAlone));
    step(&mut q, Token::Ident, b".x").unwrap_err();
}

#[test]
fn empty_source_gives_one_empty_section() {
    let bytes = assemble_to_object(b"").unwrap();
    let mut want = vec![1u8, 0, 0, 0];
    want.extend_from_slice(&[0u8; 32]);
    want.extend_from_slice(&[0u8; 12]);
    assert_eq!(bytes, want);
}

#[test]
fn object_layout_is_exact() {
    let bytes = assemble_to_object(b"main lda #1\n!.loop jmp .loop\n").unwrap();
    let mut want: Vec<u8> = vec![1, 0, 0, 0];
    want.extend_from_slice(&[0u8; 32]);
    want.extend_from_slice(&[5, 0, 0, 0, 1, 0, 0, 0, 1, 0, 0, 0]);
    let mut main = [0u8; 32];
    main[..4].copy_from_slice(b"main");
    want.extend_from_slice(&main);
    want.extend_from_slice(&[1, 0, 0, 0, 0, 0, 0, 0, 2, 0, 0, 0]);
    let mut child = [0u8; 32];
    child[..4].copy_from_slice(b"loop");
    want.extend_from_slice(&child);
    want.extend_from_slice(&[2, 0, 0, 0, 1, 0, 0, 0]);
    let mut referred = [0u8; 64];
    referred[..9].copy_from_slice(b"main.loop");
    want.extend_from_slice(&referred);
    want.extend_from_slice(&[3, 0, 0, 0, 0, 0, 0, 0]);
    want.extend_from_slice(&[0xa9, 1, 0x4c, 0, 0, 0, 0, 0]);
    assert_eq!(bytes, want);
}

#[test]
fn create_object_of_default_sections() {
    let sections = vec![Section::default(), Section::new(make_name(b"data"))];
    let bytes = create_object(&sections);
    assert_eq!(bytes.len(), 4 + 44 + 44);
    assert_eq!(&bytes[..4], &[2, 0, 0, 0]);
    assert_eq!(&bytes[48..52], b"data");
    assert_eq!(sections[1].size(), 0);
}

#[test]
fn every_keyword_is_its_mnemonic() {
    let names = [
        "adc", "and", "asl", "bcc", "bcs", "beq", "bit", "bmi", "bne", "bpl", "brk", "bvc", "bvs",
        "clc", "cld", "cli", "clv", "cmp", "cpx", "cpy", "dec", "dex", "dey", "eor", "inc", "inx",
        "iny", "jmp", "jsr", "lda", "ldx", "ldy", "lsr", "nop", "ora", "pha", "php", "pla", "plp",
        "rol", "ror", "rti", "rts", "sbc", "sec", "sed", "sei", "sta", "stx", "sty", "tax", "tay",
        "tsx", "txa", "txs", "tya", "dfb", "dfw", "hlt", "sct",
    ];
    assert_eq!(names.len(), 60);
    for name in names {
        match next_token(name.as_bytes(), 0) {
            (Token::Mnem(ins), 3) => assert_eq!(format!("{:?}", ins).to_lowercase(), name),
            other => panic!("{} is scanned as {:?}", name, other),
        }
    }
    assert_eq!(next_token(b"abc", 0), (Token::Ident, 3));
    assert_eq!(next_token(b"ld", 0), (Token::Ident, 2));
}

#[test]
fn references_are_recorded_when_read() {
    let mut p = Program::default();
    insert_mnem(&mut p, Mnemonic::Lda).unwrap();
    label(&mut p, b"foo").unwrap();
    let r = Reference {
        parent: make_name(b"foo"),
        child: None,
        offset: 1,
        which_byte: ByteSelect::Both,
        branch: false,
    };
    assert_eq!(p.sections[0].references, vec![r]);
    assert_eq!(p.op, Some(OpState::Plain(OpVal::Ref(r))));
    assert!(p.sections[0].labels.is_empty());
    assert!(p.sections[0].code.is_empty());
    child_label(&mut p, b"bar").unwrap();
    let r = Reference { child: Some(make_name(b"bar")), ..r };
    assert_eq!(p.sections[0].references, vec![r]);
    assert_eq!(p.op, Some(OpState::Plain(OpVal::Ref(r))));
    byte_high(&mut p).unwrap();
    let r = Reference { which_byte: ByteSelect::High, ..r };
    assert_eq!(p.sections[0].references, vec![r]);
    assert_eq!(p.op, Some(OpState::Plain(OpVal::Ref(r))));
    assert_eq!(byte_low(&mut p), Err(AsmError::InvalidByteSelect));
    assert_eq!(p.sections[0].references, vec![r]);
    eol(&mut p).unwrap();
    assert_eq!(p.sections[0].references, vec![r]);
    assert_eq!(p.sections[0].code, vec![0xa5, 0]);
    assert_eq!(p.op, None);
}

#[test]
fn child_at_the_start_of_an_operand_begins_a_reference() {
    let mut p = Program::default();
    label(&mut p, b"main").unwrap();
    eol(&mut p).unwrap();
    insert_mnem(&mut p, Mnemonic::Jmp).unwrap();
    child_label(&mut p, b"foo").unwrap();
    let r = Reference {
        parent: make_name(b"main"),
        child: Some(make_name(b"foo")),
        offset: 1,
        which_byte: ByteSelect::Both,
        branch: false,
    };
    assert_eq!(p.sections[0].references, vec![r]);
    assert_eq!(p.op, Some(OpState::Plain(OpVal::Ref(r))));
    assert_eq!(p.sections[0].labels.len(), 1);
    eol(&mut p).unwrap();
    assert_eq!(p.sections[0].references, vec![r]);
    assert_eq!(p.sections[0].code, vec![0x4c, 0, 0]);
}

#[test]
fn reference_behind_a_directive_or_a_branch() {
    let mut p = Program::default();
    insert_mnem(&mut p, Mnemonic::Nop).unwrap();
    eol(&mut p).unwrap();
    insert_mnem(&mut p, Mnemonic::Dfw).unwrap();
    label(&mut p, b"table").unwrap();
    assert_eq!(p.sections[0].references[0].offset, 1);
    eol(&mut p).unwrap();
    insert_mnem(&mut p, Mnemonic::Bne).unwrap();
    label(&mut p, b"back").unwrap();
    assert_eq!(p.sections[0].references[1].offset, 4);
    assert!(p.sections[0].references[1].branch);
    assert_eq!(byte_high(&mut p), Err(AsmError::InvalidByteSelect));
    eol(&mut p).unwrap();
    assert_eq!(p.sections[0].code, vec![0xea, 0, 0, 0xd0, 0]);
    assert_eq!(p.sections[0].references.len(), 2);
}

#[test]
fn section_name_stays_among_the_references() {
    let mut p = Program::default();
    insert_mnem(&mut p, Mnemonic::Jmp).unwrap();
    label(&mut p, b"far").unwrap();
    eol(&mut p).unwrap();
    insert_mnem(&mut p, Mnemonic::Sct).unwrap();
    label(&mut p, b"data").unwrap();
    let before = p.sections[0].references.clone();
    assert_eq!(before.len(), 2);
    assert_eq!(before[1].parent, make_name(b"data"));
    assert_eq!(before[1].offset, 3);
    eol(&mut p).unwrap();
    assert_eq!(p.sections[0].references, before);
    assert_eq!(p.sections[0].code, vec![0x4c, 0, 0]);
    assert_eq!(p.active, 1);
    assert_eq!(p.sections[1].name, make_name(b"data"));
    assert!(p.sections[1].code.is_empty());
    assert!(p.sections[1].labels.is_empty());
    assert!(p.sections[1].references.is_empty());
    insert_mnem(&mut p, Mnemonic::Sct).unwrap();
    label(&mut p, b"data").unwrap();
    eol(&mut p).unwrap();
    assert_eq!(p.sections.len(), 2);
    assert_eq!(p.active, 1);
    assert_eq!(p.sections[1].references.len(), 1);
}

#[test]
fn full_label_table_is_told_first() {
    let mut src = Vec::new();
    for i in 0..256 {
        src.extend_from_slice(format!("l{}\n", i).as_bytes());
    }
    src.extend_from_slice(b"more .child\n");
    assert_eq!(error_of(&src), AsmError::TooManyLabels);
    let mut p = Program::default();
    for i in 0..256 {
        label(&mut p, format!("l{}", i).as_bytes()).unwrap();
    }
    assert!(!p.start_line);
    assert_eq!(child_label(&mut p, b"child"), Err(AsmError::TooManyLabels));
}

#[test]
fn refused_line_keeps_its_reference() {
    let mut p = Program::default();
    insert_mnem(&mut p, Mnemonic::Lda).unwrap();
    imme(&mut p).unwrap();
    label(&mut p, b"foo").unwrap();
    assert_eq!(eol(&mut p), Err(AsmError::InvalidOperand));
    assert_eq!(p.sections[0].references.len(), 1);
    assert!(p.sections[0].code.is_empty());
}
