//! The assembler's data model: labels, references, sections, the per-file
//! assembly context and the operand states of one source line.

use vstd::prelude::*;

verus! {

/// The most bytes one section's payload may hold.
pub const MAX_CODE: usize = 65536;

/// The most labels, parents and children together, one section may hold.
pub const MAX_LABELS: usize = 256;

/// The longest identifier, in bytes.
pub const MAX_NAME: usize = 31;

/// Which byte of a label's address a reference asks for.
#[derive(Clone, Copy, PartialEq, Eq, Structural, Debug)]
pub enum ByteSelect {
    Both,
    High,
    Low,
}

/// From where a label may be referred to.
#[derive(Clone, Copy, PartialEq, Eq, Structural, Debug)]
pub enum Visibility {
    Hidden,
    Object,
    Global,
}

/// A label declared in a section. A parent opens a scope; the children that
/// follow it in the section's label list belong to it.
#[derive(Clone, Copy, PartialEq, Eq, Debug)]
pub struct Label {
    pub vis: Visibility,
    pub name: [u8; 32],
    pub num_children: u32,
    pub offset: usize,
}

/// A use of a label inside an operand, to be patched once addresses are known.
#[derive(Clone, Copy, PartialEq, Eq, Debug)]
pub struct Reference {
    pub parent: [u8; 32],
    pub child: Option<[u8; 32]>,
    pub offset: usize,
    pub which_byte: ByteSelect,
    pub branch: bool,
}

/// The value an operand can hold.
#[derive(Clone, Copy, PartialEq, Eq, Debug)]
pub enum OpVal {
    Byte(u8),
    Word(u16),
    Ref(Reference),
}

/// The operand forms that can stand inside parentheses.
#[derive(Clone, Copy, PartialEq, Eq, Debug)]
pub enum IndOp {
    /// `(v`
    Other(OpVal),
    /// `(v,x`
    Xind(OpVal),
    /// `(v,`
    XindComma(OpVal),
    /// `(v)`
    IndY(OpVal),
    /// `(v),`
    IndYComma(OpVal),
}

/// The state of the operand being parsed on the current line.
#[derive(Clone, Copy, PartialEq, Eq, Debug)]
pub enum OpState {
    /// `(`
    StartInd,
    /// `#`
    StartImme,
    /// An undecorated value.
    Plain(OpVal),
    /// An unfinished indirect form.
    MaybeInd(IndOp),
    /// `v,`
    Idx(OpVal),
    Acc,
    AbsX(OpVal),
    AbsY(OpVal),
    Imme(OpVal),
    Ind(OpVal),
    Xind(OpVal),
    IndY(OpVal),
    ZpgX(OpVal),
    ZpgY(OpVal),
    Impl,
}

/// The address mode a finished operand encodes. Branches use `Zpg`.
#[derive(Clone, Copy, PartialEq, Eq, Structural, Debug)]
pub enum AddressMode {
    Acc,
    Abs,
    AbsX,
    AbsY,
    Imme,
    Impl,
    Ind,
    Xind,
    IndY,
    Zpg,
    ZpgX,
    ZpgY,
}

/// An instruction or directive keyword.
#[derive(Clone, Copy, PartialEq, Eq, Structural, Debug)]
pub enum Mnemonic {
    Adc,
    And,
    Asl,
    Bcc,
    Bcs,
    Beq,
    Bit,
    Bmi,
    Bne,
    Bpl,
    Brk,
    Bvc,
    Bvs,
    Clc,
    Cld,
    Cli,
    Clv,
    Cmp,
    Cpx,
    Cpy,
    Dec,
    Dex,
    Dey,
    Eor,
    Inc,
    Inx,
    Iny,
    Jmp,
    Jsr,
    Lda,
    Ldx,
    Ldy,
    Lsr,
    Nop,
    Ora,
    Pha,
    Php,
    Pla,
    Plp,
    Rol,
    Ror,
    Rti,
    Rts,
    Sbc,
    Sec,
    Sed,
    Sei,
    Sta,
    Stx,
    Sty,
    Tax,
    Tay,
    Tsx,
    Txa,
    Txs,
    Tya,
    Dfb,
    Dfw,
    Hlt,
    Sct,
}

/// Why a line was refused.
#[derive(Clone, Copy, PartialEq, Eq, Structural, Debug)]
pub enum AsmError {
    /// No token starts at this byte.
    UnrecognizedToken,
    VisibilityNotFirst,
    IdentTooLong,
    TooManyLabels,
    InvalidReference,
    ChildNotFirst,
    NoParent,
    InvalidChild,
    MultipleMnemonics,
    MnemonicAfterOperand,
    InvalidByteSelect,
    AccNotAlone,
    InvalidX,
    InvalidY,
    ImmeNotFirst,
    InvalidNumber,
    InvalidNumberPlacement,
    LparenNotFirst,
    InvalidRparen,
    InvalidComma,
    ProgramTooLarge,
    InvalidDfb,
    InvalidDfw,
    SctChild,
    InvalidSct,
    InvalidOperand,
    InvalidCombination,
}

/// The three families of assembly errors.
#[derive(Clone, Copy, PartialEq, Eq, Structural, Debug)]
pub enum ErrorClass {
    Lexical,
    Syntax,
    Semantic,
}

impl AsmError {
    /// The family this error belongs to.
    pub open spec fn spec_class(self) -> ErrorClass {
        match self {
            AsmError::UnrecognizedToken => ErrorClass::Lexical,
            AsmError::IdentTooLong
            | AsmError::TooManyLabels
            | AsmError::NoParent
            | AsmError::InvalidNumber
            | AsmError::ProgramTooLarge
            | AsmError::InvalidDfb
            | AsmError::InvalidDfw
            | AsmError::SctChild
            | AsmError::InvalidSct
            | AsmError::InvalidCombination => ErrorClass::Semantic,
            _ => ErrorClass::Syntax,
        }
    }

    /// Tells the family this error belongs to.
    #[verifier::when_used_as_spec(spec_class)]
    pub fn class(self) -> (c: ErrorClass)
        ensures
            c == self.spec_class(),
    {
        match self {
            AsmError::UnrecognizedToken => ErrorClass::Lexical,
            AsmError::IdentTooLong
            | AsmError::TooManyLabels
            | AsmError::NoParent
            | AsmError::InvalidNumber
            | AsmError::ProgramTooLarge
            | AsmError::InvalidDfb
            | AsmError::InvalidDfw
            | AsmError::SctChild
            | AsmError::InvalidSct
            | AsmError::InvalidCombination => ErrorClass::Semantic,
            _ => ErrorClass::Syntax,
        }
    }

    /// The text that says what is wrong.
    pub open spec fn spec_message(self) -> Seq<char> {
        match self {
            AsmError::UnrecognizedToken => "unrecognized token"@,
            AsmError::VisibilityNotFirst => "visibility modifier must be first in the line"@,
            AsmError::IdentTooLong => "identifier must be 31 chars or less"@,
            AsmError::TooManyLabels => "too many labels in section"@,
            AsmError::InvalidReference => "invalid placement of reference"@,
            AsmError::ChildNotFirst => "child label must appear first in the line"@,
            AsmError::NoParent => "no parent label has been created yet"@,
            AsmError::InvalidChild => "invalid placement of child label in operand"@,
            AsmError::MultipleMnemonics => "multiple mnemonics on one line"@,
            AsmError::MnemonicAfterOperand => "mnemonic must appear before operand"@,
            AsmError::InvalidByteSelect => "invalid placement of byte selector"@,
            AsmError::AccNotAlone => "accumulator argument must appear alone"@,
            AsmError::InvalidX => "invalid placement of X"@,
            AsmError::InvalidY => "invalid placement of Y"@,
            AsmError::ImmeNotFirst => "immediate pound must be first part of operand"@,
            AsmError::InvalidNumber => "invalid number"@,
            AsmError::InvalidNumberPlacement => "invalid placement of number"@,
            AsmError::LparenNotFirst => "left parenthesis must be first part of operand"@,
            AsmError::InvalidRparen => "invalid placement of right parenthesis"@,
            AsmError::InvalidComma => "invalid placement of comma"@,
            AsmError::ProgramTooLarge => "program is too large"@,
            AsmError::InvalidDfb => "invalid operand type for dfb"@,
            AsmError::InvalidDfw => "invalid operand type for dfw"@,
            AsmError::SctChild => "sct directive requires a simple identifier name"@,
            AsmError::InvalidSct => "invalid operand type for sct"@,
            AsmError::InvalidOperand => "invalid operand"@,
            AsmError::InvalidCombination => "invalid instruction and address mode combination"@,
        }
    }

    /// The text shown to the user for this error.
    pub fn message(self) -> (text: &'static str)
        ensures
            text@ == self.spec_message(),
    {
        match self {
            AsmError::UnrecognizedToken => "unrecognized token",
            AsmError::VisibilityNotFirst => "visibility modifier must be first in the line",
            AsmError::IdentTooLong => "identifier must be 31 chars or less",
            AsmError::TooManyLabels => "too many labels in section",
            AsmError::InvalidReference => "invalid placement of reference",
            AsmError::ChildNotFirst => "child label must appear first in the line",
            AsmError::NoParent => "no parent label has been created yet",
            AsmError::InvalidChild => "invalid placement of child label in operand",
            AsmError::MultipleMnemonics => "multiple mnemonics on one line",
            AsmError::MnemonicAfterOperand => "mnemonic must appear before operand",
            AsmError::InvalidByteSelect => "invalid placement of byte selector",
            AsmError::AccNotAlone => "accumulator argument must appear alone",
            AsmError::InvalidX => "invalid placement of X",
            AsmError::InvalidY => "invalid placement of Y",
            AsmError::ImmeNotFirst => "immediate pound must be first part of operand",
            AsmError::InvalidNumber => "invalid number",
            AsmError::InvalidNumberPlacement => "invalid placement of number",
            AsmError::LparenNotFirst => "left parenthesis must be first part of operand",
            AsmError::InvalidRparen => "invalid placement of right parenthesis",
            AsmError::InvalidComma => "invalid placement of comma",
            AsmError::ProgramTooLarge => "program is too large",
            AsmError::InvalidDfb => "invalid operand type for dfb",
            AsmError::InvalidDfw => "invalid operand type for dfw",
            AsmError::SctChild => "sct directive requires a simple identifier name",
            AsmError::InvalidSct => "invalid operand type for sct",
            AsmError::InvalidOperand => "invalid operand",
            AsmError::InvalidCombination => "invalid instruction and address mode combination",
        }
    }
}

impl Mnemonic {
    /// Whether the mnemonic is one of the eight branch instructions.
    pub open spec fn spec_is_branch(self) -> bool {
        self == Mnemonic::Bcc || self == Mnemonic::Bcs || self == Mnemonic::Beq || self
            == Mnemonic::Bmi || self == Mnemonic::Bne || self == Mnemonic::Bpl || self
            == Mnemonic::Bvc || self == Mnemonic::Bvs
    }

    /// Checks if the mnemonic is a branch instruction.
    #[verifier::when_used_as_spec(spec_is_branch)]
    pub fn is_branch(self) -> (b: bool)
        ensures
            b == self.spec_is_branch(),
    {
        match self {
            Mnemonic::Bcc
            | Mnemonic::Bcs
            | Mnemonic::Beq
            | Mnemonic::Bmi
            | Mnemonic::Bne
            | Mnemonic::Bpl
            | Mnemonic::Bvc
            | Mnemonic::Bvs => true,
            _ => false,
        }
    }

    /// Whether the mnemonic is an assembler directive rather than an instruction.
    pub open spec fn spec_is_directive(self) -> bool {
        self == Mnemonic::Dfb || self == Mnemonic::Dfw || self == Mnemonic::Hlt || self
            == Mnemonic::Sct
    }

    /// Checks if the mnemonic is an assembler directive.
    #[verifier::when_used_as_spec(spec_is_directive)]
    pub fn is_directive(self) -> (b: bool)
        ensures
            b == self.spec_is_directive(),
    {
        match self {
            Mnemonic::Dfb | Mnemonic::Dfw | Mnemonic::Hlt | Mnemonic::Sct => true,
            _ => false,
        }
    }
}

impl Reference {
    /// A reference is byte-wide when it selects one byte of the address or
    /// stands behind a branch, and word-wide otherwise.
    pub open spec fn spec_is_word(self) -> bool {
        self.which_byte == ByteSelect::Both && !self.branch
    }

    /// Tells whether the reference is word-wide.
    #[verifier::when_used_as_spec(spec_is_word)]
    pub fn is_word(self) -> (b: bool)
        ensures
            b == self.spec_is_word(),
    {
        self.which_byte == ByteSelect::Both && !self.branch
    }

    /// The number of bytes that a patch of this reference writes.
    pub open spec fn width(self) -> int {
        if self.spec_is_word() {
            2
        } else {
            1
        }
    }

    /// Both names leave their last byte zero, so each is at most 31 bytes long.
    pub open spec fn names_terminated(self) -> bool {
        &&& self.parent@[31] == 0
        &&& self.child matches Some(c) ==> c@[31] == 0
    }
}

impl OpVal {
    /// The width rule: a word literal or a word-wide reference takes two
    /// bytes, everything else one.
    pub open spec fn spec_is_word(self) -> bool {
        match self {
            OpVal::Byte(_) => false,
            OpVal::Word(_) => true,
            OpVal::Ref(rf) => rf.spec_is_word(),
        }
    }

    /// Tells whether the value is word-wide.
    #[verifier::when_used_as_spec(spec_is_word)]
    pub fn is_word(self) -> (b: bool)
        ensures
            b == self.spec_is_word(),
    {
        match self {
            OpVal::Byte(_) => false,
            OpVal::Word(_) => true,
            OpVal::Ref(rf) => rf.is_word(),
        }
    }

    /// The value written into the code: a literal itself, and for a
    /// reference a zero of its width.
    pub open spec fn spec_placeholder(self) -> OpVal {
        match self {
            OpVal::Byte(b) => OpVal::Byte(b),
            OpVal::Word(w) => OpVal::Word(w),
            OpVal::Ref(rf) => if rf.spec_is_word() {
                OpVal::Word(0)
            } else {
                OpVal::Byte(0)
            },
        }
    }

    /// Gives the value written into the code.
    #[verifier::when_used_as_spec(spec_placeholder)]
    pub fn placeholder(self) -> (v: OpVal)
        ensures
            v == self.spec_placeholder(),
    {
        match self {
            OpVal::Byte(b) => OpVal::Byte(b),
            OpVal::Word(w) => OpVal::Word(w),
            OpVal::Ref(rf) => if rf.is_word() {
                OpVal::Word(0)
            } else {
                OpVal::Byte(0)
            },
        }
    }

    /// The reference that the value holds, if it is one.
    pub open spec fn spec_reference(self) -> Option<Reference> {
        match self {
            OpVal::Ref(rf) => Some(rf),
            _ => None,
        }
    }

    /// Gives the reference that the value holds.
    #[verifier::when_used_as_spec(spec_reference)]
    pub fn reference(self) -> (r: Option<Reference>)
        ensures
            r == self.spec_reference(),
    {
        match self {
            OpVal::Ref(rf) => Some(rf),
            _ => None,
        }
    }
}

impl OpState {
    /// The value that the state holds, if it holds one.
    pub open spec fn spec_value(self) -> Option<OpVal> {
        match self {
            OpState::Plain(v)
            | OpState::Idx(v)
            | OpState::AbsX(v)
            | OpState::AbsY(v)
            | OpState::Imme(v)
            | OpState::Ind(v)
            | OpState::Xind(v)
            | OpState::IndY(v)
            | OpState::ZpgX(v)
            | OpState::ZpgY(v) => Some(v),
            OpState::MaybeInd(ind) => Some(
                match ind {
                    IndOp::Other(v)
                    | IndOp::Xind(v)
                    | IndOp::XindComma(v)
                    | IndOp::IndY(v)
                    | IndOp::IndYComma(v) => v,
                },
            ),
            OpState::StartInd | OpState::StartImme | OpState::Acc | OpState::Impl => None,
        }
    }

    /// Gives the value that the state holds.
    #[verifier::when_used_as_spec(spec_value)]
    pub fn value(self) -> (r: Option<OpVal>)
        ensures
            r == self.spec_value(),
    {
        match self {
            OpState::Plain(v)
            | OpState::Idx(v)
            | OpState::AbsX(v)
            | OpState::AbsY(v)
            | OpState::Imme(v)
            | OpState::Ind(v)
            | OpState::Xind(v)
            | OpState::IndY(v)
            | OpState::ZpgX(v)
            | OpState::ZpgY(v) => Some(v),
            OpState::MaybeInd(ind) => Some(
                match ind {
                    IndOp::Other(v)
                    | IndOp::Xind(v)
                    | IndOp::XindComma(v)
                    | IndOp::IndY(v)
                    | IndOp::IndYComma(v) => v,
                },
            ),
            OpState::StartInd | OpState::StartImme | OpState::Acc | OpState::Impl => None,
        }
    }

    /// The reference that the state's value holds, if it is one.
    pub open spec fn spec_reference(self) -> Option<Reference> {
        match self.spec_value() {
            Some(v) => v.spec_reference(),
            None => None,
        }
    }

    /// Gives the reference that the state's value holds.
    #[verifier::when_used_as_spec(spec_reference)]
    pub fn reference(self) -> (r: Option<Reference>)
        ensures
            r == self.spec_reference(),
    {
        match self.value() {
            Some(v) => v.reference(),
            None => None,
        }
    }

    /// Finalisation at the end of a line: a finished state gives its address
    /// mode and the value to encode, chosen by the value's width; an
    /// unfinished state, or a value of the wrong width for its form, gives
    /// nothing.
    pub open spec fn spec_destruct(self) -> Option<(AddressMode, OpVal)> {
        match self {
            OpState::Impl => Some((AddressMode::Impl, OpVal::Byte(0))),
            OpState::Acc => Some((AddressMode::Acc, OpVal::Byte(0))),
            OpState::Plain(v) => Some(
                (
                    if v.spec_is_word() {
                        AddressMode::Abs
                    } else {
                        AddressMode::Zpg
                    },
                    v.spec_placeholder(),
                ),
            ),
            OpState::AbsX(v) => if v.spec_is_word() {
                Some((AddressMode::AbsX, v.spec_placeholder()))
            } else {
                None
            },
            OpState::AbsY(v) => if v.spec_is_word() {
                Some((AddressMode::AbsY, v.spec_placeholder()))
            } else {
                None
            },
            OpState::Ind(v) => if v.spec_is_word() {
                Some((AddressMode::Ind, v.spec_placeholder()))
            } else {
                None
            },
            OpState::Imme(v) => if !v.spec_is_word() {
                Some((AddressMode::Imme, v.spec_placeholder()))
            } else {
                None
            },
            OpState::Xind(v) => if !v.spec_is_word() {
                Some((AddressMode::Xind, v.spec_placeholder()))
            } else {
                None
            },
            OpState::IndY(v) => if !v.spec_is_word() {
                Some((AddressMode::IndY, v.spec_placeholder()))
            } else {
                None
            },
            OpState::ZpgX(v) => if !v.spec_is_word() {
                Some((AddressMode::ZpgX, v.spec_placeholder()))
            } else {
                None
            },
            OpState::ZpgY(v) => if !v.spec_is_word() {
                Some((AddressMode::ZpgY, v.spec_placeholder()))
            } else {
                None
            },
            OpState::StartInd | OpState::StartImme | OpState::MaybeInd(_) | OpState::Idx(_) => None,
        }
    }

    /// Turns a finished operand state into its address mode and the value to
    /// encode.
    pub fn destruct(self) -> (r: Option<(AddressMode, OpVal)>)
        ensures
            r == self.spec_destruct(),
            r matches Some((_, v)) ==> !(v is Ref),
    {
        match self {
            OpState::Impl => Some((AddressMode::Impl, OpVal::Byte(0))),
            OpState::Acc => Some((AddressMode::Acc, OpVal::Byte(0))),
            OpState::Plain(v) => {
                if v.is_word() {
                    Some((AddressMode::Abs, v.placeholder()))
                } else {
                    Some((AddressMode::Zpg, v.placeholder()))
                }
            },
            OpState::AbsX(v) => if v.is_word() {
                Some((AddressMode::AbsX, v.placeholder()))
            } else {
                None
            },
            OpState::AbsY(v) => if v.is_word() {
                Some((AddressMode::AbsY, v.placeholder()))
            } else {
                None
            },
            OpState::Ind(v) => if v.is_word() {
                Some((AddressMode::Ind, v.placeholder()))
            } else {
                None
            },
            OpState::Imme(v) => if !v.is_word() {
                Some((AddressMode::Imme, v.placeholder()))
            } else {
                None
            },
            OpState::Xind(v) => if !v.is_word() {
                Some((AddressMode::Xind, v.placeholder()))
            } else {
                None
            },
            OpState::IndY(v) => if !v.is_word() {
                Some((AddressMode::IndY, v.placeholder()))
            } else {
                None
            },
            OpState::ZpgX(v) => if !v.is_word() {
                Some((AddressMode::ZpgX, v.placeholder()))
            } else {
                None
            },
            OpState::ZpgY(v) => if !v.is_word() {
                Some((AddressMode::ZpgY, v.placeholder()))
            } else {
                None
            },
            OpState::StartInd | OpState::StartImme | OpState::MaybeInd(_) | OpState::Idx(_) => None,
        }
    }
}

/// Where the operand of a statement starts in a section of `size` bytes:
/// behind the opcode, which a directive does not have.
pub open spec fn operand_offset(ins: Mnemonic, size: nat) -> nat {
    if ins.spec_is_directive() {
        size
    } else {
        size + 1
    }
}

/// `text` cut or filled with zero bytes to exactly `width` bytes.
pub open spec fn padded(text: Seq<u8>, width: nat) -> Seq<u8> {
    Seq::new(
        width,
        |i: int|
            if i < text.len() {
                text[i]
            } else {
                0u8
            },
    )
}

/// The 32-byte name field that holds `text`, filled with zero bytes.
pub open spec fn name_of(text: Seq<u8>) -> [u8; 32] {
    choose|a: [u8; 32]| a@ == padded(text, 32)
}

proof fn lemma_array_prefix(s: Seq<u8>, k: nat) -> (a: [u8; 32])
    requires
        s.len() == 32,
        k <= 32,
    ensures
        forall|i: int| 0 <= i < k ==> a@[i] == s[i],
    decreases k,
{
    broadcast use vstd::array::group_array_axioms;

    if k == 0 {
        vstd::array::spec_array_fill_for_copy_type::<u8, 32>(0u8)
    } else {
        let b = lemma_array_prefix(s, (k - 1) as nat);
        let a = vstd::array::spec_array_update(b, k - 1, s[k - 1]);
        assert(a@ == b@.update(k - 1, s[k - 1]));
        a
    }
}

/// Every text has its name field: `name_of` is the field whose bytes are the
/// text followed by zeros.
pub proof fn lemma_name_of(text: Seq<u8>)
    ensures
        name_of(text)@ == padded(text, 32),
{
    let a = lemma_array_prefix(padded(text, 32), 32);
    assert(a@ =~= padded(text, 32));
}

/// Builds the name field of an identifier.
pub fn make_name(text: &[u8]) -> (name: [u8; 32])
    requires
        text@.len() <= MAX_NAME,
    ensures
        name == name_of(text@),
        name@ == padded(text@, 32),
        name@[31] == 0,
{
    let mut name = [0u8; 32];
    let mut i: usize = 0;
    while i < text.len()
        invariant
            i <= text@.len() <= 31,
            forall|j: int| 0 <= j < i ==> name@[j] == text@[j],
            forall|j: int| i <= j < 32 ==> name@[j] == 0u8,
        decreases text@.len() - i,
    {
        name[i] = text[i];
        i += 1;
    }
    assert(name@ =~= padded(text@, 32));
    assert(name_of(text@) =~= name);
    name
}

/// Whether two name fields hold the same bytes.
pub fn name_eq(a: &[u8; 32], b: &[u8; 32]) -> (r: bool)
    ensures
        r == (*a == *b),
{
    let mut i: usize = 0;
    while i < 32
        invariant
            i <= 32,
            forall|j: int| 0 <= j < i ==> a@[j] == b@[j],
        decreases 32 - i,
    {
        if a[i] != b[i] {
            return false;
        }
        i += 1;
    }
    assert(*a =~= *b);
    true
}

/// One named section of a file: its code, labels and references.
#[derive(Debug)]
pub struct Section {
    pub name: [u8; 32],
    pub code: Vec<u8>,
    pub labels: Vec<Label>,
    pub references: Vec<Reference>,
    /// Index into `labels` of the parent declared last.
    pub last_parent: Option<usize>,
    pub num_parents: usize,
}

/// A section as a mathematical value.
pub struct SectionView {
    pub name: [u8; 32],
    pub code: Seq<u8>,
    pub labels: Seq<Label>,
    pub references: Seq<Reference>,
    pub last_parent: Option<usize>,
    pub num_parents: usize,
}

/// Whether, from index `i` on, `labels` is exactly `n` blocks of a parent
/// followed by its `num_children` children, the last block starting at `last`.
pub open spec fn label_blocks(labels: Seq<Label>, i: int, n: nat, last: int) -> bool
    decreases n,
{
    if n == 0 {
        false
    } else if n == 1 {
        i == last && 0 <= i < labels.len() && i + 1 + labels[i].num_children == labels.len()
    } else {
        &&& 0 <= i < labels.len()
        &&& i + 1 + labels[i].num_children <= last
        &&& label_blocks(labels, i + 1 + labels[i].num_children, (n - 1) as nat, last)
    }
}

/// A run of blocks holds at least as many labels as blocks, and its last
/// block ends the list.
pub proof fn lemma_label_blocks(labels: Seq<Label>, i: int, n: nat, last: int)
    requires
        label_blocks(labels, i, n, last),
    ensures
        0 <= i <= last < labels.len(),
        i + n <= labels.len(),
        last + 1 + labels[last].num_children == labels.len(),
    decreases n,
{
    if n > 1 {
        lemma_label_blocks(labels, i + 1 + labels[i].num_children, (n - 1) as nat, last);
    }
}

/// A new parent without children behind a run of blocks makes one block more.
pub proof fn lemma_blocks_push_parent(labels: Seq<Label>, i: int, n: nat, last: int, new: Label)
    requires
        label_blocks(labels, i, n, last),
        new.num_children == 0,
    ensures
        label_blocks(labels.push(new), i, n + 1, labels.len() as int),
    decreases n,
{
    let after = labels.push(new);
    lemma_label_blocks(labels, i, n, last);
    assert(after[i] == labels[i]);
    if n == 1 {
        assert(label_blocks(after, labels.len() as int, 1, labels.len() as int));
    } else {
        lemma_blocks_push_parent(
            labels,
            i + 1 + labels[i].num_children,
            (n - 1) as nat,
            last,
            new,
        );
    }
}

/// A new child behind a run of blocks, counted by the last parent, leaves
/// the same number of blocks.
pub proof fn lemma_blocks_push_child(labels: Seq<Label>, i: int, n: nat, last: int, new: Label)
    requires
        label_blocks(labels, i, n, last),
        labels[last].num_children < u32::MAX,
    ensures
        label_blocks(
            labels.update(
                last,
                Label { num_children: (labels[last].num_children + 1) as u32, ..labels[last] },
            ).push(new),
            i,
            n,
            last,
        ),
    decreases n,
{
    lemma_label_blocks(labels, i, n, last);
    if n > 1 {
        lemma_blocks_push_child(
            labels,
            i + 1 + labels[i].num_children,
            (n - 1) as nat,
            last,
            new,
        );
    }
}

/// A reference that joined a list is its last, and without it the list
/// is as before.
pub proof fn lemma_reference_begun(s: SectionView, rf: Reference)
    ensures
        s.with_reference(rf).references.last() == rf,
        s.with_reference(rf).without_last_reference() == s,
{
    assert(s.with_reference(rf).without_last_reference().references =~= s.references);
}

/// A reference that replaced the last of a list is its last, and without
/// it the list is as it was without the one before.
pub proof fn lemma_reference_changed(s: SectionView, rf: Reference)
    requires
        s.references.len() > 0,
    ensures
        s.with_last_reference(rf).references.len() == s.references.len(),
        s.with_last_reference(rf).references.last() == rf,
        s.with_last_reference(rf).without_last_reference() == s.without_last_reference(),
{
    assert(s.with_last_reference(rf).without_last_reference().references
        =~= s.without_last_reference().references);
}

impl SectionView {
    /// The section with a new parent label at the end of its code.
    pub open spec fn with_parent(self, vis: Visibility, name: [u8; 32]) -> SectionView {
        SectionView {
            labels: self.labels.push(
                Label { vis, name, num_children: 0, offset: self.code.len() as usize },
            ),
            last_parent: Some(self.labels.len() as usize),
            num_parents: (self.num_parents + 1) as usize,
            ..self
        }
    }

    /// The section with a new child label at the end of its code, counted
    /// by the parent declared last.
    pub open spec fn with_child(self, vis: Visibility, name: [u8; 32]) -> SectionView
        recommends
            self.last_parent is Some,
    {
        let last = self.last_parent->0 as int;
        SectionView {
            labels: self.labels.update(
                last,
                Label {
                    num_children: (self.labels[last].num_children + 1) as u32,
                    ..self.labels[last]
                },
            ).push(Label { vis, name, num_children: 0, offset: self.code.len() as usize }),
            ..self
        }
    }

    /// The section with bytes added to its code.
    pub open spec fn with_code(self, bytes: Seq<u8>) -> SectionView {
        SectionView { code: self.code + bytes, ..self }
    }

    /// The section with a reference added to its list.
    pub open spec fn with_reference(self, rf: Reference) -> SectionView {
        SectionView { references: self.references.push(rf), ..self }
    }

    /// The section with the last reference of its list replaced.
    pub open spec fn with_last_reference(self, rf: Reference) -> SectionView {
        SectionView {
            references: self.references.update(self.references.len() - 1, rf),
            ..self
        }
    }

    /// The section without the last reference of its list.
    pub open spec fn without_last_reference(self) -> SectionView {
        SectionView { references: self.references.drop_last(), ..self }
    }

    /// The invariant of a section between two lines: the code and the
    /// labels are within their limits, the labels are blocks of a parent and
    /// its children, and no label and no reference starts behind the end of
    /// the code. A reference may start at the end: that of a section name
    /// stays where its line stood.
    pub open spec fn wf(self) -> bool {
        &&& self.code.len() <= MAX_CODE
        &&& self.labels.len() <= MAX_LABELS
        &&& match self.last_parent {
            None => self.labels.len() == 0 && self.num_parents == 0,
            Some(last) => label_blocks(self.labels, 0, self.num_parents as nat, last as int),
        }
        &&& forall|i: int|
            0 <= i < self.labels.len() ==> {
                &&& (#[trigger] self.labels[i]).offset <= self.code.len()
                &&& self.labels[i].name@[31] == 0
            }
        &&& forall|i: int|
            0 <= i < self.references.len() ==> {
                &&& (#[trigger] self.references[i]).offset <= self.code.len()
                &&& self.references[i].names_terminated()
            }
    }

    /// The section that a name gets when it is first switched to.
    pub open spec fn empty(name: [u8; 32]) -> SectionView {
        SectionView {
            name,
            code: Seq::empty(),
            labels: Seq::empty(),
            references: Seq::empty(),
            last_parent: None,
            num_parents: 0,
        }
    }
}

impl View for Section {
    type V = SectionView;

    open spec fn view(&self) -> SectionView {
        SectionView {
            name: self.name,
            code: self.code@,
            labels: self.labels@,
            references: self.references@,
            last_parent: self.last_parent,
            num_parents: self.num_parents,
        }
    }
}

impl Section {
    /// An empty section of the given name.
    pub fn new(name: [u8; 32]) -> (s: Section)
        ensures
            s@ == SectionView::empty(name),
            s@.wf(),
    {
        Section {
            name,
            code: Vec::new(),
            labels: Vec::new(),
            references: Vec::new(),
            last_parent: None,
            num_parents: 0,
        }
    }

    /// The number of code bytes emitted so far.
    pub fn size(&self) -> (n: usize)
        ensures
            n == self@.code.len(),
    {
        self.code.len()
    }
}

impl Default for Section {
    /// The default section: empty, and named by the empty name.
    fn default() -> (s: Section)
        ensures
            s@ == SectionView::empty(name_of(Seq::empty())),
            s@.wf(),
    {
        let empty: [u8; 0] = [];
        let text = empty.as_slice();
        assert(text@ =~= Seq::empty());
        Section::new(make_name(text))
    }
}

/// The sections of a list as mathematical values.
pub open spec fn section_views(sections: Seq<Section>) -> Seq<SectionView> {
    Seq::new(sections.len(), |i: int| sections[i]@)
}

/// The state of one file's assembly.
#[derive(Debug)]
pub struct Program {
    /// The number of the line being read, from 1.
    pub line: usize,
    /// The sections in the order they were first named; the default section
    /// comes first.
    pub sections: Vec<Section>,
    /// Index into `sections` of the section that code goes to.
    pub active: usize,
    /// The visibility marker on the current line.
    pub vis: Option<Visibility>,
    /// Whether no label and no mnemonic stands on the current line yet.
    pub start_line: bool,
    pub ins: Option<Mnemonic>,
    pub op: Option<OpState>,
}

/// An assembly state as a mathematical value.
pub struct ProgramView {
    pub line: usize,
    pub sections: Seq<SectionView>,
    pub active: usize,
    pub vis: Option<Visibility>,
    pub start_line: bool,
    pub ins: Option<Mnemonic>,
    pub op: Option<OpState>,
}

impl ProgramView {
    /// The reference that the operand of the current line holds.
    pub open spec fn pending(self) -> Option<Reference> {
        match self.op {
            Some(op) => op.spec_reference(),
            None => None,
        }
    }

    /// The invariant of an assembly state: the active section exists, no
    /// two sections share a name, and every section is well formed, but
    /// for the reference of the current line. That reference is the last
    /// of the active section's list; it may start one byte behind the end
    /// of the code until the end of its line has written the opcode.
    pub open spec fn wf(self) -> bool {
        &&& self.active < self.sections.len()
        &&& forall|i: int|
            0 <= i < self.sections.len() && i != self.active ==> (#[trigger] self.sections[i]).wf()
        &&& forall|i: int, j: int|
            0 <= i < j < self.sections.len() ==> (#[trigger] self.sections[i]).name != (
            #[trigger] self.sections[j]).name
        &&& match self.pending() {
            None => self.current().wf(),
            Some(rf) => {
                &&& self.current().references.len() > 0
                &&& self.current().references.last() == rf
                &&& self.current().without_last_reference().wf()
                &&& self.holds(rf)
            },
        }
    }

    /// The invariant between two lines: no reference waits, so every
    /// section is well formed.
    pub open spec fn settled(self) -> bool {
        &&& self.wf()
        &&& self.pending() is None
    }

    /// What holds of a reference while it waits for the end of its line:
    /// its names are at most 31 bytes long, and its offset and branch mark
    /// are those of an operand of the line's mnemonic at the end of the
    /// active section.
    pub open spec fn holds(self, rf: Reference) -> bool {
        &&& rf.names_terminated()
        &&& self.ins matches Some(ins) && rf.offset == operand_offset(
            ins,
            self.current().code.len(),
        ) && rf.branch == ins.spec_is_branch()
    }

    /// The state before the first line.
    pub open spec fn initial() -> ProgramView {
        ProgramView {
            line: 1,
            sections: seq![SectionView::empty(name_of(Seq::empty()))],
            active: 0,
            vis: None,
            start_line: true,
            ins: None,
            op: None,
        }
    }

    /// The section that code goes to.
    pub open spec fn current(self) -> SectionView {
        self.sections[self.active as int]
    }

    /// The state with the active section replaced.
    pub open spec fn with_current(self, s: SectionView) -> ProgramView {
        ProgramView { sections: self.sections.update(self.active as int, s), ..self }
    }

    /// The state with the operand replaced.
    pub open spec fn with_op(self, op: OpState) -> ProgramView {
        ProgramView { op: Some(op), ..self }
    }

    /// The state with a reference begun: it joins the references of the
    /// active section, and the operand holds it.
    pub open spec fn with_begun(self, op: OpState, rf: Reference) -> ProgramView {
        self.with_current(self.current().with_reference(rf)).with_op(op)
    }

    /// The state with the reference of the line changed, in the operand
    /// and as the last of the active section's references.
    pub open spec fn with_changed(self, op: OpState) -> ProgramView {
        match op.spec_reference() {
            Some(rf) => self.with_current(self.current().with_last_reference(rf)).with_op(op),
            None => self.with_op(op),
        }
    }
}

impl View for Program {
    type V = ProgramView;

    open spec fn view(&self) -> ProgramView {
        ProgramView {
            line: self.line,
            sections: section_views(self.sections@),
            active: self.active,
            vis: self.vis,
            start_line: self.start_line,
            ins: self.ins,
            op: self.op,
        }
    }
}

impl Default for Program {
    /// The state before the first line: line 1, the default section alone
    /// and active, nothing on the line.
    fn default() -> (p: Program)
        ensures
            p@ == ProgramView::initial(),
            p@.wf(),
    {
        let mut sections = Vec::new();
        sections.push(Section::default());
        let p = Program {
            line: 1,
            sections,
            active: 0,
            vis: None,
            start_line: true,
            ins: None,
            op: None,
        };
        assert(p@.sections =~= ProgramView::initial().sections);
        p
    }
}

/// Between two lines every section is well formed.
pub proof fn lemma_settled_sections(p: ProgramView)
    requires
        p.settled(),
    ensures
        forall|i: int| 0 <= i < p.sections.len() ==> (#[trigger] p.sections[i]).wf(),
{
    assert forall|i: int| 0 <= i < p.sections.len() implies (#[trigger] p.sections[i]).wf() by {
        if i == p.active {
            assert(p.current().wf());
        }
    }
}

impl Program {
    /// Begins a reference: it joins the references of the active section,
    /// and the operand holds it.
    pub fn begin_reference(&mut self, op: OpState, rf: Reference)
        requires
            old(self).active < old(self).sections@.len(),
        ensures
            final(self)@ == old(self)@.with_begun(op, rf),
    {
        let active = self.active;
        self.sections[active].references.push(rf);
        self.op = Some(op);
        assert(self@.sections =~= old(self)@.with_begun(op, rf).sections);
    }

    /// Changes the reference of the line, in the operand and as the last
    /// of the active section's references.
    pub fn change_reference(&mut self, op: OpState)
        requires
            old(self).active < old(self).sections@.len(),
            old(self)@.current().references.len() > 0,
        ensures
            final(self)@ == old(self)@.with_changed(op),
    {
        match op.reference() {
            Some(rf) => {
                let active = self.active;
                let last = self.sections[active].references.len() - 1;
                self.sections[active].references[last] = rf;
                assert(self@.sections =~= old(self)@.with_changed(op).sections);
            },
            None => {},
        }
        self.op = Some(op);
    }
}

} // verus!
