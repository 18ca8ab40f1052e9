//! Assembling a source text, and writing the finished sections as an
//! object file.

use crate::callbacks::operands::{all_digits, digits_of, radix_of, spec_literal};
use crate::callbacks::{eol, next_line, spec_eol, spec_step, step};
use crate::codec::{
    le16, le32, padding, push_bytes, push_le16, push_le32, push_zeros, qualified, spec_qualified,
};
use crate::ir::{
    lemma_label_blocks, lemma_settled_sections, section_views, AsmError, ByteSelect, Label,
    Mnemonic, OpState, OpVal, Program, ProgramView, Reference, Section, SectionView, Visibility,
};
use crate::token::{
    lemma_run_len_is, lemma_token_len, next_token, run, run_len, spec_in_class, spec_token,
    CharClass, Token,
};
use vstd::prelude::*;
use vstd::slice::slice_subrange;

verus! {

/// A refused source text: the error, the line it is on, and where in the
/// text the offending token starts and ends.
#[derive(Clone, Copy, PartialEq, Eq, Structural, Debug)]
pub struct AsmFailure {
    pub line: usize,
    pub error: AsmError,
    pub start: usize,
    pub end: usize,
}

/// The outcome of scanning `src` from `pos` on in state `p`: blanks are
/// skipped, each token is handed to its handler, the first refusal ends
/// the scan, and the end of the text ends the last line.
pub open spec fn spec_run(src: Seq<u8>, pos: int, p: ProgramView) -> Result<
    ProgramView,
    AsmFailure,
>
    decreases src.len() - pos,
{
    let start = pos + run_len(src, pos, CharClass::Blank);
    if pos < 0 || start >= src.len() {
        match spec_eol(p) {
            Ok(q) => Ok(q),
            Err(e) => Err(
                AsmFailure {
                    line: p.line,
                    error: e,
                    start: src.len() as usize,
                    end: src.len() as usize,
                },
            ),
        }
    } else {
        let (token, n) = spec_token(src, start);
        match spec_step(p, token, src.subrange(start, start + n)) {
            Ok(q) => {
                proof {
                    lemma_token_len(src, start);
                }
                spec_run(src, start + n, q)
            },
            Err(e) => Err(
                AsmFailure {
                    line: p.line,
                    error: e,
                    start: start as usize,
                    end: (start + n) as usize,
                },
            ),
        }
    }
}

/// The state that a whole source text leaves.
pub open spec fn spec_assemble(src: Seq<u8>) -> Result<ProgramView, AsmFailure> {
    spec_run(src, 0, ProgramView::initial())
}

/// Assembles a source text into its sections.
pub fn assemble(src: &[u8]) -> (r: Result<Program, AsmFailure>)
    ensures
        match spec_assemble(src@) {
            Ok(q) => r is Ok && r->Ok_0@ == q && q.settled(),
            Err(f) => r == Err::<Program, AsmFailure>(f),
        },
{
    let mut p = Program::default();
    let mut pos: usize = 0;
    let len = src.len();
    loop
        invariant
            pos <= len == src@.len(),
            p@.wf(),
            spec_run(src@, pos as int, p@) == spec_assemble(src@),
        ensures
            pos + run_len(src@, pos as int, CharClass::Blank) >= len,
        decreases len - pos,
    {
        let start = pos + run(src, pos, CharClass::Blank);
        if start >= len {
            break ;
        }
        let (token, n) = next_token(src, start);
        let text = slice_subrange(src, start, start + n);
        let line = p.line;
        match step(&mut p, token, text) {
            Ok(()) => {},
            Err(e) => {
                return Err(AsmFailure { line, error: e, start, end: start + n });
            },
        }
        pos = start + n;
    }
    let line = p.line;
    match eol(&mut p) {
        Ok(()) => Ok(p),
        Err(e) => Err(AsmFailure { line, error: e, start: len, end: len }),
    }
}

/// The number that stands for a visibility in an object file.
pub open spec fn vis_code(vis: Visibility) -> u32 {
    match vis {
        Visibility::Hidden => 0,
        Visibility::Object => 1,
        Visibility::Global => 2,
    }
}

/// The number that stands for a byte selection in an object file.
pub open spec fn select_code(which: ByteSelect) -> u16 {
    match which {
        ByteSelect::Both => 0,
        ByteSelect::High => 1,
        ByteSelect::Low => 2,
    }
}

/// The record of a parent label: name, number of children, offset, visibility.
pub open spec fn parent_record(l: Label) -> Seq<u8> {
    l.name@ + le32(l.num_children) + le32(l.offset as u32) + le32(vis_code(l.vis))
}

/// The record of a child label: name, offset, visibility.
pub open spec fn child_record(l: Label) -> Seq<u8> {
    l.name@ + le32(l.offset as u32) + le32(vis_code(l.vis))
}

/// The number of children that the last parent among the first `k` labels
/// still waits for.
pub open spec fn children_owed(labels: Seq<Label>, k: int) -> nat
    decreases k,
{
    if k <= 0 {
        0
    } else {
        let before = children_owed(labels, k - 1);
        if before == 0 {
            labels[k - 1].num_children as nat
        } else {
            (before - 1) as nat
        }
    }
}

/// The records of the first `k` labels: a label is written as a child
/// while the parent before it waits for children, and as a parent otherwise.
pub open spec fn label_records(labels: Seq<Label>, k: int) -> Seq<u8>
    decreases k,
{
    if k <= 0 {
        Seq::empty()
    } else {
        label_records(labels, k - 1) + if children_owed(labels, k - 1) == 0 {
            parent_record(labels[k - 1])
        } else {
            child_record(labels[k - 1])
        }
    }
}

/// The record of a reference: the qualified name, the offset, the byte
/// selection, and whether it is a branch target.
pub open spec fn reference_record(r: Reference) -> Seq<u8> {
    spec_qualified(r.parent, r.child)@ + le32(r.offset as u32) + le16(select_code(r.which_byte))
        + le16(
        if r.branch {
            1
        } else {
            0
        },
    )
}

/// The records of the first `k` references.
pub open spec fn reference_records(references: Seq<Reference>, k: int) -> Seq<u8>
    decreases k,
{
    if k <= 0 {
        Seq::empty()
    } else {
        reference_records(references, k - 1) + reference_record(references[k - 1])
    }
}

/// A section in an object file: the header of name, size, number of
/// parents and number of references; the labels; the references; the code,
/// filled with zeros to a multiple of four bytes.
pub open spec fn section_record(s: SectionView) -> Seq<u8> {
    s.name@ + le32(s.code.len() as u32) + le32(s.num_parents as u32) + le32(
        s.references.len() as u32,
    ) + label_records(s.labels, s.labels.len() as int) + reference_records(
        s.references,
        s.references.len() as int,
    ) + s.code + Seq::new(padding(s.code.len()), |i: int| 0u8)
}

/// The records of the first `k` sections.
pub open spec fn section_records(sections: Seq<SectionView>, k: int) -> Seq<u8>
    decreases k,
{
    if k <= 0 {
        Seq::empty()
    } else {
        section_records(sections, k - 1) + section_record(sections[k - 1])
    }
}

/// An object file: the number of sections, then the sections in order.
pub open spec fn object_bytes(sections: Seq<SectionView>) -> Seq<u8> {
    le32(sections.len() as u32) + section_records(sections, sections.len() as int)
}

fn code_of_vis(vis: Visibility) -> (c: u32)
    ensures
        c == vis_code(vis),
{
    match vis {
        Visibility::Hidden => 0,
        Visibility::Object => 1,
        Visibility::Global => 2,
    }
}

fn code_of_select(which: ByteSelect) -> (c: u16)
    ensures
        c == select_code(which),
{
    match which {
        ByteSelect::Both => 0,
        ByteSelect::High => 1,
        ByteSelect::Low => 2,
    }
}

fn write_labels(out: &mut Vec<u8>, labels: &Vec<Label>)
    requires
        forall|i: int| 0 <= i < labels@.len() ==> (#[trigger] labels@[i]).offset <= u32::MAX,
    ensures
        final(out)@ == old(out)@ + label_records(labels@, labels@.len() as int),
{
    let mut i: usize = 0;
    let mut owed: u32 = 0;
    assert(out@ =~= old(out)@ + label_records(labels@, 0));
    while i < labels.len()
        invariant
            i <= labels@.len(),
            forall|i: int| 0 <= i < labels@.len() ==> (#[trigger] labels@[i]).offset <= u32::MAX,
            out@ == old(out)@ + label_records(labels@, i as int),
            owed == children_owed(labels@, i as int),
        decreases labels@.len() - i,
    {
        let l = labels[i];
        push_bytes(out, l.name.as_slice());
        if owed == 0 {
            push_le32(out, l.num_children);
            owed = l.num_children;
        } else {
            owed = owed - 1;
        }
        push_le32(out, l.offset as u32);
        push_le32(out, code_of_vis(l.vis));
        i += 1;
        assert(out@ =~= old(out)@ + label_records(labels@, i as int));
    }
}

fn write_references(out: &mut Vec<u8>, references: &Vec<Reference>)
    requires
        forall|i: int|
            0 <= i < references@.len() ==> (#[trigger] references@[i]).offset <= u32::MAX,
    ensures
        final(out)@ == old(out)@ + reference_records(references@, references@.len() as int),
{
    let mut i: usize = 0;
    assert(out@ =~= old(out)@ + reference_records(references@, 0));
    while i < references.len()
        invariant
            i <= references@.len(),
            forall|i: int|
                0 <= i < references@.len() ==> (#[trigger] references@[i]).offset <= u32::MAX,
            out@ == old(out)@ + reference_records(references@, i as int),
        decreases references@.len() - i,
    {
        let r = references[i];
        let name = qualified(&r.parent, &r.child);
        push_bytes(out, name.as_slice());
        push_le32(out, r.offset as u32);
        push_le16(out, code_of_select(r.which_byte));
        push_le16(
            out,
            if r.branch {
                1
            } else {
                0
            },
        );
        i += 1;
        assert(out@ =~= old(out)@ + reference_records(references@, i as int));
    }
}

fn write_section(out: &mut Vec<u8>, s: &Section)
    requires
        s@.wf(),
        s@.references.len() <= u32::MAX,
    ensures
        final(out)@ == old(out)@ + section_record(s@),
{
    proof {
        if let Some(last) = s@.last_parent {
            lemma_label_blocks(s@.labels, 0, s@.num_parents as nat, last as int);
        }
    }
    let size = s.code.len();
    let ghost before = out@;
    push_bytes(out, s.name.as_slice());
    let ghost record = s.name@;
    push_le32(out, size as u32);
    let ghost record = record + le32(size as u32);
    assert(out@ =~= before + record);
    push_le32(out, s.num_parents as u32);
    let ghost record = record + le32(s.num_parents as u32);
    assert(out@ =~= before + record);
    push_le32(out, s.references.len() as u32);
    let ghost record = record + le32(s.references.len() as u32);
    assert(out@ =~= before + record);
    write_labels(out, &s.labels);
    let ghost record = record + label_records(s.labels@, s.labels@.len() as int);
    assert(out@ =~= before + record);
    write_references(out, &s.references);
    let ghost record = record + reference_records(s.references@, s.references@.len() as int);
    assert(out@ =~= before + record);
    push_bytes(out, s.code.as_slice());
    let ghost record = record + s.code@;
    assert(out@ =~= before + record);
    push_zeros(out, (4 - size % 4) % 4);
    let ghost record = record + Seq::new(padding(size as nat), |i: int| 0u8);
    assert(out@ =~= before + record);
    assert(record == section_record(s@));
}

/// Whether an object file can count the sections: their number, and the
/// number of references of each, fit into 32 bits.
pub open spec fn countable(sections: Seq<SectionView>) -> bool {
    &&& sections.len() <= u32::MAX
    &&& forall|i: int|
        0 <= i < sections.len() ==> (#[trigger] sections[i]).references.len() <= u32::MAX
}

/// Tells whether an object file can count the sections.
pub fn is_countable(sections: &Vec<Section>) -> (r: bool)
    ensures
        r == countable(section_views(sections@)),
{
    if sections.len() > 0xffff_ffff {
        return false;
    }
    let ghost views = section_views(sections@);
    let mut i: usize = 0;
    while i < sections.len()
        invariant
            i <= sections@.len() <= u32::MAX,
            views == section_views(sections@),
            forall|k: int| 0 <= k < i ==> (#[trigger] views[k]).references.len() <= u32::MAX,
        decreases sections@.len() - i,
    {
        if sections[i].references.len() > 0xffff_ffff {
            assert(views[i as int].references.len() > u32::MAX);
            return false;
        }
        i += 1;
    }
    true
}

/// Writes the sections of a program as an object file.
pub fn create_object(sections: &Vec<Section>) -> (out: Vec<u8>)
    requires
        countable(section_views(sections@)),
        forall|i: int| 0 <= i < sections@.len() ==> (#[trigger] sections@[i])@.wf(),
    ensures
        out@ == object_bytes(section_views(sections@)),
{
    let mut out: Vec<u8> = Vec::new();
    push_le32(&mut out, sections.len() as u32);
    let ghost views = section_views(sections@);
    let mut i: usize = 0;
    assert(out@ =~= le32(views.len() as u32) + section_records(views, 0));
    while i < sections.len()
        invariant
            i <= sections@.len(),
            views == section_views(sections@),
            countable(views),
            forall|i: int| 0 <= i < sections@.len() ==> (#[trigger] sections@[i])@.wf(),
            out@ == le32(views.len() as u32) + section_records(views, i as int),
        decreases sections@.len() - i,
    {
        assert(views[i as int].references.len() <= u32::MAX);
        write_section(&mut out, &sections[i]);
        i += 1;
        assert(out@ =~= le32(views.len() as u32) + section_records(views, i as int));
    }
    out
}

/// The object file that a source text assembles to. A text with more
/// sections, or more references in a section, than a 32-bit count holds
/// is too large.
pub open spec fn spec_assemble_to_object(src: Seq<u8>) -> Result<Seq<u8>, AsmFailure> {
    match spec_assemble(src) {
        Ok(q) => if !countable(q.sections) {
            Err(
                AsmFailure {
                    line: q.line,
                    error: AsmError::ProgramTooLarge,
                    start: src.len() as usize,
                    end: src.len() as usize,
                },
            )
        } else {
            Ok(object_bytes(q.sections))
        },
        Err(f) => Err(f),
    }
}

/// Assembles a source text and gives the bytes of its object file.
pub fn assemble_to_object(src: &[u8]) -> (r: Result<Vec<u8>, AsmFailure>)
    ensures
        match spec_assemble_to_object(src@) {
            Ok(bytes) => r is Ok && r->Ok_0@ == bytes,
            Err(f) => r == Err::<Vec<u8>, AsmFailure>(f),
        },
{
    let p = assemble(src)?;
    if !is_countable(&p.sections) {
        return Err(
            AsmFailure {
                line: p.line,
                error: AsmError::ProgramTooLarge,
                start: src.len(),
                end: src.len(),
            },
        );
    }
    assert forall|i: int| 0 <= i < p.sections@.len() implies (#[trigger] p.sections@[i])@.wf() by {
        lemma_settled_sections(p@);
        assert(p@.sections[i].wf());
    }
    Ok(create_object(&p.sections))
}

/// The source line `lda #` with a literal behind it, with or without a
/// newline at its end.
pub open spec fn lda_immediate_line(literal: Seq<u8>, newline: bool) -> Seq<u8> {
    seq!['l' as u8, 'd' as u8, 'a' as u8, ' ' as u8, '#' as u8] + literal + if newline {
        seq!['\n' as u8]
    } else {
        Seq::empty()
    }
}

/// A literal that stands in the text and ends it, or is followed by a
/// newline, is scanned as one number token.
pub proof fn lemma_literal_token(src: Seq<u8>, pos: int, literal: Seq<u8>)
    requires
        0 <= pos,
        pos + literal.len() <= src.len(),
        src.subrange(pos, pos + literal.len()) == literal,
        pos + literal.len() == src.len() || src[pos + literal.len()] == '\n' as u8,
        spec_literal(literal) is Some,
    ensures
        run_len(src, pos, CharClass::Blank) == 0,
        spec_token(src, pos) == (Token::Num, literal.len()),
{
    let n = literal.len() as int;
    let radix = radix_of(literal);
    let digits = digits_of(literal);
    let class = if radix == 2 {
        CharClass::Bin
    } else if radix == 8 {
        CharClass::Oct
    } else if radix == 16 {
        CharClass::Hex
    } else {
        CharClass::Dec
    };
    assert(n >= 1);
    assert forall|i: int| 0 <= i < n implies src[pos + i] == literal[i] by {
        assert(src.subrange(pos, pos + n)[i] == src[pos + i]);
    }
    assert forall|i: int| 0 <= i < digits.len() implies spec_in_class(
        #[trigger] digits[i],
        class,
    ) by {
        assert(all_digits(digits, radix));
    }
    if radix == 10 {
        assert(spec_in_class(digits[0], class));
    }
    lemma_run_len_is(src, pos, 0, CharClass::Blank);
    assert forall|i: int| pos + 1 <= i < pos + n implies spec_in_class(
        #[trigger] src[i],
        class,
    ) by {
        if radix == 10 {
            assert(src[i] == digits[i - pos]);
        } else {
            assert(src[i] == digits[i - pos - 1]);
        }
    }
    lemma_run_len_is(src, pos + 1, (n - 1) as nat, class);
}

/// The text `lda #` is scanned as the mnemonic, a blank and the pound.
proof fn lemma_lda_pound_tokens(src: Seq<u8>)
    requires
        src.len() >= 5,
        src.subrange(0, 5) == seq!['l' as u8, 'd' as u8, 'a' as u8, ' ' as u8, '#' as u8],
    ensures
        run_len(src, 0, CharClass::Blank) == 0,
        spec_token(src, 0) == (Token::Mnem(Mnemonic::Lda), 3nat),
        run_len(src, 3, CharClass::Blank) == 1,
        spec_token(src, 4) == (Token::Imme, 1nat),
{
    let head = seq!['l' as u8, 'd' as u8, 'a' as u8, ' ' as u8, '#' as u8];
    assert forall|i: int| 0 <= i < 5 implies src[i] == head[i] by {
        assert(src.subrange(0, 5)[i] == src[i]);
    }
    lemma_run_len_is(src, 0, 0, CharClass::Blank);
    lemma_run_len_is(src, 1, 2, CharClass::Word);
    lemma_run_len_is(src, 3, 1, CharClass::Blank);
    assert(src.subrange(0, 3) =~= seq!['l' as u8, 'd' as u8, 'a' as u8]);
}

/// The handlers take the tokens of `lda #v` from the state before the
/// first line to the two bytes `a9` and `v` in the default section.
pub proof fn lemma_lda_immediate_steps(literal: Seq<u8>, v: u8, any: Seq<u8>)
    requires
        spec_literal(literal) == Some(OpVal::Byte(v)),
    ensures
        ({
            let start = ProgramView::initial();
            let named = ProgramView { ins: Some(Mnemonic::Lda), start_line: false, ..start };
            let opened = named.with_op(OpState::StartImme);
            let valued = named.with_op(OpState::Imme(OpVal::Byte(v)));
            let ended = next_line(
                valued.with_current(valued.current().with_code(seq![0xa9u8, v])),
            );
            &&& spec_step(start, Token::Mnem(Mnemonic::Lda), any) == Ok::<ProgramView, AsmError>(
                named,
            )
            &&& spec_step(named, Token::Imme, any) == Ok::<ProgramView, AsmError>(opened)
            &&& spec_step(opened, Token::Num, literal) == Ok::<ProgramView, AsmError>(valued)
            &&& spec_step(valued, Token::Eol, any) == Ok::<ProgramView, AsmError>(ended)
            &&& spec_eol(valued) == Ok::<ProgramView, AsmError>(ended)
            &&& spec_eol(ended) == Ok::<ProgramView, AsmError>(next_line(ended))
            &&& ended.sections.len() == 1
            &&& ended.sections[0].code == seq![0xa9u8, v]
            &&& ended.sections[0].references.len() == 0
            &&& ended.sections[0].labels.len() == 0
            &&& next_line(ended).sections == ended.sections
        }),
{
    assert(Seq::<u8>::empty() + (seq![0xa9u8] + seq![v]) =~= seq![0xa9u8, v]);
}

proof fn lemma_lda_immediate_scanned(src: Seq<u8>, literal: Seq<u8>, v: u8)
    requires
        spec_literal(literal) == Some(OpVal::Byte(v)),
        5 + literal.len() <= src.len(),
        src.subrange(0, 5) == seq!['l' as u8, 'd' as u8, 'a' as u8, ' ' as u8, '#' as u8],
        src.subrange(5, 5 + literal.len() as int) == literal,
        5 + literal.len() == src.len() || src[5 + literal.len() as int] == '\n' as u8,
    ensures
        spec_run(src, 0, ProgramView::initial()) == spec_run(
            src,
            5 + literal.len() as int,
            (ProgramView {
                ins: Some(Mnemonic::Lda),
                start_line: false,
                ..ProgramView::initial()
            }).with_op(OpState::Imme(OpVal::Byte(v))),
        ),
{
    let n = literal.len() as int;
    let start = ProgramView::initial();
    let named = ProgramView { ins: Some(Mnemonic::Lda), start_line: false, ..start };
    let opened = named.with_op(OpState::StartImme);
    let valued = named.with_op(OpState::Imme(OpVal::Byte(v)));
    lemma_lda_pound_tokens(src);
    lemma_literal_token(src, 5, literal);
    lemma_lda_immediate_steps(literal, v, src.subrange(0, 3));
    lemma_lda_immediate_steps(literal, v, src.subrange(4, 5));
    assert(spec_run(src, 0, start) == spec_run(src, 3, named));
    assert(spec_run(src, 3, named) == spec_run(src, 5, opened));
    assert(spec_run(src, 5, opened) == spec_run(src, 5 + n, valued));
}

/// For every literal that writes a byte `v`, in any radix, the line
/// `lda #` with that literal assembles to the two bytes `a9` and `v`, in
/// the default section, which stays the only one. A literal writes a
/// byte if its value is at most 255 and it has no more digits than a
/// byte needs in its radix.
pub proof fn lemma_lda_immediate(literal: Seq<u8>, v: u8, newline: bool)
    requires
        spec_literal(literal) == Some(OpVal::Byte(v)),
    ensures
        spec_assemble(lda_immediate_line(literal, newline)) matches Ok(q) && q.sections.len() == 1
            && q.sections[0].code == seq![0xa9u8, v] && q.sections[0].references.len() == 0
            && q.sections[0].labels.len() == 0,
{
    let src = lda_immediate_line(literal, newline);
    let n = literal.len() as int;
    let start = ProgramView::initial();
    let named = ProgramView { ins: Some(Mnemonic::Lda), start_line: false, ..start };
    let valued = named.with_op(OpState::Imme(OpVal::Byte(v)));
    let ended = next_line(
        valued.with_current(valued.current().with_code(seq![0xa9u8, v])),
    );
    assert(src.subrange(0, 5) =~= seq!['l' as u8, 'd' as u8, 'a' as u8, ' ' as u8, '#' as u8]);
    assert(src.subrange(5, 5 + n) =~= literal);
    lemma_lda_immediate_scanned(src, literal, v);
    lemma_run_len_is(src, 5 + n, 0, CharClass::Blank);
    if newline {
        lemma_lda_immediate_steps(literal, v, src.subrange(5 + n, 6 + n));
        assert(spec_token(src, 5 + n) == (Token::Eol, 1nat));
        assert(spec_run(src, 5 + n, valued) == spec_run(src, 6 + n, ended));
        lemma_run_len_is(src, 6 + n, 0, CharClass::Blank);
        assert(spec_run(src, 6 + n, ended) == Ok::<ProgramView, AsmFailure>(next_line(ended)));
    } else {
        lemma_lda_immediate_steps(literal, v, Seq::empty());
        assert(spec_run(src, 5 + n, valued) == Ok::<ProgramView, AsmFailure>(ended));
    }
}

} // verus!
