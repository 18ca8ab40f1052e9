//! What the object reader makes of what the object writer wrote.

use crate::callbacks::operands::spec_select;
use crate::callbacks::{
    lemma_find_section, lemma_section_name_settles, lemma_statement_settles, spec_eol, spec_step,
};
use crate::codec::{
    is_ascii, le16, le32, lemma_index_of, lemma_le16_round_trip, lemma_le32_round_trip,
    lemma_name64_of, lemma_text_end, lemma_text_of_padded, padding, qualified_text,
    spec_decode32, spec_decode64, spec_index_of, spec_qualified, text_end, text_of,
};
use crate::formats::{ObjectSpan, SectionView as LinkedSection};
use crate::ir::{
    label_blocks, lemma_blocks_push_child, lemma_blocks_push_parent, lemma_label_blocks,
    lemma_name_of, lemma_reference_begun, lemma_reference_changed, lemma_settled_sections,
    name_of, padded, ByteSelect, Mnemonic, ProgramView, SectionView,
};
use crate::linker::LinkError;
use crate::object::{
    appended, empty_section, section_names, spec_merge_section, spec_merge_sections,
    spec_read_object, spec_scan_label, spec_scan_labels, spec_scan_reference,
    spec_scan_references, spec_section_at, spec_sections, spec_select_of, spec_vis_of, u16_at,
    u32_at, with_scopes, LabelScan, ObjectError, ReferenceScan,
};
use crate::output::{
    child_record, children_owed, countable, label_records, object_bytes, parent_record,
    reference_record, reference_records, section_record, section_records, select_code,
    spec_assemble, spec_assemble_to_object, spec_run, vis_code,
};
use crate::token::{lemma_token_len, run_len, spec_in_class, spec_token, CharClass, Token};
use vstd::prelude::*;

verus! {

/// Whether a name field is plain text: ASCII bytes, then nothing but
/// zeros, at least one.
pub open spec fn plain_name(name: [u8; 32]) -> bool {
    &&& name@[31] == 0
    &&& is_ascii(name@)
    &&& forall|i: int, j: int| 0 <= i <= j < 32 && name@[i] == 0 ==> name@[j] == 0
}

/// A plain name is decoded as itself.
pub proof fn lemma_plain_name_decodes(name: [u8; 32])
    requires
        plain_name(name),
    ensures
        spec_decode32(name@) == Some(name),
        text_of(name@).len() <= 31,
        is_ascii(text_of(name@)),
        forall|i: int| 0 <= i < text_of(name@).len() ==> text_of(name@)[i] != 0,
{
    broadcast use vstd::array::group_array_axioms;

    let field = name@;
    lemma_text_end(field, 0);
    let end = text_end(field, 0);
    let text = text_of(field);
    assert(end <= 31) by {
        if end == 32 {
            assert(field[31] != 0);
        }
    }
    assert forall|i: int| 0 <= i < text.len() implies #[trigger] text[i] < 0x80 by {
        assert(field[i] < 0x80);
    }
    lemma_name_of(text);
    assert(padded(text, 32) =~= field) by {
        assert forall|i: int| 0 <= i < 32 implies padded(text, 32)[i] == field[i] by {
            if i >= end {
                assert(field[end] == 0);
            }
        }
    }
    assert(name_of(text) =~= name);
}

/// A record lies in a text at a position.
pub open spec fn lies_at(src: Seq<u8>, pos: int, record: Seq<u8>) -> bool {
    &&& 0 <= pos
    &&& pos + record.len() <= src.len()
    &&& src.subrange(pos, pos + record.len()) == record
}

/// Where two records lie behind each other, each lies.
pub proof fn lemma_lies_at_split(src: Seq<u8>, pos: int, first: Seq<u8>, second: Seq<u8>)
    requires
        lies_at(src, pos, first + second),
    ensures
        lies_at(src, pos, first),
        lies_at(src, pos + first.len(), second),
{
    let both = first + second;
    assert(src.subrange(pos, pos + first.len()) =~= first) by {
        assert forall|i: int| 0 <= i < first.len() implies src.subrange(
            pos,
            pos + first.len(),
        )[i] == first[i] by {
            assert(src.subrange(pos, pos + both.len())[i] == both[i]);
        }
    }
    assert(src.subrange(pos + first.len(), pos + first.len() + second.len()) =~= second) by {
        assert forall|i: int| 0 <= i < second.len() implies src.subrange(
            pos + first.len(),
            pos + first.len() + second.len(),
        )[i] == second[i] by {
            assert(src.subrange(pos, pos + both.len())[first.len() + i] == both[first.len() + i]);
        }
    }
}

/// A 32-bit integer that lies in a text is read back from there.
pub proof fn lemma_u32_lies_at(src: Seq<u8>, pos: int, x: u32)
    requires
        lies_at(src, pos, le32(x)),
    ensures
        u32_at(src, pos) == x,
{
    lemma_le32_round_trip(x);
}

/// A 16-bit integer that lies in a text is read back from there.
pub proof fn lemma_u16_lies_at(src: Seq<u8>, pos: int, x: u16)
    requires
        lies_at(src, pos, le16(x)),
    ensures
        u16_at(src, pos) == x,
{
    lemma_le16_round_trip(x);
}

/// The number of labels among the first `k` that are written as parents.
pub open spec fn parents_before(labels: Seq<crate::ir::Label>, k: int) -> nat
    decreases k,
{
    if k <= 0 {
        0
    } else {
        parents_before(labels, k - 1) + if children_owed(labels, k - 1) == 0 {
            1nat
        } else {
            0nat
        }
    }
}

/// The index of the parent that label `k` belongs to; its own, if it is
/// written as a parent.
pub open spec fn parent_at(labels: Seq<crate::ir::Label>, k: int) -> int
    decreases k,
{
    if k <= 0 {
        0
    } else if children_owed(labels, k) == 0 {
        k
    } else {
        parent_at(labels, k - 1)
    }
}

proof fn lemma_parents_before_monotone(labels: Seq<crate::ir::Label>, k: int, m: int)
    requires
        k <= m,
    ensures
        parents_before(labels, k) <= parents_before(labels, m),
    decreases m - k,
{
    if k < m {
        lemma_parents_before_monotone(labels, k, m - 1);
    }
}

proof fn lemma_parent_at_bound(labels: Seq<crate::ir::Label>, k: int)
    requires
        0 <= k,
    ensures
        0 <= parent_at(labels, k) <= k,
    decreases k,
{
    if k > 0 && children_owed(labels, k) != 0 {
        lemma_parent_at_bound(labels, k - 1);
    }
}

proof fn lemma_block_owed(labels: Seq<crate::ir::Label>, i: int, j: int)
    requires
        0 <= i,
        children_owed(labels, i) == 0,
        0 <= j <= labels[i].num_children,
    ensures
        children_owed(labels, i + 1 + j) == labels[i].num_children - j,
        parents_before(labels, i + 1 + j) == parents_before(labels, i) + 1,
    decreases j,
{
    if j > 0 {
        lemma_block_owed(labels, i, j - 1);
    }
}

proof fn lemma_blocks_owed(labels: Seq<crate::ir::Label>, i: int, n: nat, last: int)
    requires
        label_blocks(labels, i, n, last),
        children_owed(labels, i) == 0,
    ensures
        children_owed(labels, labels.len() as int) == 0,
        parents_before(labels, labels.len() as int) == parents_before(labels, i) + n,
    decreases n,
{
    lemma_label_blocks(labels, i, n, last);
    lemma_block_owed(labels, i, labels[i].num_children as int);
    if n > 1 {
        lemma_blocks_owed(labels, i + 1 + labels[i].num_children, (n - 1) as nat, last);
    }
}

/// In a well-formed section the labels are written as just as many
/// parents as the section counts, and the last parent has all its children.
pub proof fn lemma_labels_counted(s: SectionView)
    requires
        s.wf(),
    ensures
        children_owed(s.labels, s.labels.len() as int) == 0,
        parents_before(s.labels, s.labels.len() as int) == s.num_parents,
        s.num_parents <= s.labels.len(),
{
    match s.last_parent {
        Some(last) => {
            lemma_blocks_owed(s.labels, 0, s.num_parents as nat, last as int);
            lemma_label_blocks(s.labels, 0, s.num_parents as nat, last as int);
        },
        None => {},
    }
}

/// The linker's visibility for the assembler's.
pub open spec fn linked_vis(vis: crate::ir::Visibility) -> crate::formats::Visibility {
    match vis {
        crate::ir::Visibility::Hidden => crate::formats::Visibility::Hidden,
        crate::ir::Visibility::Object => crate::formats::Visibility::Object,
        crate::ir::Visibility::Global => crate::formats::Visibility::Global,
    }
}

/// The linker's byte selection for the assembler's.
pub open spec fn linked_select(which: crate::ir::ByteSelect) -> crate::formats::ByteSelect {
    match which {
        crate::ir::ByteSelect::Both => crate::formats::ByteSelect::Both,
        crate::ir::ByteSelect::High => crate::formats::ByteSelect::High,
        crate::ir::ByteSelect::Low => crate::formats::ByteSelect::Low,
    }
}

/// The linker's label for the assembler's label `k`, before its scope has
/// an end: the same offset and visibility, the name qualified by the
/// parent's, the scope starting at the parent.
pub open spec fn linked_label(
    labels: Seq<crate::ir::Label>,
    k: int,
    object: usize,
) -> crate::formats::Label {
    let l = labels[k];
    let parent = labels[parent_at(labels, k)];
    if children_owed(labels, k) == 0 {
        crate::formats::Label {
            name: spec_qualified(l.name, None),
            vis: linked_vis(l.vis),
            offset: l.offset,
            child: false,
            scope_start: l.offset,
            scope_end: 0,
            object,
        }
    } else {
        crate::formats::Label {
            name: spec_qualified(parent.name, Some(l.name)),
            vis: linked_vis(l.vis),
            offset: l.offset,
            child: true,
            scope_start: parent.offset,
            scope_end: 0,
            object,
        }
    }
}

/// The linker's labels for the assembler's, before their scopes have ends.
pub open spec fn linked_labels(labels: Seq<crate::ir::Label>, object: usize) -> Seq<
    crate::formats::Label,
> {
    Seq::new(labels.len(), |k: int| linked_label(labels, k, object))
}

/// The linker's reference for the assembler's: the same place, the name
/// qualified.
pub open spec fn linked_reference(
    r: crate::ir::Reference,
    object: usize,
) -> crate::formats::Reference {
    crate::formats::Reference {
        referred: spec_qualified(r.parent, r.child),
        offset: r.offset,
        which_byte: linked_select(r.which_byte),
        branch: r.branch,
        object,
    }
}

/// The linker's references for the assembler's.
pub open spec fn linked_references(references: Seq<crate::ir::Reference>, object: usize) -> Seq<
    crate::formats::Reference,
> {
    Seq::new(references.len(), |k: int| linked_reference(references[k], object))
}

/// The linker's section for the assembler's: the same name and code, the
/// labels with their scopes, the references, all from one object, not yet
/// placed.
pub open spec fn linked_section(s: SectionView, object: usize) -> LinkedSection {
    LinkedSection {
        name: s.name,
        code: s.code,
        labels: with_scopes(linked_labels(s.labels, object), s.code.len() as usize),
        references: linked_references(s.references, object),
        base: 0,
        objects: seq![ObjectSpan { object, start: 0, end: s.code.len() as usize }],
    }
}

/// The linker's sections for the assembler's.
pub open spec fn linked_sections(sections: Seq<SectionView>, object: usize) -> Seq<LinkedSection> {
    Seq::new(sections.len(), |i: int| linked_section(sections[i], object))
}

/// Whether every name of a section is plain text.
pub open spec fn names_plain(s: SectionView) -> bool {
    &&& plain_name(s.name)
    &&& forall|i: int| 0 <= i < s.labels.len() ==> plain_name((#[trigger] s.labels[i]).name)
    &&& forall|i: int|
        0 <= i < s.references.len() ==> plain_name((#[trigger] s.references[i]).parent) && (
        s.references[i].child matches Some(c) ==> plain_name(c))
}

/// Where the reader stands after `k` label records of a section whose
/// labels start at `base`.
pub open spec fn labels_read(s: SectionView, base: int, k: int, object: usize) -> LabelScan {
    LabelScan {
        pos: base + label_records(s.labels, k).len(),
        parents_left: (s.num_parents - parents_before(s.labels, k)) as nat,
        children_left: children_owed(s.labels, k),
        parent: if k <= 0 {
            s.name
        } else {
            s.labels[parent_at(s.labels, k - 1)].name
        },
        parent_offset: if k <= 0 {
            0
        } else {
            s.labels[parent_at(s.labels, k - 1)].offset
        },
        labels: linked_labels(s.labels, object).take(k),
    }
}

proof fn lemma_label_records_prefix(src: Seq<u8>, base: int, labels: Seq<crate::ir::Label>, k: int)
    requires
        0 <= k <= labels.len(),
        lies_at(src, base, label_records(labels, labels.len() as int)),
    ensures
        lies_at(src, base, label_records(labels, k)),
        k < labels.len() ==> lies_at(
            src,
            base + label_records(labels, k).len(),
            if children_owed(labels, k) == 0 {
                parent_record(labels[k])
            } else {
                child_record(labels[k])
            },
        ),
    decreases labels.len() - k,
{
    if k < labels.len() {
        lemma_label_records_prefix(src, base, labels, k + 1);
        lemma_lies_at_split(
            src,
            base,
            label_records(labels, k),
            if children_owed(labels, k) == 0 {
                parent_record(labels[k])
            } else {
                child_record(labels[k])
            },
        );
    }
}

proof fn lemma_scan_label_step(src: Seq<u8>, s: SectionView, base: int, k: int, object: usize)
    requires
        s.wf(),
        names_plain(s),
        0 <= k < s.labels.len(),
        lies_at(src, base, label_records(s.labels, s.labels.len() as int)),
    ensures
        spec_scan_label(src, labels_read(s, base, k, object), s.code.len() as usize, object)
            == Ok::<LabelScan, ObjectError>(labels_read(s, base, k + 1, object)),
        labels_read(s, base, k, object).children_left > 0 || labels_read(
            s,
            base,
            k,
            object,
        ).parents_left > 0,
{
    broadcast use vstd::array::group_array_axioms;

    let labels = s.labels;
    let l = labels[k];
    let st = labels_read(s, base, k, object);
    let next = labels_read(s, base, k + 1, object);
    let pos = st.pos;
    let linked = linked_labels(labels, object);
    lemma_label_records_prefix(src, base, labels, k);
    lemma_labels_counted(s);
    lemma_parents_before_monotone(labels, k + 1, labels.len() as int);
    lemma_plain_name_decodes(l.name);
    assert(l.offset <= s.code.len());
    assert(linked.take(k + 1) =~= linked.take(k).push(linked[k]));
    if children_owed(labels, k) == 0 {
        let record = parent_record(l);
        lemma_lies_at_split(
            src,
            pos,
            l.name@ + le32(l.num_children) + le32(l.offset as u32),
            le32(vis_code(l.vis)),
        );
        lemma_lies_at_split(src, pos, l.name@ + le32(l.num_children), le32(l.offset as u32));
        lemma_lies_at_split(src, pos, l.name@, le32(l.num_children));
        lemma_u32_lies_at(src, pos + 32, l.num_children);
        lemma_u32_lies_at(src, pos + 36, l.offset as u32);
        lemma_u32_lies_at(src, pos + 40, vis_code(l.vis));
        assert(spec_vis_of(vis_code(l.vis)) == Some(linked_vis(l.vis)));
        assert(record.len() == 44);
    } else {
        let record = child_record(l);
        lemma_lies_at_split(src, pos, l.name@ + le32(l.offset as u32), le32(vis_code(l.vis)));
        lemma_lies_at_split(src, pos, l.name@, le32(l.offset as u32));
        lemma_u32_lies_at(src, pos + 32, l.offset as u32);
        lemma_u32_lies_at(src, pos + 36, vis_code(l.vis));
        assert(spec_vis_of(vis_code(l.vis)) == Some(linked_vis(l.vis)));
        assert(record.len() == 40);
        assert(k >= 1);
    }
}

proof fn lemma_scan_labels_from(src: Seq<u8>, s: SectionView, base: int, k: int, object: usize)
    requires
        s.wf(),
        names_plain(s),
        0 <= k <= s.labels.len(),
        lies_at(src, base, label_records(s.labels, s.labels.len() as int)),
    ensures
        spec_scan_labels(src, labels_read(s, base, k, object), s.code.len() as usize, object)
            == Ok::<LabelScan, ObjectError>(
            labels_read(s, base, s.labels.len() as int, object),
        ),
    decreases s.labels.len() - k,
{
    lemma_labels_counted(s);
    if k < s.labels.len() {
        lemma_scan_label_step(src, s, base, k, object);
        lemma_scan_labels_from(src, s, base, k + 1, object);
    }
}

/// The qualified name of plain names is decoded as itself.
pub proof fn lemma_qualified_decodes(parent: [u8; 32], child: Option<[u8; 32]>)
    requires
        plain_name(parent),
        child matches Some(c) ==> plain_name(c),
    ensures
        spec_decode64(spec_qualified(parent, child)@) == Some(spec_qualified(parent, child)),
        spec_qualified(parent, child)@.len() == 64,
{
    broadcast use vstd::array::group_array_axioms;

    let text = qualified_text(parent, child);
    lemma_plain_name_decodes(parent);
    match child {
        Some(c) => {
            lemma_plain_name_decodes(c);
        },
        None => {},
    }
    assert(is_ascii(text));
    assert(forall|i: int| 0 <= i < text.len() ==> text[i] != 0);
    lemma_name64_of(text);
    lemma_text_of_padded(text, 64);
}

/// Where the reader stands after `k` reference records of a section
/// whose references start at `base`.
pub open spec fn references_read(
    s: SectionView,
    base: int,
    k: int,
    object: usize,
) -> ReferenceScan {
    ReferenceScan {
        pos: base + reference_records(s.references, k).len(),
        left: (s.references.len() - k) as nat,
        references: linked_references(s.references, object).take(k),
    }
}

proof fn lemma_reference_records_prefix(
    src: Seq<u8>,
    base: int,
    references: Seq<crate::ir::Reference>,
    k: int,
)
    requires
        0 <= k <= references.len(),
        lies_at(src, base, reference_records(references, references.len() as int)),
    ensures
        lies_at(src, base, reference_records(references, k)),
        k < references.len() ==> lies_at(
            src,
            base + reference_records(references, k).len(),
            reference_record(references[k]),
        ),
    decreases references.len() - k,
{
    if k < references.len() {
        lemma_reference_records_prefix(src, base, references, k + 1);
        lemma_lies_at_split(
            src,
            base,
            reference_records(references, k),
            reference_record(references[k]),
        );
    }
}

proof fn lemma_scan_reference_step(src: Seq<u8>, s: SectionView, base: int, k: int, object: usize)
    requires
        s.wf(),
        names_plain(s),
        0 <= k < s.references.len(),
        lies_at(src, base, reference_records(s.references, s.references.len() as int)),
    ensures
        spec_scan_reference(
            src,
            references_read(s, base, k, object),
            s.code.len() as usize,
            object,
        ) == Ok::<ReferenceScan, ObjectError>(references_read(s, base, k + 1, object)),
{
    broadcast use vstd::array::group_array_axioms;

    let r = s.references[k];
    let st = references_read(s, base, k, object);
    let pos = st.pos;
    let name = spec_qualified(r.parent, r.child);
    let linked = linked_references(s.references, object);
    let branch: u16 = if r.branch {
        1
    } else {
        0
    };
    lemma_reference_records_prefix(src, base, s.references, k);
    lemma_qualified_decodes(r.parent, r.child);
    assert(r.offset <= s.code.len());
    assert(linked.take(k + 1) =~= linked.take(k).push(linked[k]));
    lemma_lies_at_split(
        src,
        pos,
        name@ + le32(r.offset as u32) + le16(select_code(r.which_byte)),
        le16(branch),
    );
    lemma_lies_at_split(
        src,
        pos,
        name@ + le32(r.offset as u32),
        le16(select_code(r.which_byte)),
    );
    lemma_lies_at_split(src, pos, name@, le32(r.offset as u32));
    lemma_u32_lies_at(src, pos + 64, r.offset as u32);
    lemma_u16_lies_at(src, pos + 68, select_code(r.which_byte));
    lemma_u16_lies_at(src, pos + 70, branch);
    assert(spec_select_of(select_code(r.which_byte)) == Some(linked_select(r.which_byte)));
    assert(reference_record(r).len() == 72);
}

proof fn lemma_scan_references_from(src: Seq<u8>, s: SectionView, base: int, k: int, object: usize)
    requires
        s.wf(),
        names_plain(s),
        0 <= k <= s.references.len(),
        lies_at(src, base, reference_records(s.references, s.references.len() as int)),
    ensures
        spec_scan_references(
            src,
            references_read(s, base, k, object),
            s.code.len() as usize,
            object,
        ) == Ok::<ReferenceScan, ObjectError>(
            references_read(s, base, s.references.len() as int, object),
        ),
    decreases s.references.len() - k,
{
    if k < s.references.len() {
        lemma_scan_reference_step(src, s, base, k, object);
        lemma_scan_references_from(src, s, base, k + 1, object);
    }
}

proof fn lemma_section_layout(src: Seq<u8>, pos: int, s: SectionView)
    requires
        s.code.len() <= 65536,
        s.num_parents <= s.labels.len() <= 256,
        s.references.len() <= u32::MAX,
        lies_at(src, pos, section_record(s)),
    ensures
        lies_at(src, pos, s.name@),
        u32_at(src, pos + 32) == s.code.len(),
        u32_at(src, pos + 36) == s.num_parents,
        u32_at(src, pos + 40) == s.references.len(),
        lies_at(src, pos + 44, label_records(s.labels, s.labels.len() as int)),
        lies_at(
            src,
            pos + 44 + label_records(s.labels, s.labels.len() as int).len(),
            reference_records(s.references, s.references.len() as int),
        ),
        lies_at(
            src,
            pos + 44 + label_records(s.labels, s.labels.len() as int).len() + reference_records(
                s.references,
                s.references.len() as int,
            ).len(),
            s.code,
        ),
        section_record(s).len() == 44 + label_records(s.labels, s.labels.len() as int).len()
            + reference_records(s.references, s.references.len() as int).len() + s.code.len()
            + padding(s.code.len()),
{
    broadcast use vstd::array::group_array_axioms;

    let size = s.code.len();
    let header = s.name@ + le32(size as u32) + le32(s.num_parents as u32) + le32(
        s.references.len() as u32,
    );
    let labels = label_records(s.labels, s.labels.len() as int);
    let references = reference_records(s.references, s.references.len() as int);
    let pad = Seq::new(padding(size), |i: int| 0u8);
    lemma_lies_at_split(src, pos, header + labels + references + s.code, pad);
    lemma_lies_at_split(src, pos, header + labels + references, s.code);
    lemma_lies_at_split(src, pos, header + labels, references);
    lemma_lies_at_split(src, pos, header, labels);
    lemma_lies_at_split(
        src,
        pos,
        s.name@ + le32(size as u32) + le32(s.num_parents as u32),
        le32(s.references.len() as u32),
    );
    lemma_lies_at_split(src, pos, s.name@ + le32(size as u32), le32(s.num_parents as u32));
    lemma_lies_at_split(src, pos, s.name@, le32(size as u32));
    lemma_u32_lies_at(src, pos + 32, size as u32);
    lemma_u32_lies_at(src, pos + 36, s.num_parents as u32);
    lemma_u32_lies_at(src, pos + 40, s.references.len() as u32);
    assert(header.len() == 44);
}

/// A section that the writer wrote into a text is read back from there
/// as the linker's section for it, up to the end of its record.
pub proof fn lemma_section_read_back(src: Seq<u8>, pos: int, s: SectionView, object: usize)
    requires
        s.wf(),
        s.references.len() <= u32::MAX,
        names_plain(s),
        lies_at(src, pos, section_record(s)),
    ensures
        spec_section_at(src, pos, object) == Ok::<(LinkedSection, int), ObjectError>(
            (linked_section(s, object), pos + section_record(s).len()),
        ),
{
    lemma_labels_counted(s);
    lemma_plain_name_decodes(s.name);
    lemma_section_layout(src, pos, s);
    let first = LabelScan {
        pos: pos + 44,
        parents_left: s.num_parents as nat,
        children_left: 0,
        parent: s.name,
        parent_offset: 0,
        labels: Seq::empty(),
    };
    assert(labels_read(s, pos + 44, 0, object) == first) by {
        assert(linked_labels(s.labels, object).take(0) =~= Seq::empty());
    }
    lemma_scan_labels_from(src, s, pos + 44, 0, object);
    let ls = labels_read(s, pos + 44, s.labels.len() as int, object);
    assert(ls.labels =~= linked_labels(s.labels, object));
    assert(references_read(s, ls.pos, 0, object) == (ReferenceScan {
        pos: ls.pos,
        left: s.references.len(),
        references: Seq::empty(),
    })) by {
        assert(linked_references(s.references, object).take(0) =~= Seq::empty());
    }
    lemma_scan_references_from(src, s, ls.pos, 0, object);
    let rs = references_read(s, ls.pos, s.references.len() as int, object);
    assert(rs.references =~= linked_references(s.references, object));
}

proof fn lemma_section_records_prefix(src: Seq<u8>, sections: Seq<SectionView>, k: int)
    requires
        0 <= k <= sections.len(),
        lies_at(src, 4, section_records(sections, sections.len() as int)),
    ensures
        lies_at(src, 4, section_records(sections, k)),
        k < sections.len() ==> lies_at(
            src,
            (4 + section_records(sections, k).len()) as int,
            section_record(sections[k]),
        ),
    decreases sections.len() - k,
{
    if k < sections.len() {
        lemma_section_records_prefix(src, sections, k + 1);
        lemma_lies_at_split(src, 4, section_records(sections, k), section_record(sections[k]));
    }
}

proof fn lemma_sections_read_back(src: Seq<u8>, sections: Seq<SectionView>, k: int, object: usize)
    requires
        0 <= k <= sections.len(),
        countable(sections),
        forall|i: int|
            0 <= i < sections.len() ==> (#[trigger] sections[i]).wf() && names_plain(sections[i]),
        lies_at(src, 4, section_records(sections, sections.len() as int)),
    ensures
        spec_sections(
            src,
            (4 + section_records(sections, k).len()) as int,
            (sections.len() - k) as nat,
            object,
            linked_sections(sections, object).take(k),
        ) == Ok::<Seq<LinkedSection>, ObjectError>(linked_sections(sections, object)),
    decreases sections.len() - k,
{
    let linked = linked_sections(sections, object);
    if k < sections.len() {
        lemma_section_records_prefix(src, sections, k);
        assert(sections[k].references.len() <= u32::MAX);
        lemma_section_read_back(
            src,
            (4 + section_records(sections, k).len()) as int,
            sections[k],
            object,
        );
        lemma_sections_read_back(src, sections, k + 1, object);
        assert(linked.take(k + 1) =~= linked.take(k).push(linked[k]));
    } else {
        assert(linked.take(k) =~= linked);
    }
}

proof fn lemma_object_layout(sections: Seq<SectionView>)
    requires
        sections.len() <= u32::MAX,
    ensures
        object_bytes(sections).len() >= 4,
        u32_at(object_bytes(sections), 0) == sections.len(),
        lies_at(object_bytes(sections), 4, section_records(sections, sections.len() as int)),
{
    let src = object_bytes(sections);
    let count = le32(sections.len() as u32);
    let records = section_records(sections, sections.len() as int);
    assert(src == count + records);
    assert(src.subrange(0, src.len() as int) =~= src);
    assert(lies_at(src, 0, count + records));
    lemma_lies_at_split(src, 0, count, records);
    lemma_u32_lies_at(src, 0, sections.len() as u32);
}

/// What the writer makes of sections, the reader reads back: the same
/// names and code, every label with the same offset and visibility under
/// its qualified name, and the same references. The sections must be
/// well formed, their names plain text, and their number and the number
/// of references of each must fit into 32 bits.
pub proof fn lemma_object_round_trip(sections: Seq<SectionView>, object: usize)
    requires
        countable(sections),
        forall|i: int|
            0 <= i < sections.len() ==> (#[trigger] sections[i]).wf() && names_plain(sections[i]),
    ensures
        spec_read_object(object_bytes(sections), object) == Ok::<Seq<LinkedSection>, ObjectError>(
            linked_sections(sections, object),
        ),
{
    let src = object_bytes(sections);
    lemma_object_layout(sections);
    assert(linked_sections(sections, object).take(0) =~= Seq::empty());
    assert(section_records(sections, 0).len() == 0);
    lemma_sections_read_back(src, sections, 0, object);
}

/// The active section as it is between two lines: without the reference
/// that waits, if one does.
pub open spec fn settled_current(p: ProgramView) -> SectionView {
    if p.pending() is Some {
        p.current().without_last_reference()
    } else {
        p.current()
    }
}

proof fn lemma_other_sections_kept(p: ProgramView, q: ProgramView)
    requires
        p.wf(),
        q.active == p.active,
        q.sections.len() == p.sections.len(),
        forall|i: int|
            0 <= i < p.sections.len() && i != p.active ==> q.sections[i] == p.sections[i],
        q.current().name == p.current().name,
    ensures
        q.active < q.sections.len(),
        forall|i: int|
            0 <= i < q.sections.len() && i != q.active ==> (#[trigger] q.sections[i]).wf(),
        forall|i: int, j: int|
            0 <= i < j < q.sections.len() ==> (#[trigger] q.sections[i]).name != (
            #[trigger] q.sections[j]).name,
{
    assert forall|i: int| 0 <= i < q.sections.len() && i != q.active implies (
    #[trigger] q.sections[i]).wf() by {
        assert(p.sections[i].wf());
    }
    assert forall|i: int, j: int| 0 <= i < j < q.sections.len() implies (
    #[trigger] q.sections[i]).name != (#[trigger] q.sections[j]).name by {
        assert(p.sections[i].name != p.sections[j].name);
    }
}

proof fn lemma_identifier_keeps_wf(p: ProgramView, text: Seq<u8>)
    requires
        p.wf(),
    ensures
        spec_step(p, Token::Ident, text) matches Ok(q) ==> q.wf(),
{
    if let Ok(q) = spec_step(p, Token::Ident, text) {
        let s = p.current();
        let t = settled_current(p);
        let child = text.len() > 0 && text[0] == '.' as u8;
        assert(t.wf());
        lemma_name_of(text);
        lemma_name_of(text.skip(1));
        match s.last_parent {
            Some(last) => {
                lemma_label_blocks(s.labels, 0, s.num_parents as nat, last as int);
                assert(t.labels[last as int].name@[31] == 0);
            },
            None => {},
        }
        lemma_other_sections_kept(p, q);
        if p.ins is None {
            let new = q.current().labels.last();
            match s.last_parent {
                Some(last) => {
                    if child {
                        lemma_blocks_push_child(
                            s.labels,
                            0,
                            s.num_parents as nat,
                            last as int,
                            new,
                        );
                    } else {
                        lemma_blocks_push_parent(
                            s.labels,
                            0,
                            s.num_parents as nat,
                            last as int,
                            new,
                        );
                    }
                },
                None => {},
            }
            assert(q.current().wf());
        } else {
            let rf = q.pending()->0;
            if p.pending() is Some {
                lemma_reference_changed(s, rf);
            } else {
                lemma_reference_begun(s, rf);
            }
        }
    }
}

proof fn lemma_selector_keeps_wf(p: ProgramView, which: ByteSelect)
    requires
        p.wf(),
    ensures
        spec_select(p, which) matches Ok(q) ==> q.wf(),
{
    if let Ok(q) = spec_select(p, which) {
        lemma_reference_changed(p.current(), q.pending()->0);
        lemma_other_sections_kept(p, q);
    }
}

/// Every handler keeps the assembly state well formed.
pub proof fn lemma_step_keeps_wf(p: ProgramView, token: Token, text: Seq<u8>)
    requires
        p.wf(),
    ensures
        spec_step(p, token, text) matches Ok(q) ==> q.wf(),
{
    match token {
        Token::Ident => {
            lemma_identifier_keeps_wf(p, text);
        },
        Token::ByteHi => {
            lemma_selector_keeps_wf(p, ByteSelect::High);
        },
        Token::ByteLo => {
            lemma_selector_keeps_wf(p, ByteSelect::Low);
        },
        Token::Eol => {
            lemma_eol_keeps_wf(p);
        },
        _ => {},
    }
}

/// The end of a line leaves no reference waiting.
pub proof fn lemma_eol_keeps_wf(p: ProgramView)
    requires
        p.wf(),
    ensures
        spec_eol(p) matches Ok(q) ==> q.settled(),
{
    if let Ok(q) = spec_eol(p) {
        let s = p.current();
        match p.ins {
            None => {
                lemma_other_sections_kept(p, q);
            },
            Some(ins) => {
                if ins == Mnemonic::Sct {
                    let name = p.op->0->Plain_0->Ref_0.parent;
                    lemma_find_section(p.sections, name);
                    lemma_section_name_settles(p);
                    assert forall|i: int| 0 <= i < q.sections.len() implies (
                    #[trigger] q.sections[i]).wf() by {
                        if i < p.sections.len() && i != p.active {
                            assert(p.sections[i].wf());
                        }
                    }
                    assert forall|i: int, j: int| 0 <= i < j < q.sections.len() implies (
                    #[trigger] q.sections[i]).name != (#[trigger] q.sections[j]).name by {
                        if j < p.sections.len() {
                            assert(p.sections[i].name != p.sections[j].name);
                        }
                    }
                } else {
                    lemma_statement_settles(p);
                    lemma_other_sections_kept(p, q);
                }
            },
        }
    }
}

/// Whether a text is made of letters, digits and underscores.
pub open spec fn word_text(text: Seq<u8>) -> bool {
    forall|i: int| 0 <= i < text.len() ==> spec_in_class(#[trigger] text[i], CharClass::Word)
}

/// Whether the text of a token is what the scanner takes for an
/// identifier, if the token is one: a word, or a dot and a word.
pub open spec fn scanned_text(token: Token, text: Seq<u8>) -> bool {
    token == Token::Ident ==> if text.len() > 0 && text[0] == '.' as u8 {
        word_text(text.skip(1))
    } else {
        word_text(text)
    }
}

/// Whether every name in the state is plain text.
pub open spec fn plain_state(p: ProgramView) -> bool {
    &&& forall|i: int| 0 <= i < p.sections.len() ==> names_plain(#[trigger] p.sections[i])
    &&& match p.op {
        Some(op) => match op.spec_reference() {
            Some(rf) => plain_name(rf.parent) && (rf.child matches Some(c) ==> plain_name(c)),
            None => true,
        },
        None => true,
    }
}

/// The name field of a word of at most 31 bytes is plain text.
pub proof fn lemma_word_name_plain(text: Seq<u8>)
    requires
        word_text(text),
        text.len() <= 31,
    ensures
        plain_name(name_of(text)),
{
    lemma_name_of(text);
    let name = name_of(text);
    assert forall|i: int| 0 <= i < 32 implies #[trigger] name@[i] < 0x80 by {
        if i < text.len() {
            assert(spec_in_class(text[i], CharClass::Word));
        }
    }
    assert forall|i: int, j: int| 0 <= i <= j < 32 && name@[i] == 0 implies name@[j] == 0 by {
        if i < text.len() {
            assert(spec_in_class(text[i], CharClass::Word));
        }
    }
}

proof fn lemma_run_in_class(src: Seq<u8>, pos: int, class: CharClass)
    requires
        0 <= pos <= src.len(),
    ensures
        forall|i: int|
            pos <= i < pos + run_len(src, pos, class) ==> spec_in_class(#[trigger] src[i], class),
    decreases src.len() - pos,
{
    if pos < src.len() && spec_in_class(src[pos], class) {
        lemma_run_in_class(src, pos + 1, class);
    }
}

/// What the scanner takes for an identifier is a word, or a dot and a word.
pub proof fn lemma_scanned_identifier(src: Seq<u8>, pos: int)
    requires
        0 <= pos < src.len(),
    ensures
        scanned_text(
            spec_token(src, pos).0,
            src.subrange(pos, pos + spec_token(src, pos).1),
        ),
{
    let (token, n) = spec_token(src, pos);
    let text = src.subrange(pos, pos + n);
    lemma_token_len(src, pos);
    lemma_run_in_class(src, pos + 1, CharClass::Word);
    if token == Token::Ident {
        if src[pos] == '.' as u8 {
            assert forall|i: int| 0 <= i < text.skip(1).len() implies spec_in_class(
                #[trigger] text.skip(1)[i],
                CharClass::Word,
            ) by {
                assert(text.skip(1)[i] == src[pos + 1 + i]);
            }
        } else {
            assert forall|i: int| 0 <= i < text.len() implies spec_in_class(
                #[trigger] text[i],
                CharClass::Word,
            ) by {
                assert(text[i] == src[pos + i]);
            }
        }
    }
}

/// Every handler keeps the names plain, given a token as the scanner
/// takes it.
pub proof fn lemma_step_keeps_plain(p: ProgramView, token: Token, text: Seq<u8>)
    requires
        p.wf(),
        plain_state(p),
        scanned_text(token, text),
    ensures
        spec_step(p, token, text) matches Ok(q) ==> plain_state(q),
{
    if let Ok(q) = spec_step(p, token, text) {
        let s = p.current();
        assert(settled_current(p).wf());
        assert(names_plain(s));
        match token {
            Token::ByteHi | Token::ByteLo => {
                assert(names_plain(q.current()));
                assert forall|i: int| 0 <= i < q.sections.len() implies names_plain(
                    #[trigger] q.sections[i],
                ) by {
                    if i != p.active {
                        assert(names_plain(p.sections[i]));
                    }
                }
            },
            Token::Ident => {
                let child = text.len() > 0 && text[0] == '.' as u8;
                if child {
                    lemma_word_name_plain(text.skip(1));
                } else {
                    lemma_word_name_plain(text);
                }
                match s.last_parent {
                    Some(last) => {
                        lemma_label_blocks(s.labels, 0, s.num_parents as nat, last as int);
                        assert(plain_name(s.labels[last as int].name));
                    },
                    None => {},
                }
                assert(names_plain(q.current()));
                assert forall|i: int| 0 <= i < q.sections.len() implies names_plain(
                    #[trigger] q.sections[i],
                ) by {
                    if i != p.active {
                        assert(names_plain(p.sections[i]));
                    }
                }
            },
            Token::Eol => {
                match p.ins {
                    None => {},
                    Some(ins) => {
                        if ins == Mnemonic::Sct {
                            assert forall|i: int| 0 <= i < q.sections.len() implies names_plain(
                                #[trigger] q.sections[i],
                            ) by {
                                if i < p.sections.len() && i != p.active {
                                    assert(names_plain(p.sections[i]));
                                }
                            }
                        } else {
                            assert(names_plain(q.current()));
                            assert forall|i: int| 0 <= i < q.sections.len() implies names_plain(
                                #[trigger] q.sections[i],
                            ) by {
                                if i != p.active {
                                    assert(names_plain(p.sections[i]));
                                }
                            }
                        }
                    },
                }
            },
            _ => {},
        }
    }
}

proof fn lemma_run_keeps(src: Seq<u8>, pos: int, p: ProgramView)
    requires
        p.wf(),
        plain_state(p),
    ensures
        spec_run(src, pos, p) matches Ok(q) ==> q.settled() && plain_state(q),
    decreases src.len() - pos,
{
    let start = pos + run_len(src, pos, CharClass::Blank);
    if pos < 0 || start >= src.len() {
        lemma_eol_keeps_wf(p);
        lemma_step_keeps_plain(p, Token::Eol, Seq::empty());
    } else {
        let (token, n) = spec_token(src, start);
        let text = src.subrange(start, start + n);
        lemma_token_len(src, start);
        lemma_scanned_identifier(src, start);
        lemma_step_keeps_wf(p, token, text);
        lemma_step_keeps_plain(p, token, text);
        if let Ok(q) = spec_step(p, token, text) {
            lemma_run_keeps(src, start + n, q);
        }
    }
}

/// What assembling leaves is well formed, with no reference waiting, and
/// every name in it is plain text.
pub proof fn lemma_assembled_state(src: Seq<u8>)
    ensures
        spec_assemble(src) matches Ok(q) ==> q.settled() && plain_state(q),
{
    let p = ProgramView::initial();
    lemma_word_name_plain(Seq::empty());
    assert(p.sections[0].wf());
    assert(names_plain(p.sections[0]));
    lemma_run_keeps(src, 0, p);
}

/// A section of a new name, not yet placed, is merged in as it is,
/// behind the others.
pub proof fn lemma_merge_new_name(all: Seq<LinkedSection>, s: LinkedSection)
    requires
        spec_index_of(section_names(all), s.name) is None,
        s.code.len() <= 65536,
        s.base == 0,
    ensures
        spec_merge_section(all, s) == Ok::<Seq<LinkedSection>, LinkError>(all.push(s)),
{
    let known = all.push(empty_section(s.name));
    let merged = appended(empty_section(s.name), s);
    assert(merged.code =~= s.code);
    assert(merged.labels =~= s.labels);
    assert(merged.references =~= s.references);
    assert(merged.objects =~= s.objects);
    assert(known.update(all.len() as int, merged) =~= all.push(s));
}

proof fn lemma_merge_distinct_names(all: Seq<LinkedSection>, new: Seq<LinkedSection>, from: int)
    requires
        0 <= from <= new.len(),
        section_names(all + new.skip(from)).no_duplicates(),
        forall|i: int| 0 <= i < new.len() ==> (#[trigger] new[i]).code.len() <= 65536 && new[i].base
            == 0,
    ensures
        spec_merge_sections(all, new, from) == Ok::<Seq<LinkedSection>, LinkError>(
            all + new.skip(from),
        ),
    decreases new.len() - from,
{
    let rest = new.skip(from);
    let names = section_names(all + rest);
    if from < new.len() {
        let s = new[from];
        lemma_index_of(section_names(all), s.name);
        assert(spec_index_of(section_names(all), s.name) is None) by {
            if let Some(i) = spec_index_of(section_names(all), s.name) {
                assert(names[i] == s.name);
                assert(names[all.len() as int] == s.name);
            }
        }
        lemma_merge_new_name(all, s);
        assert(all.push(s) + new.skip(from + 1) =~= all + rest);
        lemma_merge_distinct_names(all.push(s), new, from + 1);
    } else {
        assert(all + rest =~= all);
    }
}

/// Sections of distinct names, not yet placed, merge into nothing as
/// themselves: no offset moves.
pub proof fn lemma_merge_into_nothing(new: Seq<LinkedSection>)
    requires
        section_names(new).no_duplicates(),
        forall|i: int| 0 <= i < new.len() ==> (#[trigger] new[i]).code.len() <= 65536 && new[i].base
            == 0,
    ensures
        spec_merge_sections(Seq::empty(), new, 0) == Ok::<Seq<LinkedSection>, LinkError>(new),
{
    assert(Seq::<LinkedSection>::empty() + new.skip(0) =~= new);
    lemma_merge_distinct_names(Seq::empty(), new, 0);
}

proof fn lemma_linked_sections_fresh(q: ProgramView, object: usize)
    requires
        q.settled(),
    ensures
        section_names(linked_sections(q.sections, object)).no_duplicates(),
        forall|i: int|
            0 <= i < q.sections.len() ==> (#[trigger] linked_sections(
                q.sections,
                object,
            )[i]).code.len() <= 65536 && linked_sections(q.sections, object)[i].base == 0,
{
    let linked = linked_sections(q.sections, object);
    let names = section_names(linked);
    lemma_settled_sections(q);
    assert forall|i: int, j: int| 0 <= i < names.len() && 0 <= j < names.len() && i
        != j implies names[i] != names[j] by {
        if i < j {
            assert(q.sections[i].name != q.sections[j].name);
        } else {
            assert(q.sections[j].name != q.sections[i].name);
        }
    }
    assert forall|i: int| 0 <= i < q.sections.len() implies (#[trigger] linked[i]).code.len()
        <= 65536 && linked[i].base == 0 by {
        assert(q.sections[i].wf());
    }
}

proof fn lemma_assembled_sections(src: Seq<u8>)
    ensures
        spec_assemble(src) matches Ok(q) ==> q.settled() && forall|i: int|
            0 <= i < q.sections.len() ==> (#[trigger] q.sections[i]).wf() && names_plain(
                q.sections[i],
            ),
{
    lemma_assembled_state(src);
    if let Ok(q) = spec_assemble(src) {
        lemma_settled_sections(q);
    }
}

/// Round trip: the object that a source assembles to is read back, and
/// merged as the only object, as the sections that the assembly left:
/// every section with its name and the identical code, every label at its
/// offset with its visibility under its qualified name, and the identical
/// list of references.
pub proof fn lemma_assemble_round_trip(src: Seq<u8>, object: usize)
    requires
        spec_assemble_to_object(src) is Ok,
    ensures
        spec_assemble(src) matches Ok(q) && spec_read_object(
            spec_assemble_to_object(src)->Ok_0,
            object,
        ) == Ok::<Seq<LinkedSection>, ObjectError>(linked_sections(q.sections, object))
            && spec_merge_sections(Seq::empty(), linked_sections(q.sections, object), 0) == Ok::<
            Seq<LinkedSection>,
            LinkError,
        >(linked_sections(q.sections, object)),
{
    let q = spec_assemble(src)->Ok_0;
    assert(spec_assemble(src) is Ok);
    assert(countable(q.sections));
    assert(spec_assemble_to_object(src)->Ok_0 == object_bytes(q.sections));
    lemma_assembled_sections(src);
    lemma_object_round_trip(q.sections, object);
    lemma_linked_sections_fresh(q, object);
    lemma_merge_into_nothing(linked_sections(q.sections, object));
}

} // verus!
