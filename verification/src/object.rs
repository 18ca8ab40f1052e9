//! Reading object files and symbol tables, and merging the sections of
//! several objects.

use crate::codec::{
    decode32, decode64, from_le16, from_le32, lemma_index_of, padding, qualified, read_le16,
    read_le32, spec_decode32, spec_decode64, spec_index_of, spec_qualified,
};
use crate::formats::{
    section_views, ByteSelect, Label, ObjectSpan, Reference, Section, SectionView, Symbol,
    Visibility,
};
use crate::codec::name64_eq;
use crate::ir::{name_eq};
use crate::linker::LinkError;
use vstd::prelude::*;
use vstd::slice::slice_subrange;

verus! {

/// Why the bytes of a file were refused.
#[derive(Clone, Copy, PartialEq, Eq, Structural, Debug)]
pub enum ObjectError {
    /// The file ends inside a record.
    Truncated,
    /// A name is not ASCII text.
    BadName,
    /// A visibility is none of 0, 1, 2.
    BadVisibility,
    /// A byte selection is none of 0, 1, 2.
    BadByteSelect,
    /// A section is longer than 65536 bytes.
    SectionTooLarge,
    /// A label stands behind the end of its section.
    BadLabel,
    /// A reference starts behind the end of its section.
    BadReference,
}

impl ObjectError {
    /// The text that says what is wrong.
    pub open spec fn spec_message(self) -> Seq<char> {
        match self {
            ObjectError::Truncated => "the file ends inside a record"@,
            ObjectError::BadName => "a name is not ASCII text"@,
            ObjectError::BadVisibility => "a visibility is none of 0, 1, 2"@,
            ObjectError::BadByteSelect => "a byte selection is none of 0, 1, 2"@,
            ObjectError::SectionTooLarge => "a section is too large"@,
            ObjectError::BadLabel => "a label stands behind the end of its section"@,
            ObjectError::BadReference => "a reference starts behind the end of its section"@,
        }
    }

    /// The text shown to the user for this error.
    pub fn message(self) -> (text: &'static str)
        ensures
            text@ == self.spec_message(),
    {
        match self {
            ObjectError::Truncated => "the file ends inside a record",
            ObjectError::BadName => "a name is not ASCII text",
            ObjectError::BadVisibility => "a visibility is none of 0, 1, 2",
            ObjectError::BadByteSelect => "a byte selection is none of 0, 1, 2",
            ObjectError::SectionTooLarge => "a section is too large",
            ObjectError::BadLabel => "a label stands behind the end of its section",
            ObjectError::BadReference => "a reference starts behind the end of its section",
        }
    }
}

/// The visibility that a number stands for.
pub open spec fn spec_vis_of(code: u32) -> Option<Visibility> {
    if code == 0 {
        Some(Visibility::Hidden)
    } else if code == 1 {
        Some(Visibility::Object)
    } else if code == 2 {
        Some(Visibility::Global)
    } else {
        None
    }
}

/// Reads a visibility from its number.
#[verifier::when_used_as_spec(spec_vis_of)]
pub fn vis_of(code: u32) -> (r: Option<Visibility>)
    ensures
        r == spec_vis_of(code),
{
    if code == 0 {
        Some(Visibility::Hidden)
    } else if code == 1 {
        Some(Visibility::Object)
    } else if code == 2 {
        Some(Visibility::Global)
    } else {
        None
    }
}

/// The byte selection that a number stands for.
pub open spec fn spec_select_of(code: u16) -> Option<ByteSelect> {
    if code == 0 {
        Some(ByteSelect::Both)
    } else if code == 1 {
        Some(ByteSelect::High)
    } else if code == 2 {
        Some(ByteSelect::Low)
    } else {
        None
    }
}

/// Reads a byte selection from its number.
#[verifier::when_used_as_spec(spec_select_of)]
pub fn select_of(code: u16) -> (r: Option<ByteSelect>)
    ensures
        r == spec_select_of(code),
{
    if code == 0 {
        Some(ByteSelect::Both)
    } else if code == 1 {
        Some(ByteSelect::High)
    } else if code == 2 {
        Some(ByteSelect::Low)
    } else {
        None
    }
}

/// The 32-bit integer at `pos`.
pub open spec fn u32_at(src: Seq<u8>, pos: int) -> u32 {
    from_le32(src.subrange(pos, pos + 4))
}

/// The 16-bit integer at `pos`.
pub open spec fn u16_at(src: Seq<u8>, pos: int) -> u16 {
    from_le16(src.subrange(pos, pos + 2))
}

/// Where the reading of a section's labels stands.
pub struct LabelScan {
    /// Where the next record starts.
    pub pos: int,
    /// The parents still to come.
    pub parents_left: nat,
    /// The children of the current parent still to come.
    pub children_left: nat,
    /// The name field of the current parent.
    pub parent: [u8; 32],
    /// The offset of the current parent.
    pub parent_offset: usize,
    /// The labels read so far.
    pub labels: Seq<Label>,
}

/// The state after one more label record: a child record while the
/// current parent waits for children, a parent record otherwise. A label's
/// scope starts at its parent; where it ends is known only once the next
/// parent is read, so it is left at zero here.
pub open spec fn spec_scan_label(
    src: Seq<u8>,
    st: LabelScan,
    size: usize,
    object: usize,
) -> Result<LabelScan, ObjectError> {
    let pos = st.pos;
    if st.children_left > 0 {
        if pos + 40 > src.len() {
            Err(ObjectError::Truncated)
        } else {
            match (spec_decode32(src.subrange(pos, pos + 32)), spec_vis_of(u32_at(src, pos + 36))) {
                (None, _) => Err(ObjectError::BadName),
                (Some(_), None) => Err(ObjectError::BadVisibility),
                (Some(name), Some(vis)) => if u32_at(src, pos + 32) > size {
                    Err(ObjectError::BadLabel)
                } else {
                    Ok(
                        LabelScan {
                            pos: pos + 40,
                            children_left: (st.children_left - 1) as nat,
                            labels: st.labels.push(
                                Label {
                                    name: spec_qualified(st.parent, Some(name)),
                                    vis,
                                    offset: u32_at(src, pos + 32) as usize,
                                    child: true,
                                    scope_start: st.parent_offset,
                                    scope_end: 0,
                                    object,
                                },
                            ),
                            ..st
                        },
                    )
                },
            }
        }
    } else {
        if pos + 44 > src.len() {
            Err(ObjectError::Truncated)
        } else {
            match (spec_decode32(src.subrange(pos, pos + 32)), spec_vis_of(u32_at(src, pos + 40))) {
                (None, _) => Err(ObjectError::BadName),
                (Some(_), None) => Err(ObjectError::BadVisibility),
                (Some(name), Some(vis)) => if u32_at(src, pos + 36) > size {
                    Err(ObjectError::BadLabel)
                } else {
                    Ok(
                        LabelScan {
                            pos: pos + 44,
                            parents_left: (st.parents_left - 1) as nat,
                            children_left: u32_at(src, pos + 32) as nat,
                            parent: name,
                            parent_offset: u32_at(src, pos + 36) as usize,
                            labels: st.labels.push(
                                Label {
                                    name: spec_qualified(name, None),
                                    vis,
                                    offset: u32_at(src, pos + 36) as usize,
                                    child: false,
                                    scope_start: u32_at(src, pos + 36) as usize,
                                    scope_end: 0,
                                    object,
                                },
                            ),
                        },
                    )
                },
            }
        }
    }
}

/// The state after all label records of a section.
pub open spec fn spec_scan_labels(
    src: Seq<u8>,
    st: LabelScan,
    size: usize,
    object: usize,
) -> Result<LabelScan, ObjectError>
    decreases st.parents_left, st.children_left,
{
    if st.children_left == 0 && st.parents_left == 0 {
        Ok(st)
    } else {
        match spec_scan_label(src, st, size, object) {
            Ok(next) => spec_scan_labels(src, next, size, object),
            Err(e) => Err(e),
        }
    }
}

/// The offset of the first parent at or behind index `i`, or `size` where
/// no parent follows.
pub open spec fn following_parent(labels: Seq<Label>, i: int, size: usize) -> usize
    decreases labels.len() - i,
{
    if i < 0 || i >= labels.len() {
        size
    } else if !labels[i].child {
        labels[i].offset
    } else {
        following_parent(labels, i + 1, size)
    }
}

/// The labels with the ends of their scopes: each scope ends at the next
/// parent, the last at the end of the section.
pub open spec fn with_scopes(labels: Seq<Label>, size: usize) -> Seq<Label> {
    Seq::new(
        labels.len(),
        |i: int| Label { scope_end: following_parent(labels, i + 1, size), ..labels[i] },
    )
}

/// Where the reading of a section's references stands.
pub struct ReferenceScan {
    pub pos: int,
    pub left: nat,
    pub references: Seq<Reference>,
}

/// The state after one more reference record.
pub open spec fn spec_scan_reference(
    src: Seq<u8>,
    st: ReferenceScan,
    size: usize,
    object: usize,
) -> Result<ReferenceScan, ObjectError> {
    let pos = st.pos;
    if pos + 72 > src.len() {
        Err(ObjectError::Truncated)
    } else {
        match (spec_decode64(src.subrange(pos, pos + 64)), spec_select_of(u16_at(src, pos + 68))) {
            (None, _) => Err(ObjectError::BadName),
            (Some(_), None) => Err(ObjectError::BadByteSelect),
            (Some(referred), Some(which_byte)) => {
                let r = Reference {
                    referred,
                    offset: u32_at(src, pos + 64) as usize,
                    which_byte,
                    branch: u16_at(src, pos + 70) == 1,
                    object,
                };
                if r.offset > size {
                    Err(ObjectError::BadReference)
                } else {
                    Ok(
                        ReferenceScan {
                            pos: pos + 72,
                            left: (st.left - 1) as nat,
                            references: st.references.push(r),
                        },
                    )
                }
            },
        }
    }
}

/// The state after all reference records of a section.
pub open spec fn spec_scan_references(
    src: Seq<u8>,
    st: ReferenceScan,
    size: usize,
    object: usize,
) -> Result<ReferenceScan, ObjectError>
    decreases st.left,
{
    if st.left == 0 {
        Ok(st)
    } else {
        match spec_scan_reference(src, st, size, object) {
            Ok(next) => spec_scan_references(src, next, size, object),
            Err(e) => Err(e),
        }
    }
}

/// The section whose record starts at `pos`, and where the record ends.
pub open spec fn spec_section_at(src: Seq<u8>, pos: int, object: usize) -> Result<
    (SectionView, int),
    ObjectError,
> {
    if pos + 44 > src.len() {
        Err(ObjectError::Truncated)
    } else {
        match spec_decode32(src.subrange(pos, pos + 32)) {
            None => Err(ObjectError::BadName),
            Some(name) => {
                let size = u32_at(src, pos + 32);
                if size > 65536 {
                    Err(ObjectError::SectionTooLarge)
                } else {
                    match spec_scan_labels(
                        src,
                        LabelScan {
                            pos: pos + 44,
                            parents_left: u32_at(src, pos + 36) as nat,
                            children_left: 0,
                            parent: name,
                            parent_offset: 0,
                            labels: Seq::empty(),
                        },
                        size as usize,
                        object,
                    ) {
                        Err(e) => Err(e),
                        Ok(ls) => match spec_scan_references(
                            src,
                            ReferenceScan {
                                pos: ls.pos,
                                left: u32_at(src, pos + 40) as nat,
                                references: Seq::empty(),
                            },
                            size as usize,
                            object,
                        ) {
                            Err(e) => Err(e),
                            Ok(rs) => if rs.pos + size + padding(size as nat) > src.len() {
                                Err(ObjectError::Truncated)
                            } else {
                                Ok(
                                    (
                                        SectionView {
                                            name,
                                            code: src.subrange(rs.pos, rs.pos + size),
                                            labels: with_scopes(ls.labels, size as usize),
                                            references: rs.references,
                                            base: 0,
                                            objects: seq![
                                                ObjectSpan { object, start: 0, end: size as usize },
                                            ],
                                        },
                                        rs.pos + size + padding(size as nat),
                                    ),
                                )
                            },
                        },
                    }
                }
            },
        }
    }
}

/// The sections of an object file from `pos` on, behind those read before.
pub open spec fn spec_sections(
    src: Seq<u8>,
    pos: int,
    left: nat,
    object: usize,
    read: Seq<SectionView>,
) -> Result<Seq<SectionView>, ObjectError>
    decreases left,
{
    if left == 0 {
        Ok(read)
    } else {
        match spec_section_at(src, pos, object) {
            Ok((section, end)) => spec_sections(
                src,
                end,
                (left - 1) as nat,
                object,
                read.push(section),
            ),
            Err(e) => Err(e),
        }
    }
}

/// The sections that an object file holds. `object` is the number of the
/// file, which every label and reference read from it carries.
pub open spec fn spec_read_object(src: Seq<u8>, object: usize) -> Result<
    Seq<SectionView>,
    ObjectError,
> {
    if src.len() < 4 {
        Err(ObjectError::Truncated)
    } else {
        spec_sections(src, 4, u32_at(src, 0) as nat, object, Seq::empty())
    }
}

fn read_labels(
    src: &[u8],
    from: usize,
    num_parents: u32,
    name: [u8; 32],
    size: usize,
    object: usize,
) -> (r: Result<(Vec<Label>, usize), ObjectError>)
    requires
        from <= src@.len(),
        size <= 65536,
    ensures
        match spec_scan_labels(
            src@,
            LabelScan {
                pos: from as int,
                parents_left: num_parents as nat,
                children_left: 0,
                parent: name,
                parent_offset: 0,
                labels: Seq::empty(),
            },
            size,
            object,
        ) {
            Ok(st) => r is Ok && r->Ok_0.0@ == st.labels && r->Ok_0.1 == st.pos && st.pos
                <= src@.len() && forall|i: int|
                0 <= i < st.labels.len() ==> (#[trigger] st.labels[i]).offset <= size
                    && st.labels[i].scope_start <= size,
            Err(e) => r == Err::<(Vec<Label>, usize), ObjectError>(e),
        },
{
    let len = src.len();
    let mut labels: Vec<Label> = Vec::new();
    let mut pos = from;
    let mut parents_left = num_parents;
    let mut children_left: u32 = 0;
    let mut parent = name;
    let mut parent_offset: usize = 0;
    let ghost first = LabelScan {
        pos: from as int,
        parents_left: num_parents as nat,
        children_left: 0,
        parent: name,
        parent_offset: 0,
        labels: Seq::empty(),
    };
    while children_left > 0 || parents_left > 0
        invariant
            pos <= len == src@.len(),
            first == (LabelScan {
                pos: from as int,
                parents_left: num_parents as nat,
                children_left: 0,
                parent: name,
                parent_offset: 0,
                labels: Seq::empty(),
            }),
            size <= 65536,
            parent_offset <= size,
            forall|i: int|
                0 <= i < labels@.len() ==> (#[trigger] labels@[i]).offset <= size
                    && labels@[i].scope_start <= size,
            spec_scan_labels(
                src@,
                LabelScan {
                    pos: pos as int,
                    parents_left: parents_left as nat,
                    children_left: children_left as nat,
                    parent,
                    parent_offset,
                    labels: labels@,
                },
                size,
                object,
            ) == spec_scan_labels(src@, first, size, object),
        decreases parents_left, children_left,
    {
        if children_left > 0 {
            if len - pos < 40 {
                return Err(ObjectError::Truncated);
            }
            let name = match decode32(src, pos) {
                None => return Err(ObjectError::BadName),
                Some(name) => name,
            };
            let offset = read_le32(src, pos + 32);
            let vis = match vis_of(read_le32(src, pos + 36)) {
                None => return Err(ObjectError::BadVisibility),
                Some(vis) => vis,
            };
            if offset as usize > size {
                return Err(ObjectError::BadLabel);
            }
            labels.push(
                Label {
                    name: qualified(&parent, &Some(name)),
                    vis,
                    offset: offset as usize,
                    child: true,
                    scope_start: parent_offset,
                    scope_end: 0,
                    object,
                },
            );
            children_left = children_left - 1;
            pos = pos + 40;
        } else {
            if len - pos < 44 {
                return Err(ObjectError::Truncated);
            }
            let name = match decode32(src, pos) {
                None => return Err(ObjectError::BadName),
                Some(name) => name,
            };
            let num_children = read_le32(src, pos + 32);
            let offset = read_le32(src, pos + 36);
            let vis = match vis_of(read_le32(src, pos + 40)) {
                None => return Err(ObjectError::BadVisibility),
                Some(vis) => vis,
            };
            if offset as usize > size {
                return Err(ObjectError::BadLabel);
            }
            labels.push(
                Label {
                    name: qualified(&name, &None),
                    vis,
                    offset: offset as usize,
                    child: false,
                    scope_start: offset as usize,
                    scope_end: 0,
                    object,
                },
            );
            parents_left = parents_left - 1;
            children_left = num_children;
            parent = name;
            parent_offset = offset as usize;
            pos = pos + 44;
        }
    }
    Ok((labels, pos))
}

fn set_scopes(labels: &mut Vec<Label>, size: usize)
    requires
        size <= 65536,
        forall|i: int|
            0 <= i < old(labels)@.len() ==> (#[trigger] old(labels)@[i]).offset <= size && old(
                labels,
            )@[i].scope_start <= size,
    ensures
        final(labels)@ == with_scopes(old(labels)@, size),
        forall|i: int|
            0 <= i < final(labels)@.len() ==> (#[trigger] final(labels)@[i]).offset <= size
                && final(labels)@[i].scope_start <= size && final(labels)@[i].scope_end <= size,
{
    let mut i: usize = labels.len();
    let mut next: usize = size;
    while i > 0
        invariant
            i <= labels@.len() == old(labels)@.len(),
            size <= 65536,
            next <= size,
            next == following_parent(old(labels)@, i as int, size),
            forall|j: int|
                0 <= j < old(labels)@.len() ==> (#[trigger] old(labels)@[j]).offset <= size && old(
                    labels,
                )@[j].scope_start <= size,
            forall|j: int| 0 <= j < i ==> labels@[j] == old(labels)@[j],
            forall|j: int|
                i <= j < labels@.len() ==> labels@[j] == with_scopes(old(labels)@, size)[j]
                    && labels@[j].scope_end <= size,
        decreases i,
    {
        i -= 1;
        let l = labels[i];
        labels[i] = Label { scope_end: next, ..l };
        if !l.child {
            next = l.offset;
        }
    }
    assert(labels@ =~= with_scopes(old(labels)@, size));
}

fn read_references(src: &[u8], from: usize, count: u32, size: usize, object: usize) -> (r: Result<
    (Vec<Reference>, usize),
    ObjectError,
>)
    requires
        from <= src@.len(),
        size <= 65536,
    ensures
        match spec_scan_references(
            src@,
            ReferenceScan { pos: from as int, left: count as nat, references: Seq::empty() },
            size,
            object,
        ) {
            Ok(st) => r is Ok && r->Ok_0.0@ == st.references && r->Ok_0.1 == st.pos && st.pos
                <= src@.len() && forall|i: int|
                0 <= i < st.references.len() ==> (#[trigger] st.references[i]).offset <= size,
            Err(e) => r == Err::<(Vec<Reference>, usize), ObjectError>(e),
        },
{
    let len = src.len();
    let mut references: Vec<Reference> = Vec::new();
    let mut pos = from;
    let mut left = count;
    let ghost first = ReferenceScan {
        pos: from as int,
        left: count as nat,
        references: Seq::empty(),
    };
    while left > 0
        invariant
            pos <= len == src@.len(),
            first == (ReferenceScan {
                pos: from as int,
                left: count as nat,
                references: Seq::empty(),
            }),
            size <= 65536,
            forall|i: int|
                0 <= i < references@.len() ==> (#[trigger] references@[i]).offset <= size,
            spec_scan_references(
                src@,
                ReferenceScan { pos: pos as int, left: left as nat, references: references@ },
                size,
                object,
            ) == spec_scan_references(src@, first, size, object),
        decreases left,
    {
        if len - pos < 72 {
            return Err(ObjectError::Truncated);
        }
        let referred = match decode64(src, pos) {
            None => return Err(ObjectError::BadName),
            Some(referred) => referred,
        };
        let offset = read_le32(src, pos + 64);
        let which_byte = match select_of(read_le16(src, pos + 68)) {
            None => return Err(ObjectError::BadByteSelect),
            Some(which_byte) => which_byte,
        };
        let branch = read_le16(src, pos + 70) == 1;
        let r = Reference { referred, offset: offset as usize, which_byte, branch, object };
        if r.offset > size {
            return Err(ObjectError::BadReference);
        }
        references.push(r);
        left = left - 1;
        pos = pos + 72;
    }
    Ok((references, pos))
}

fn read_section(src: &[u8], pos: usize, object: usize) -> (r: Result<(Section, usize), ObjectError>)
    requires
        pos <= src@.len(),
    ensures
        match spec_section_at(src@, pos as int, object) {
            Ok((section, end)) => r is Ok && r->Ok_0.0@ == section && r->Ok_0.1 == end && end
                <= src@.len() && section.wf(),
            Err(e) => r == Err::<(Section, usize), ObjectError>(e),
        },
{
    let len = src.len();
    if len - pos < 44 {
        return Err(ObjectError::Truncated);
    }
    let name = match decode32(src, pos) {
        None => return Err(ObjectError::BadName),
        Some(name) => name,
    };
    let size32 = read_le32(src, pos + 32);
    let num_parents = read_le32(src, pos + 36);
    let num_references = read_le32(src, pos + 40);
    if size32 > 65536 {
        return Err(ObjectError::SectionTooLarge);
    }
    let size = size32 as usize;
    let (mut labels, pos) = read_labels(src, pos + 44, num_parents, name, size, object)?;
    set_scopes(&mut labels, size);
    let (references, pos) = read_references(src, pos, num_references, size, object)?;
    let padded = size + (4 - size % 4) % 4;
    if len - pos < padded {
        return Err(ObjectError::Truncated);
    }
    let code = vstd::slice::slice_to_vec(slice_subrange(src, pos, pos + size));
    let mut objects: Vec<ObjectSpan> = Vec::new();
    objects.push(ObjectSpan { object, start: 0, end: size });
    assert(objects@ =~= seq![ObjectSpan { object, start: 0, end: size }]);
    Ok((Section { name, code, labels, references, base: 0, objects }, pos + padded))
}

/// Reads the sections of an object file. `object` is the number of the
/// file among the linker's inputs.
pub fn read_object(src: &[u8], object: usize) -> (r: Result<Vec<Section>, ObjectError>)
    ensures
        match spec_read_object(src@, object) {
            Ok(sections) => r is Ok && section_views(r->Ok_0@) == sections && forall|i: int|
                0 <= i < sections.len() ==> (#[trigger] sections[i]).wf(),
            Err(e) => r == Err::<Vec<Section>, ObjectError>(e),
        },
{
    if src.len() < 4 {
        return Err(ObjectError::Truncated);
    }
    let count = read_le32(src, 0);
    let mut sections: Vec<Section> = Vec::new();
    let mut pos: usize = 4;
    let mut left = count;
    assert(section_views(sections@) =~= Seq::empty());
    while left > 0
        invariant
            pos <= src@.len(),
            forall|i: int|
                0 <= i < sections@.len() ==> (#[trigger] section_views(sections@)[i]).wf(),
            spec_sections(src@, pos as int, left as nat, object, section_views(sections@))
                == spec_read_object(src@, object),
        decreases left,
    {
        let (section, end) = read_section(src, pos, object)?;
        let ghost before = section_views(sections@);
        sections.push(section);
        assert(section_views(sections@) =~= before.push(section@));
        left = left - 1;
        pos = end;
    }
    Ok(sections)
}

/// Where the reading of a symbol table stands.
pub struct SymbolScan {
    pub pos: int,
    pub left: nat,
    pub symbols: Seq<Symbol>,
}

/// The state after all records of a symbol table: each is a name of 64
/// bytes and an address.
pub open spec fn spec_scan_symbols(src: Seq<u8>, st: SymbolScan) -> Result<SymbolScan, ObjectError>
    decreases st.left,
{
    if st.left == 0 {
        Ok(st)
    } else if st.pos + 68 > src.len() {
        Err(ObjectError::Truncated)
    } else {
        match spec_decode64(src.subrange(st.pos, st.pos + 64)) {
            None => Err(ObjectError::BadName),
            Some(name) => spec_scan_symbols(
                src,
                SymbolScan {
                    pos: st.pos + 68,
                    left: (st.left - 1) as nat,
                    symbols: st.symbols.push(
                        Symbol { name, address: u32_at(src, st.pos + 64) as usize },
                    ),
                },
            ),
        }
    }
}

/// The symbols that a symbol table holds, in order.
pub open spec fn spec_read_symtab(src: Seq<u8>) -> Result<Seq<Symbol>, ObjectError> {
    if src.len() < 4 {
        Err(ObjectError::Truncated)
    } else {
        match spec_scan_symbols(
            src,
            SymbolScan { pos: 4, left: u32_at(src, 0) as nat, symbols: Seq::empty() },
        ) {
            Ok(st) => Ok(st.symbols),
            Err(e) => Err(e),
        }
    }
}

/// Reads a symbol table.
pub fn read_symtab(src: &[u8]) -> (r: Result<Vec<Symbol>, ObjectError>)
    ensures
        match spec_read_symtab(src@) {
            Ok(symbols) => r is Ok && r->Ok_0@ == symbols,
            Err(e) => r == Err::<Vec<Symbol>, ObjectError>(e),
        },
{
    let len = src.len();
    if len < 4 {
        return Err(ObjectError::Truncated);
    }
    let mut left = read_le32(src, 0);
    let mut symbols: Vec<Symbol> = Vec::new();
    let mut pos: usize = 4;
    let ghost first = SymbolScan { pos: 4, left: left as nat, symbols: Seq::empty() };
    while left > 0
        invariant
            pos <= len == src@.len(),
            spec_scan_symbols(
                src@,
                SymbolScan { pos: pos as int, left: left as nat, symbols: symbols@ },
            ) == spec_scan_symbols(src@, first),
            spec_read_symtab(src@) == match spec_scan_symbols(src@, first) {
                Ok(st) => Ok::<Seq<Symbol>, ObjectError>(st.symbols),
                Err(e) => Err(e),
            },
        decreases left,
    {
        if len - pos < 68 {
            return Err(ObjectError::Truncated);
        }
        let name = match decode64(src, pos) {
            None => return Err(ObjectError::BadName),
            Some(name) => name,
        };
        let address = read_le32(src, pos + 64);
        symbols.push(Symbol { name, address: address as usize });
        left = left - 1;
        pos = pos + 68;
    }
    Ok(symbols)
}

/// A label moved with its section by `by` bytes.
pub open spec fn shift_label(l: Label, by: usize) -> Label {
    Label {
        offset: (l.offset + by) as usize,
        scope_start: (l.scope_start + by) as usize,
        scope_end: (l.scope_end + by) as usize,
        ..l
    }
}

/// A reference moved with its section by `by` bytes.
pub open spec fn shift_reference(r: Reference, by: usize) -> Reference {
    Reference { offset: (r.offset + by) as usize, ..r }
}

/// An object's part of a section moved by `by` bytes.
pub open spec fn shift_span(s: ObjectSpan, by: usize) -> ObjectSpan {
    ObjectSpan { start: (s.start + by) as usize, end: (s.end + by) as usize, ..s }
}

/// Section `a` with section `b` behind it: the code of `b` follows the
/// code of `a`, and every label, reference and object part of `b` moves by
/// the size that `a` had.
pub open spec fn appended(a: SectionView, b: SectionView) -> SectionView {
    let by = a.code.len() as usize;
    SectionView {
        code: a.code + b.code,
        labels: a.labels + Seq::new(b.labels.len(), |i: int| shift_label(b.labels[i], by)),
        references: a.references + Seq::new(
            b.references.len(),
            |i: int| shift_reference(b.references[i], by),
        ),
        objects: a.objects + Seq::new(b.objects.len(), |i: int| shift_span(b.objects[i], by)),
        ..a
    }
}

/// Appending keeps sections well formed.
pub proof fn lemma_appended_wf(a: SectionView, b: SectionView)
    requires
        a.wf(),
        b.wf(),
        a.code.len() + b.code.len() <= 65536,
    ensures
        appended(a, b).wf(),
{
    let c = appended(a, b);
    let by = a.code.len() as usize;
    assert forall|i: int| 0 <= i < c.references.len() implies (#[trigger] c.references[i]).offset
        <= c.code.len() by {
        if i < a.references.len() {
            assert(c.references[i] == a.references[i]);
        } else {
            let k = i - a.references.len();
            assert(c.references[i] == shift_reference(b.references[k], by));
        }
    }
    assert forall|i: int| 0 <= i < c.labels.len() implies {
        &&& (#[trigger] c.labels[i]).offset <= c.code.len()
        &&& c.labels[i].scope_start <= c.code.len()
        &&& c.labels[i].scope_end <= c.code.len()
    } by {
        if i < a.labels.len() {
            assert(c.labels[i] == a.labels[i]);
        } else {
            let k = i - a.labels.len();
            assert(c.labels[i] == shift_label(b.labels[k], by));
        }
    }
    assert forall|i: int| 0 <= i < c.objects.len() implies (#[trigger] c.objects[i]).start
        <= c.objects[i].end <= c.code.len() by {
        if i < a.objects.len() {
            assert(c.objects[i] == a.objects[i]);
        } else {
            let k = i - a.objects.len();
            assert(c.objects[i] == shift_span(b.objects[k], by));
        }
    }
}

/// The names of the sections, in order.
pub open spec fn section_names(sections: Seq<SectionView>) -> Seq<[u8; 32]> {
    Seq::new(sections.len(), |i: int| sections[i].name)
}

/// The empty section of a name.
pub open spec fn empty_section(name: [u8; 32]) -> SectionView {
    SectionView {
        name,
        code: Seq::empty(),
        labels: Seq::empty(),
        references: Seq::empty(),
        base: 0,
        objects: Seq::empty(),
    }
}

/// The merged sections with one more section merged in: it goes behind
/// the section of its name, which starts empty behind the others if the
/// name is new. The merged section must not exceed 65536 bytes.
pub open spec fn spec_merge_section(all: Seq<SectionView>, s: SectionView) -> Result<
    Seq<SectionView>,
    LinkError,
> {
    let (known, at) = match spec_index_of(section_names(all), s.name) {
        Some(i) => (all, i),
        None => (all.push(empty_section(s.name)), all.len() as int),
    };
    if known[at].code.len() + s.code.len() > 65536 {
        Err(LinkError::SectionTooLarge { section: s.name })
    } else {
        Ok(known.update(at, appended(known[at], s)))
    }
}

/// The merged sections with the sections of one object merged in, in
/// their order, from index `from` on.
pub open spec fn spec_merge_sections(
    all: Seq<SectionView>,
    new: Seq<SectionView>,
    from: int,
) -> Result<Seq<SectionView>, LinkError>
    decreases new.len() - from,
{
    if from < 0 || from >= new.len() {
        Ok(all)
    } else {
        match spec_merge_section(all, new[from]) {
            Ok(next) => spec_merge_sections(next, new, from + 1),
            Err(e) => Err(e),
        }
    }
}

/// Whether a symbol of that name is in the list.
pub open spec fn has_symbol(symbols: Seq<Symbol>, name: [u8; 64]) -> bool {
    exists|i: int| 0 <= i < symbols.len() && (#[trigger] symbols[i]).name == name
}

/// The symbols with those of one table added, in their order, from index
/// `from` on. No name may come twice.
pub open spec fn spec_add_symbols(symbols: Seq<Symbol>, new: Seq<Symbol>, from: int) -> Result<
    Seq<Symbol>,
    LinkError,
>
    decreases new.len() - from,
{
    if from < 0 || from >= new.len() {
        Ok(symbols)
    } else if has_symbol(symbols, new[from].name) {
        Err(LinkError::DuplicateSymbol { name: new[from].name })
    } else {
        spec_add_symbols(symbols.push(new[from]), new, from + 1)
    }
}

/// Finds the first section of a name.
pub fn find_section(sections: &Vec<Section>, name: &[u8; 32]) -> (r: Option<usize>)
    ensures
        match r {
            Some(i) => spec_index_of(section_names(section_views(sections@)), *name) == Some(
                i as int,
            ) && i < sections@.len(),
            None => spec_index_of(section_names(section_views(sections@)), *name) is None,
        },
{
    let ghost names = section_names(section_views(sections@));
    let mut i: usize = 0;
    while i < sections.len()
        invariant
            i <= sections@.len(),
            names == section_names(section_views(sections@)),
            forall|j: int| 0 <= j < i ==> names[j] != *name,
        decreases sections@.len() - i,
    {
        if name_eq(&sections[i].name, name) {
            proof {
                lemma_index_of(names, *name);
                assert(names[i as int] == *name);
            }
            return Some(i);
        }
        i += 1;
    }
    proof {
        lemma_index_of(names, *name);
    }
    None
}

fn append_section(a: &mut Section, b: &Section)
    requires
        old(a)@.wf(),
        b@.wf(),
        old(a)@.code.len() + b@.code.len() <= 65536,
    ensures
        final(a)@ == appended(old(a)@, b@),
        final(a)@.wf(),
{
    let by = a.code.len();
    let mut i: usize = 0;
    while i < b.labels.len()
        invariant
            i <= b.labels@.len(),
            b@.wf(),
            by + b@.code.len() <= 65536,
            a.labels@ == old(a).labels@ + Seq::new(
                i as nat,
                |k: int| shift_label(b.labels@[k], by),
            ),
            a.code == old(a).code,
            a.references == old(a).references,
            a.objects == old(a).objects,
            a.name == old(a).name,
            a.base == old(a).base,
        decreases b.labels@.len() - i,
    {
        let l = b.labels[i];
        a.labels.push(
            Label {
                offset: l.offset + by,
                scope_start: l.scope_start + by,
                scope_end: l.scope_end + by,
                ..l
            },
        );
        i += 1;
        assert(a.labels@ =~= old(a).labels@ + Seq::new(
            i as nat,
            |k: int| shift_label(b.labels@[k], by),
        ));
    }
    let mut i: usize = 0;
    while i < b.references.len()
        invariant
            i <= b.references@.len(),
            b@.wf(),
            by + b@.code.len() <= 65536,
            a.references@ == old(a).references@ + Seq::new(
                i as nat,
                |k: int| shift_reference(b.references@[k], by),
            ),
            a.labels@ == old(a).labels@ + Seq::new(
                b.labels@.len(),
                |k: int| shift_label(b.labels@[k], by),
            ),
            a.code == old(a).code,
            a.objects == old(a).objects,
            a.name == old(a).name,
            a.base == old(a).base,
        decreases b.references@.len() - i,
    {
        let r = b.references[i];
        a.references.push(Reference { offset: r.offset + by, ..r });
        i += 1;
        assert(a.references@ =~= old(a).references@ + Seq::new(
            i as nat,
            |k: int| shift_reference(b.references@[k], by),
        ));
    }
    let mut i: usize = 0;
    while i < b.objects.len()
        invariant
            i <= b.objects@.len(),
            b@.wf(),
            by + b@.code.len() <= 65536,
            a.objects@ == old(a).objects@ + Seq::new(
                i as nat,
                |k: int| shift_span(b.objects@[k], by),
            ),
            a.references@ == old(a).references@ + Seq::new(
                b.references@.len(),
                |k: int| shift_reference(b.references@[k], by),
            ),
            a.labels@ == old(a).labels@ + Seq::new(
                b.labels@.len(),
                |k: int| shift_label(b.labels@[k], by),
            ),
            a.code == old(a).code,
            a.name == old(a).name,
            a.base == old(a).base,
        decreases b.objects@.len() - i,
    {
        let s = b.objects[i];
        assert(b@.objects[i as int].end <= b@.code.len());
        a.objects.push(ObjectSpan { start: s.start + by, end: s.end + by, ..s });
        i += 1;
        assert(a.objects@ =~= old(a).objects@ + Seq::new(
            i as nat,
            |k: int| shift_span(b.objects@[k], by),
        ));
    }
    crate::codec::push_bytes(&mut a.code, b.code.as_slice());
    proof {
        lemma_appended_wf(old(a)@, b@);
    }
}

/// Merges one section into the merged sections.
pub fn merge_section(all: &mut Vec<Section>, s: &Section) -> (r: Result<(), LinkError>)
    requires
        forall|i: int| 0 <= i < old(all)@.len() ==> (#[trigger] old(all)@[i])@.wf(),
        s@.wf(),
    ensures
        match spec_merge_section(section_views(old(all)@), s@) {
            Ok(merged) => r is Ok && section_views(final(all)@) == merged,
            Err(e) => r == Err::<(), LinkError>(e) && section_views(final(all)@) == section_views(
                old(all)@,
            ),
        },
        forall|i: int| 0 <= i < final(all)@.len() ==> (#[trigger] final(all)@[i])@.wf(),
{
    let at = match find_section(all, &s.name) {
        Some(i) => {
            if all[i].code.len() + s.code.len() > 65536 {
                return Err(LinkError::SectionTooLarge { section: s.name });
            }
            i
        },
        None => {
            if s.code.len() > 65536 {
                return Err(LinkError::SectionTooLarge { section: s.name });
            }
            all.push(
                Section {
                    name: s.name,
                    code: Vec::new(),
                    labels: Vec::new(),
                    references: Vec::new(),
                    base: 0,
                    objects: Vec::new(),
                },
            );
            assert(section_views(all@) =~= section_views(old(all)@).push(empty_section(s.name)));
            all.len() - 1
        },
    };
    let ghost known = section_views(all@);
    append_section(&mut all[at], s);
    assert(section_views(all@) =~= known.update(at as int, appended(known[at as int], s@)));
    Ok(())
}

/// The two kinds of input file.
#[derive(Clone, Copy, PartialEq, Eq, Structural, Debug)]
pub enum FileKind {
    /// An object file, `.65o`.
    Object,
    /// A symbol table, `.65s`.
    Symbols,
}

/// Whether a file name has the extension: the name ends in a dot and the
/// extension, and the file's own name has at least one byte before that dot.
pub open spec fn spec_has_extension(name: Seq<u8>, ext: Seq<u8>) -> bool {
    let stem = name.len() - ext.len() - 1;
    &&& stem >= 1
    &&& name[stem] == '.' as u8
    &&& name[stem - 1] != '/' as u8
    &&& name.subrange(stem + 1, name.len() as int) == ext
}

/// Tests a file name for an extension.
pub fn has_extension(name: &[u8], ext: &[u8]) -> (r: bool)
    ensures
        r == spec_has_extension(name@, ext@),
{
    if ext.len() >= name.len() || name.len() - ext.len() < 2 {
        return false;
    }
    let stem = name.len() - ext.len() - 1;
    if name[stem] != '.' as u8 || name[stem - 1] == '/' as u8 {
        return false;
    }
    let ghost tail = name@.subrange(stem + 1, name@.len() as int);
    let mut i: usize = 0;
    while i < ext.len()
        invariant
            i <= ext@.len(),
            stem + 1 + ext@.len() == name@.len() <= usize::MAX,
            tail == name@.subrange(stem + 1, name@.len() as int),
            forall|j: int| 0 <= j < i ==> tail[j] == ext@[j],
        decreases ext@.len() - i,
    {
        if name[stem + 1 + i] != ext[i] {
            assert(tail[i as int] != ext@[i as int]);
            return false;
        }
        i += 1;
    }
    assert(tail =~= ext@);
    true
}

/// The extension of object files.
pub open spec fn object_extension() -> Seq<u8> {
    seq!['6' as u8, '5' as u8, 'o' as u8]
}

/// The extension of symbol tables.
pub open spec fn symbols_extension() -> Seq<u8> {
    seq!['6' as u8, '5' as u8, 's' as u8]
}

/// The extension of assembly sources.
pub open spec fn source_extension() -> Seq<u8> {
    seq!['6' as u8, '5' as u8, 'a' as u8]
}

/// The kind of file that a name announces by its extension.
pub open spec fn spec_file_kind(name: Seq<u8>) -> Option<FileKind> {
    if spec_has_extension(name, object_extension()) {
        Some(FileKind::Object)
    } else if spec_has_extension(name, symbols_extension()) {
        Some(FileKind::Symbols)
    } else {
        None
    }
}

/// Tells the kind of an input file from its name.
pub fn file_kind(name: &[u8]) -> (r: Option<FileKind>)
    ensures
        r == spec_file_kind(name@),
{
    let object: [u8; 3] = ['6' as u8, '5' as u8, 'o' as u8];
    let symbols: [u8; 3] = ['6' as u8, '5' as u8, 's' as u8];
    assert(object@ =~= object_extension());
    assert(symbols@ =~= symbols_extension());
    if has_extension(name, object.as_slice()) {
        Some(FileKind::Object)
    } else if has_extension(name, symbols.as_slice()) {
        Some(FileKind::Symbols)
    } else {
        None
    }
}

/// Whether a file name announces an assembly source, `.65a`.
pub fn is_source_name(name: &[u8]) -> (r: bool)
    ensures
        r == spec_has_extension(name@, source_extension()),
{
    let source: [u8; 3] = ['6' as u8, '5' as u8, 'a' as u8];
    assert(source@ =~= source_extension());
    has_extension(name, source.as_slice())
}

/// An input file of the linker: its name and what it holds.
#[derive(Debug)]
pub struct Input {
    pub name: Vec<u8>,
    pub bytes: Vec<u8>,
}

/// An input file as a mathematical value.
pub struct InputView {
    pub name: Seq<u8>,
    pub bytes: Seq<u8>,
}

impl View for Input {
    type V = InputView;

    open spec fn view(&self) -> InputView {
        InputView { name: self.name@, bytes: self.bytes@ }
    }
}

/// The input files of a list as mathematical values.
pub open spec fn input_views(files: Seq<Input>) -> Seq<InputView> {
    Seq::new(files.len(), |i: int| files[i]@)
}

/// What the input files read so far have given.
pub struct Merged {
    pub sections: Seq<SectionView>,
    pub symbols: Seq<Symbol>,
}

/// What is there after one more input file, the one with number `file`:
/// the sections of an object are merged in, the symbols of a table added.
pub open spec fn spec_read_file(m: Merged, input: InputView, file: usize) -> Result<
    Merged,
    LinkError,
> {
    match spec_file_kind(input.name) {
        None => Err(LinkError::WrongExtension { file }),
        Some(FileKind::Object) => match spec_read_object(input.bytes, file) {
            Err(error) => Err(LinkError::BadFile { file, error }),
            Ok(sections) => match spec_merge_sections(m.sections, sections, 0) {
                Err(e) => Err(e),
                Ok(merged) => Ok(Merged { sections: merged, ..m }),
            },
        },
        Some(FileKind::Symbols) => match spec_read_symtab(input.bytes) {
            Err(error) => Err(LinkError::BadFile { file, error }),
            Ok(symbols) => match spec_add_symbols(m.symbols, symbols, 0) {
                Err(e) => Err(e),
                Ok(added) => Ok(Merged { symbols: added, ..m }),
            },
        },
    }
}

/// What the input files from number `from` on give, behind what the files
/// before them gave. The first failure ends the reading.
pub open spec fn spec_read_files(files: Seq<InputView>, from: int, m: Merged) -> Result<
    Merged,
    LinkError,
>
    decreases files.len() - from,
{
    if from < 0 || from >= files.len() {
        Ok(m)
    } else {
        match spec_read_file(m, files[from], from as usize) {
            Ok(next) => spec_read_files(files, from + 1, next),
            Err(e) => Err(e),
        }
    }
}

/// The merged sections and the symbols of all input files, in order.
pub open spec fn spec_read_objects(files: Seq<InputView>) -> Result<Merged, LinkError> {
    spec_read_files(files, 0, Merged { sections: Seq::empty(), symbols: Seq::empty() })
}

fn symbol_listed(symbols: &Vec<Symbol>, name: &[u8; 64]) -> (r: bool)
    ensures
        r == has_symbol(symbols@, *name),
{
    let mut i: usize = 0;
    while i < symbols.len()
        invariant
            i <= symbols@.len(),
            forall|j: int| 0 <= j < i ==> (#[trigger] symbols@[j]).name != *name,
        decreases symbols@.len() - i,
    {
        if name64_eq(&symbols[i].name, name) {
            return true;
        }
        i += 1;
    }
    false
}

fn merge_sections(all: &mut Vec<Section>, new: &Vec<Section>) -> (r: Result<(), LinkError>)
    requires
        forall|i: int| 0 <= i < old(all)@.len() ==> (#[trigger] old(all)@[i])@.wf(),
        forall|i: int| 0 <= i < new@.len() ==> (#[trigger] new@[i])@.wf(),
    ensures
        match spec_merge_sections(section_views(old(all)@), section_views(new@), 0) {
            Ok(merged) => r is Ok && section_views(final(all)@) == merged,
            Err(e) => r == Err::<(), LinkError>(e),
        },
        forall|i: int| 0 <= i < final(all)@.len() ==> (#[trigger] final(all)@[i])@.wf(),
{
    let mut i: usize = 0;
    while i < new.len()
        invariant
            i <= new@.len(),
            forall|i: int| 0 <= i < all@.len() ==> (#[trigger] all@[i])@.wf(),
            forall|i: int| 0 <= i < new@.len() ==> (#[trigger] new@[i])@.wf(),
            spec_merge_sections(section_views(all@), section_views(new@), i as int)
                == spec_merge_sections(section_views(old(all)@), section_views(new@), 0),
        decreases new@.len() - i,
    {
        merge_section(all, &new[i])?;
        i += 1;
    }
    Ok(())
}

fn add_symbols(symbols: &mut Vec<Symbol>, new: &Vec<Symbol>) -> (r: Result<(), LinkError>)
    ensures
        match spec_add_symbols(old(symbols)@, new@, 0) {
            Ok(added) => r is Ok && final(symbols)@ == added,
            Err(e) => r == Err::<(), LinkError>(e),
        },
{
    let mut i: usize = 0;
    while i < new.len()
        invariant
            i <= new@.len(),
            spec_add_symbols(symbols@, new@, i as int) == spec_add_symbols(old(symbols)@, new@, 0),
        decreases new@.len() - i,
    {
        let s = new[i];
        if symbol_listed(symbols, &s.name) {
            return Err(LinkError::DuplicateSymbol { name: s.name });
        }
        symbols.push(s);
        i += 1;
    }
    Ok(())
}

/// Reads all input files in order and merges what they hold: the sections
/// of the objects by name, and the symbols of the tables.
pub fn read_objects(files: &Vec<Input>) -> (r: Result<(Vec<Section>, Vec<Symbol>), LinkError>)
    ensures
        match spec_read_objects(input_views(files@)) {
            Ok(m) => r is Ok && section_views(r->Ok_0.0@) == m.sections && r->Ok_0.1@ == m.symbols
                && forall|i: int| 0 <= i < m.sections.len() ==> (#[trigger] m.sections[i]).wf(),
            Err(e) => r == Err::<(Vec<Section>, Vec<Symbol>), LinkError>(e),
        },
{
    let mut sections: Vec<Section> = Vec::new();
    let mut symbols: Vec<Symbol> = Vec::new();
    let mut i: usize = 0;
    assert(section_views(sections@) =~= Seq::empty());
    while i < files.len()
        invariant
            i <= files@.len(),
            forall|k: int| 0 <= k < sections@.len() ==> (#[trigger] sections@[k])@.wf(),
            spec_read_files(
                input_views(files@),
                i as int,
                Merged { sections: section_views(sections@), symbols: symbols@ },
            ) == spec_read_objects(input_views(files@)),
        decreases files@.len() - i,
    {
        let input = &files[i];
        assert(input_views(files@)[i as int] == input@);
        match file_kind(input.name.as_slice()) {
            None => return Err(LinkError::WrongExtension { file: i }),
            Some(FileKind::Object) => {
                let new = match read_object(input.bytes.as_slice(), i) {
                    Err(error) => return Err(LinkError::BadFile { file: i, error }),
                    Ok(new) => new,
                };
                assert forall|k: int| 0 <= k < new@.len() implies (#[trigger] new@[k])@.wf() by {
                    assert(section_views(new@)[k].wf());
                }
                merge_sections(&mut sections, &new)?;
            },
            Some(FileKind::Symbols) => {
                let new = match read_symtab(input.bytes.as_slice()) {
                    Err(error) => return Err(LinkError::BadFile { file: i, error }),
                    Ok(new) => new,
                };
                add_symbols(&mut symbols, &new)?;
            },
        }
        i += 1;
    }
    assert forall|k: int| 0 <= k < sections@.len() implies (#[trigger] section_views(
        sections@,
    )[k]).wf() by {
        assert(sections@[k]@.wf());
    }
    Ok((sections, symbols))
}

/// The records of the first `k` symbols: each a name of 64 bytes and an
/// address.
pub open spec fn symbol_records(symbols: Seq<Symbol>, k: int) -> Seq<u8>
    decreases k,
{
    if k <= 0 {
        Seq::empty()
    } else {
        symbol_records(symbols, k - 1) + symbols[k - 1].name@ + crate::codec::le32(
            symbols[k - 1].address as u32,
        )
    }
}

/// A symbol table: the number of symbols, then the symbols in order.
pub open spec fn symtab_bytes(symbols: Seq<Symbol>) -> Seq<u8> {
    crate::codec::le32(symbols.len() as u32) + symbol_records(symbols, symbols.len() as int)
}

/// Writes symbols as a symbol table.
pub fn create_symtab(symbols: &Vec<Symbol>) -> (out: Vec<u8>)
    requires
        symbols@.len() <= u32::MAX,
        forall|i: int| 0 <= i < symbols@.len() ==> (#[trigger] symbols@[i]).address <= u32::MAX,
    ensures
        out@ == symtab_bytes(symbols@),
{
    let mut out: Vec<u8> = Vec::new();
    crate::codec::push_le32(&mut out, symbols.len() as u32);
    let mut i: usize = 0;
    assert(out@ =~= crate::codec::le32(symbols@.len() as u32) + symbol_records(symbols@, 0));
    while i < symbols.len()
        invariant
            i <= symbols@.len(),
            forall|i: int|
                0 <= i < symbols@.len() ==> (#[trigger] symbols@[i]).address <= u32::MAX,
            out@ == crate::codec::le32(symbols@.len() as u32) + symbol_records(
                symbols@,
                i as int,
            ),
        decreases symbols@.len() - i,
    {
        let s = symbols[i];
        crate::codec::push_bytes(&mut out, s.name.as_slice());
        crate::codec::push_le32(&mut out, s.address as u32);
        i += 1;
        assert(out@ =~= crate::codec::le32(symbols@.len() as u32) + symbol_records(
            symbols@,
            i as int,
        ));
    }
    out
}

/// Merging a section into one of the same name gives a single section
/// of that name: its size is the sum of the two sizes, what the first
/// held stays where it was, the code of the second follows, and every
/// label and reference of the second moves by the size that the first had.
pub proof fn lemma_merge_same_name(all: Seq<SectionView>, s: SectionView, at: int)
    requires
        spec_index_of(section_names(all), s.name) == Some(at),
        0 <= at < all.len(),
        all[at].code.len() + s.code.len() <= 65536,
    ensures
        spec_merge_section(all, s) matches Ok(merged) && {
            let before = all[at];
            let after = merged[at];
            &&& merged.len() == all.len()
            &&& forall|i: int| 0 <= i < all.len() && i != at ==> merged[i] == all[i]
            &&& after.name == s.name
            &&& after.code.len() == before.code.len() + s.code.len()
            &&& after.code == before.code + s.code
            &&& after.labels.len() == before.labels.len() + s.labels.len()
            &&& after.references.len() == before.references.len() + s.references.len()
            &&& forall|k: int| 0 <= k < before.labels.len() ==> after.labels[k] == before.labels[k]
            &&& forall|k: int|
                0 <= k < before.references.len() ==> after.references[k] == before.references[k]
            &&& forall|k: int|
                0 <= k < s.labels.len() ==> #[trigger] after.labels[before.labels.len() + k]
                    == shift_label(s.labels[k], before.code.len() as usize)
            &&& forall|k: int|
                0 <= k < s.references.len() ==> #[trigger] after.references[before.references.len()
                    + k] == shift_reference(s.references[k], before.code.len() as usize)
        },
{
    lemma_index_of(section_names(all), s.name);
}

/// Merging keeps the names of the sections distinct: no name gets a
/// second section.
pub proof fn lemma_merge_keeps_names_distinct(all: Seq<SectionView>, s: SectionView)
    requires
        section_names(all).no_duplicates(),
    ensures
        spec_merge_section(all, s) matches Ok(merged) ==> section_names(merged).no_duplicates()
            && section_names(merged).contains(s.name),
{
    let names = section_names(all);
    lemma_index_of(names, s.name);
    if let Ok(merged) = spec_merge_section(all, s) {
        match spec_index_of(names, s.name) {
            Some(i) => {
                assert(section_names(merged) =~= names);
                assert(names[i] == s.name);
            },
            None => {
                assert(section_names(merged) =~= names.push(s.name));
                assert(names.push(s.name)[names.len() as int] == s.name);
            },
        }
    }
}

/// Whether the sections are as the reader gives them: not yet placed,
/// and within the limit.
pub open spec fn fresh(sections: Seq<SectionView>) -> bool {
    forall|k: int|
        0 <= k < sections.len() ==> (#[trigger] sections[k]).base == 0 && sections[k].code.len()
            <= 65536
}

proof fn lemma_scan_labels_forward(src: Seq<u8>, st: LabelScan, size: usize, object: usize)
    ensures
        spec_scan_labels(src, st, size, object) matches Ok(end) ==> end.pos >= st.pos,
    decreases st.parents_left, st.children_left,
{
    if !(st.children_left == 0 && st.parents_left == 0) {
        if let Ok(next) = spec_scan_label(src, st, size, object) {
            lemma_scan_labels_forward(src, next, size, object);
        }
    }
}

proof fn lemma_scan_references_forward(
    src: Seq<u8>,
    st: ReferenceScan,
    size: usize,
    object: usize,
)
    ensures
        spec_scan_references(src, st, size, object) matches Ok(end) ==> end.pos >= st.pos,
    decreases st.left,
{
    if st.left > 0 {
        if let Ok(next) = spec_scan_reference(src, st, size, object) {
            lemma_scan_references_forward(src, next, size, object);
        }
    }
}

proof fn lemma_section_at_fresh(src: Seq<u8>, pos: int, object: usize)
    requires
        0 <= pos,
    ensures
        spec_section_at(src, pos, object) matches Ok((section, end)) ==> section.base == 0
            && section.code.len() <= 65536 && end >= pos,
{
    if let Ok((section, end)) = spec_section_at(src, pos, object) {
        let name = spec_decode32(src.subrange(pos, pos + 32))->0;
        let size = u32_at(src, pos + 32);
        let first = LabelScan {
            pos: pos + 44,
            parents_left: u32_at(src, pos + 36) as nat,
            children_left: 0,
            parent: name,
            parent_offset: 0,
            labels: Seq::empty(),
        };
        lemma_scan_labels_forward(src, first, size as usize, object);
        let ls = spec_scan_labels(src, first, size as usize, object)->Ok_0;
        lemma_scan_references_forward(
            src,
            ReferenceScan {
                pos: ls.pos,
                left: u32_at(src, pos + 40) as nat,
                references: Seq::empty(),
            },
            size as usize,
            object,
        );
    }
}

proof fn lemma_sections_fresh(
    src: Seq<u8>,
    pos: int,
    left: nat,
    object: usize,
    read: Seq<SectionView>,
)
    requires
        0 <= pos,
        fresh(read),
    ensures
        spec_sections(src, pos, left, object, read) matches Ok(all) ==> fresh(all),
    decreases left,
{
    if left > 0 {
        lemma_section_at_fresh(src, pos, object);
        if let Ok((section, end)) = spec_section_at(src, pos, object) {
            let next = read.push(section);
            assert forall|k: int| 0 <= k < next.len() implies (#[trigger] next[k]).base == 0
                && next[k].code.len() <= 65536 by {
                if k < read.len() {
                    assert(read[k].base == 0);
                }
            }
            lemma_sections_fresh(src, end, (left - 1) as nat, object, next);
        }
    }
}

/// The sections that the reader gives are not yet placed, and within the
/// limit.
pub proof fn lemma_read_object_fresh(src: Seq<u8>, object: usize)
    ensures
        spec_read_object(src, object) matches Ok(sections) ==> fresh(sections),
{
    if src.len() >= 4 {
        lemma_sections_fresh(src, 4, u32_at(src, 0) as nat, object, Seq::empty());
    }
}

/// Whether every section of `new` from index `from` on fits behind the
/// section of its name in `all`, if there is one.
pub open spec fn fits_behind(all: Seq<SectionView>, new: Seq<SectionView>, from: int) -> bool {
    forall|a: int, b: int|
        0 <= a < all.len() && from <= b < new.len() && (#[trigger] all[a]).name == (
        #[trigger] new[b]).name ==> all[a].code.len() + new[b].code.len() <= 65536
}

/// Merging the sections of an object into the merged sections, where
/// neither list has a name twice and everything fits: every merged
/// section whose name the object has gets the object's section of that
/// name behind it, every other stays as it is, and no name gets a second
/// section.
pub proof fn lemma_merge_sections_by_name(
    all: Seq<SectionView>,
    new: Seq<SectionView>,
    from: int,
)
    requires
        0 <= from <= new.len(),
        section_names(all).no_duplicates(),
        section_names(new).no_duplicates(),
        fresh(new),
        fits_behind(all, new, from),
    ensures
        spec_merge_sections(all, new, from) matches Ok(merged) && {
            &&& merged.len() >= all.len()
            &&& section_names(merged).no_duplicates()
            &&& forall|a: int, b: int|
                0 <= a < all.len() && from <= b < new.len() && (#[trigger] all[a]).name == (
                #[trigger] new[b]).name ==> merged[a] == appended(all[a], new[b])
            &&& forall|a: int|
                0 <= a < all.len() && (forall|b: int|
                    from <= b < new.len() ==> all[a].name != (#[trigger] new[b]).name)
                    ==> merged[a] == #[trigger] all[a]
        },
    decreases new.len() - from,
{
    if from < new.len() {
        let s = new[from];
        let names = section_names(all);
        lemma_index_of(names, s.name);
        lemma_merge_keeps_names_distinct(all, s);
        assert(new[from].base == 0 && new[from].code.len() <= 65536);
        let at = spec_index_of(names, s.name);
        match at {
            Some(i) => {
                assert(all[i].name == new[from].name);
            },
            None => {},
        }
        let next = spec_merge_section(all, s)->Ok_0;
        assert forall|a: int| 0 <= a < all.len() implies (#[trigger] next[a]).name == all[a].name
            && (next[a] == all[a] || (at == Some(a) && next[a] == appended(all[a], s))) by {}
        assert forall|a: int| all.len() <= a < next.len() implies (#[trigger] next[a]).name
            == s.name by {}
        assert(fits_behind(next, new, from + 1)) by {
            assert forall|a: int, b: int|
                0 <= a < next.len() && from + 1 <= b < new.len() && (#[trigger] next[a]).name == (
                #[trigger] new[b]).name implies next[a].code.len() + new[b].code.len()
                <= 65536 by {
                if next[a].name == s.name {
                    assert(section_names(new)[from] == section_names(new)[b]);
                } else {
                    assert(all[a].name == new[b].name);
                }
            }
        }
        lemma_merge_sections_by_name(next, new, from + 1);
        let merged = spec_merge_sections(all, new, from)->Ok_0;
        assert forall|a: int, b: int|
            0 <= a < all.len() && from <= b < new.len() && (#[trigger] all[a]).name == (
            #[trigger] new[b]).name implies merged[a] == appended(all[a], new[b]) by {
            if b == from {
                assert(names[a] == s.name);
                assert(at == Some(a));
                assert forall|c: int| from + 1 <= c < new.len() implies next[a].name != (
                #[trigger] new[c]).name by {
                    assert(section_names(new)[from] != section_names(new)[c]);
                }
                assert(merged[a] == next[a]);
            } else {
                assert(next[a].name == new[b].name);
                if at == Some(a) {
                    assert(section_names(new)[from] == section_names(new)[b]);
                }
            }
        }
        assert forall|a: int|
            0 <= a < all.len() && (forall|b: int|
                from <= b < new.len() ==> all[a].name != (#[trigger] new[b]).name) implies merged[a]
            == #[trigger] all[a] by {
            assert(all[a].name != new[from].name);
            assert(names[a] != s.name);
            assert(next[a] == all[a]);
            assert forall|c: int| from + 1 <= c < new.len() implies next[a].name != (
            #[trigger] new[c]).name by {
                assert(all[a].name != new[c].name);
            }
        }
    }
}

/// Two objects that both have a section of one name: their sections of
/// that name merge into a single section, the first one's with the second
/// one's behind it. Its size is the sum of the two sizes, its code the
/// first code and then the second, and every label and reference of the
/// second has its offset moved by the size of the first. Each object has
/// no name twice, and where both have a name the two sections fit.
pub proof fn lemma_two_objects_merge(
    files: Seq<InputView>,
    first: Seq<SectionView>,
    second: Seq<SectionView>,
    i: int,
    j: int,
)
    requires
        files.len() == 2,
        spec_file_kind(files[0].name) == Some(FileKind::Object),
        spec_file_kind(files[1].name) == Some(FileKind::Object),
        spec_read_object(files[0].bytes, 0) == Ok::<Seq<SectionView>, ObjectError>(first),
        spec_read_object(files[1].bytes, 1) == Ok::<Seq<SectionView>, ObjectError>(second),
        section_names(first).no_duplicates(),
        section_names(second).no_duplicates(),
        fits_behind(first, second, 0),
        0 <= i < first.len(),
        0 <= j < second.len(),
        first[i].name == second[j].name,
    ensures
        spec_read_objects(files) matches Ok(m) && {
            &&& section_names(m.sections).no_duplicates()
            &&& i < m.sections.len()
            &&& m.sections[i] == appended(first[i], second[j])
            &&& m.sections[i].name == first[i].name
            &&& m.sections[i].code == first[i].code + second[j].code
            &&& m.sections[i].code.len() == first[i].code.len() + second[j].code.len()
            &&& forall|k: int|
                0 <= k < first[i].labels.len() ==> m.sections[i].labels[k] == first[i].labels[k]
            &&& forall|k: int|
                0 <= k < second[j].labels.len() ==> #[trigger] m.sections[i].labels[
                    first[i].labels.len() + k
                ] == shift_label(second[j].labels[k], first[i].code.len() as usize)
            &&& forall|k: int|
                0 <= k < first[i].references.len() ==> m.sections[i].references[k]
                    == first[i].references[k]
            &&& forall|k: int|
                0 <= k < second[j].references.len() ==> #[trigger] m.sections[i].references[
                    first[i].references.len() + k
                ] == shift_reference(second[j].references[k], first[i].code.len() as usize)
        },
{
    lemma_read_object_fresh(files[0].bytes, 0);
    lemma_read_object_fresh(files[1].bytes, 1);
    crate::round_trip::lemma_merge_into_nothing(first);
    lemma_merge_sections_by_name(first, second, 0);
    let start = Merged { sections: Seq::empty(), symbols: Seq::empty() };
    let one = Merged { sections: first, symbols: Seq::empty() };
    assert(spec_read_file(start, files[0], 0) == Ok::<Merged, LinkError>(one));
    let merged = spec_merge_sections(first, second, 0)->Ok_0;
    let two = Merged { sections: merged, symbols: Seq::empty() };
    assert(spec_read_file(one, files[1], 1) == Ok::<Merged, LinkError>(two));
    assert(spec_read_files(files, 2, two) == Ok::<Merged, LinkError>(two));
    assert(spec_read_files(files, 1, one) == Ok::<Merged, LinkError>(two));
    assert(spec_read_files(files, 0, start) == Ok::<Merged, LinkError>(two));
}

/// Where the symbols of a table are added, every one of them is kept, in
/// order, behind those that were there, and no name has come twice:
/// neither two symbols of the table nor a symbol of the table and one
/// that was there share a name.
pub proof fn lemma_add_symbols(symbols: Seq<Symbol>, new: Seq<Symbol>, from: int)
    requires
        0 <= from <= new.len(),
    ensures
        spec_add_symbols(symbols, new, from) matches Ok(added) ==> {
            &&& added == symbols + new.skip(from)
            &&& forall|a: int|
                from <= a < new.len() ==> !has_symbol(symbols, (#[trigger] new[a]).name)
            &&& forall|a: int, b: int|
                from <= a < b < new.len() ==> (#[trigger] new[a]).name != (#[trigger] new[b]).name
        },
    decreases new.len() - from,
{
    if let Ok(added) = spec_add_symbols(symbols, new, from) {
        if from < new.len() {
            let next = symbols.push(new[from]);
            lemma_add_symbols(next, new, from + 1);
            assert(next + new.skip(from + 1) =~= symbols + new.skip(from));
            assert forall|a: int| from <= a < new.len() implies !has_symbol(
                symbols,
                (#[trigger] new[a]).name,
            ) by {
                if a > from && has_symbol(symbols, new[a].name) {
                    let w = choose|w: int|
                        0 <= w < symbols.len() && (#[trigger] symbols[w]).name == new[a].name;
                    assert(next[w].name == new[a].name);
                }
            }
            assert forall|a: int, b: int| from <= a < b < new.len() implies (#[trigger] new[a]).name
                != (#[trigger] new[b]).name by {
                if a == from {
                    if new[a].name == new[b].name {
                        assert(next[symbols.len() as int].name == new[b].name);
                        assert(has_symbol(next, new[b].name));
                    }
                }
            }
        } else {
            assert(symbols + new.skip(from) =~= symbols);
        }
    }
}

} // verus!
