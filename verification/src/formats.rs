//! The linker's data model.
//!
//! An object file holds, with every integer little-endian and every name
//! filled with zero bytes to its width:
//!
//! ```text
//! header     num_sections: u32
//! section    name: 32 bytes, size: u32, num_parents: u32, num_references: u32
//! parent     name: 32 bytes, num_children: u32, offset: u32, visibility: u32
//! child      name: 32 bytes, offset: u32, visibility: u32
//! reference  referred: 64 bytes, offset: u32, which_byte: u16, branch: u16
//! payload    size bytes, filled to a multiple of four
//! ```
//!
//! Each parent is followed by its children, the labels by the references,
//! the references by the payload. A symbol table holds `num_symbols: u32`
//! and then, for each symbol, `name: 64 bytes, address: u32`.

use vstd::prelude::*;
use vstd::std_specs::cmp::{PartialEqSpecImpl, PartialOrdSpecImpl};

verus! {

/// Which byte of a label's address a reference asks for.
#[derive(Clone, Copy, PartialEq, Eq, Structural, Debug)]
pub enum ByteSelect {
    Both,
    High,
    Low,
}

/// From where a label may be referred to.
#[derive(Clone, Copy, PartialEq, Eq, Structural, Debug)]
pub enum Visibility {
    /// From its own scope only: between its parent and the next parent,
    /// in the same section of the same object.
    Hidden,
    /// From anywhere in its own object.
    Object,
    /// From any object.
    Global,
}

/// A label of a section, by its qualified name.
#[derive(Clone, Copy, PartialEq, Eq, Debug)]
pub struct Label {
    /// `parent` or `parent.child`.
    pub name: [u8; 64],
    pub vis: Visibility,
    /// Where in its section the label stands.
    pub offset: usize,
    /// Whether the label is a child.
    pub child: bool,
    /// Where in its section the label's scope starts: at its parent.
    pub scope_start: usize,
    /// Where the scope ends: at the next parent of the same object, or
    /// where the object's part of the section ends.
    pub scope_end: usize,
    /// The number of the input file that the label came from.
    pub object: usize,
}

/// A place in a section's code that waits for a label's address.
#[derive(Clone, Copy, PartialEq, Eq, Debug)]
pub struct Reference {
    /// The qualified name of the label.
    pub referred: [u8; 64],
    /// Where in its section the address goes.
    pub offset: usize,
    pub which_byte: ByteSelect,
    /// Whether the place is the operand of a branch.
    pub branch: bool,
    /// The number of the input file that the reference came from.
    pub object: usize,
}

impl Reference {
    /// The number of bytes that a patch of this reference writes.
    pub open spec fn spec_width(self) -> usize {
        if self.which_byte == ByteSelect::Both && !self.branch {
            2
        } else {
            1
        }
    }

    /// Tells the number of bytes that a patch of this reference writes.
    #[verifier::when_used_as_spec(spec_width)]
    pub fn width(self) -> (w: usize)
        ensures
            w == self.spec_width(),
    {
        if self.which_byte == ByteSelect::Both && !self.branch {
            2
        } else {
            1
        }
    }
}

/// The part of a section that one object gave.
#[derive(Clone, Copy, PartialEq, Eq, Debug)]
pub struct ObjectSpan {
    /// The number of the input file.
    pub object: usize,
    pub start: usize,
    pub end: usize,
}

/// A section, as read from one object or merged from several.
#[derive(Debug)]
pub struct Section {
    pub name: [u8; 32],
    pub code: Vec<u8>,
    pub labels: Vec<Label>,
    pub references: Vec<Reference>,
    /// The address of the section's first byte, once it is placed.
    pub base: usize,
    /// The objects that the section was taken from, in order.
    pub objects: Vec<ObjectSpan>,
}

/// A section as a mathematical value.
pub struct SectionView {
    pub name: [u8; 32],
    pub code: Seq<u8>,
    pub labels: Seq<Label>,
    pub references: Seq<Reference>,
    pub base: usize,
    pub objects: Seq<ObjectSpan>,
}

impl View for Section {
    type V = SectionView;

    open spec fn view(&self) -> SectionView {
        SectionView {
            name: self.name,
            code: self.code@,
            labels: self.labels@,
            references: self.references@,
            base: self.base,
            objects: self.objects@,
        }
    }
}

impl SectionView {
    /// The invariant of a section: its code is within the limit, no
    /// reference starts behind its end, and every label, scope and object
    /// part lies within it.
    pub open spec fn wf(self) -> bool {
        &&& self.code.len() <= 65536
        &&& forall|i: int|
            0 <= i < self.references.len() ==> (#[trigger] self.references[i]).offset
                <= self.code.len()
        &&& forall|i: int|
            0 <= i < self.labels.len() ==> {
                &&& (#[trigger] self.labels[i]).offset <= self.code.len()
                &&& self.labels[i].scope_start <= self.code.len()
                &&& self.labels[i].scope_end <= self.code.len()
            }
        &&& forall|i: int|
            0 <= i < self.objects.len() ==> (#[trigger] self.objects[i]).start
                <= self.objects[i].end <= self.code.len()
    }
}

impl Section {
    /// The number of code bytes.
    pub fn size(&self) -> (n: usize)
        ensures
            n == self@.code.len(),
    {
        self.code.len()
    }
}

/// The sections of a list as mathematical values.
pub open spec fn section_views(sections: Seq<Section>) -> Seq<SectionView> {
    Seq::new(sections.len(), |i: int| sections[i]@)
}

/// A name with the address that a symbol table gives it.
#[derive(Clone, Copy, PartialEq, Eq, Debug)]
pub struct Symbol {
    pub name: [u8; 64],
    pub address: usize,
}

/// The sections that one line of the linker script places together.
#[derive(Debug)]
pub struct RelocGroup {
    /// The names of the sections, in the order they are listed.
    pub relocations: Vec<[u8; 32]>,
    /// The address the line gave, or the address given last before it.
    pub address: usize,
    /// The most bytes the sections together may take, if the line says so.
    pub max_size: Option<usize>,
}

/// A relocation group as a mathematical value.
pub struct RelocGroupView {
    pub relocations: Seq<[u8; 32]>,
    pub address: usize,
    pub max_size: Option<usize>,
}

impl View for RelocGroup {
    type V = RelocGroupView;

    open spec fn view(&self) -> RelocGroupView {
        RelocGroupView {
            relocations: self.relocations@,
            address: self.address,
            max_size: self.max_size,
        }
    }
}

/// The groups of a list as mathematical values.
pub open spec fn group_views(groups: Seq<RelocGroup>) -> Seq<RelocGroupView> {
    Seq::new(groups.len(), |i: int| groups[i]@)
}

impl PartialEq for RelocGroup {
    /// Groups are equal when they start at the same address.
    fn eq(&self, other: &Self) -> (r: bool) {
        self.address == other.address
    }
}

impl PartialEqSpecImpl for RelocGroup {
    open spec fn obeys_eq_spec() -> bool {
        true
    }

    open spec fn eq_spec(&self, other: &Self) -> bool {
        self.address == other.address
    }
}

impl Eq for RelocGroup {

}

impl PartialOrd for RelocGroup {
    /// Groups are ordered by the address they start at.
    fn partial_cmp(&self, other: &Self) -> (r: Option<core::cmp::Ordering>) {
        if self.address < other.address {
            Some(core::cmp::Ordering::Less)
        } else if self.address > other.address {
            Some(core::cmp::Ordering::Greater)
        } else {
            Some(core::cmp::Ordering::Equal)
        }
    }
}

impl PartialOrdSpecImpl for RelocGroup {
    open spec fn obeys_partial_cmp_spec() -> bool {
        true
    }

    open spec fn partial_cmp_spec(&self, other: &Self) -> Option<core::cmp::Ordering> {
        if self.address < other.address {
            Some(core::cmp::Ordering::Less)
        } else if self.address > other.address {
            Some(core::cmp::Ordering::Greater)
        } else {
            Some(core::cmp::Ordering::Equal)
        }
    }
}

} // verus!
