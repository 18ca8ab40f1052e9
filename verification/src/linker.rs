//! Placing the merged sections and patching their references.

use crate::codec::{lemma_index_of, name64_eq, spec_index_of};
use crate::formats::{
    group_views, section_views, ByteSelect, Label, Reference, RelocGroup, RelocGroupView,
    Section, SectionView, Symbol, Visibility,
};
use crate::object::{
    find_section, read_objects, section_names, spec_read_objects, Input, InputView, ObjectError,
};
use crate::script::{read_script, spec_read_script, ScriptFailure};
use vstd::prelude::*;

verus! {

/// Why a link failed.
#[derive(Clone, Copy, PartialEq, Eq, Debug)]
pub enum LinkError {
    /// The name of an input file ends in neither `.65o` nor `.65s`.
    WrongExtension { file: usize },
    /// An input file does not hold what its extension says.
    BadFile { file: usize, error: ObjectError },
    /// The sections of one name are longer than 65536 bytes together.
    SectionTooLarge { section: [u8; 32] },
    /// A name comes twice in the symbol tables.
    DuplicateSymbol { name: [u8; 64] },
    /// The linker script was refused.
    Script { failure: ScriptFailure },
    /// The sections of a group are longer than the size its line allows.
    GroupTooLarge { group: usize },
    /// A section ends behind address 65535.
    AddressOverflow { group: usize },
    /// No label and no symbol has the name.
    Unresolved { name: [u8; 64] },
    /// Labels have the name, but none that is visible from the reference.
    NotVisible { name: [u8; 64] },
    /// The address of the label does not fit into 16 bits.
    AddressTooLarge { name: [u8; 64] },
    /// The branch target is further away than a signed byte can say.
    BranchOutOfRange { name: [u8; 64] },
    /// The bytes of the reference do not lie inside the code of its section.
    ReferenceOutside { name: [u8; 64] },
}

impl LinkError {
    /// The text that says what is wrong.
    pub open spec fn spec_message(self) -> Seq<char> {
        match self {
            LinkError::WrongExtension { .. } => "file has wrong extension"@,
            LinkError::BadFile { error, .. } => error.spec_message(),
            LinkError::SectionTooLarge { .. } => "section is too large"@,
            LinkError::DuplicateSymbol { .. } => "appears multiple times in the symbol tables"@,
            LinkError::Script { failure } => failure.error.spec_message(),
            LinkError::GroupTooLarge { .. } => "the sections of the group exceed its size"@,
            LinkError::AddressOverflow { .. } => "the group ends behind address 0xffff"@,
            LinkError::Unresolved { .. } => "label is not defined"@,
            LinkError::NotVisible { .. } => "label is not visible from where it is referred to"@,
            LinkError::AddressTooLarge { .. } => "the address does not fit into 16 bits"@,
            LinkError::BranchOutOfRange { .. } => "the branch to the label is out of range"@,
            LinkError::ReferenceOutside { .. } => "the reference does not lie inside its section"@,
        }
    }

    /// The text shown to the user for this error.
    pub fn message(self) -> (text: &'static str)
        ensures
            text@ == self.spec_message(),
    {
        match self {
            LinkError::WrongExtension { .. } => "file has wrong extension",
            LinkError::BadFile { error, .. } => error.message(),
            LinkError::SectionTooLarge { .. } => "section is too large",
            LinkError::DuplicateSymbol { .. } => "appears multiple times in the symbol tables",
            LinkError::Script { failure } => failure.error.message(),
            LinkError::GroupTooLarge { .. } => "the sections of the group exceed its size",
            LinkError::AddressOverflow { .. } => "the group ends behind address 0xffff",
            LinkError::Unresolved { .. } => "label is not defined",
            LinkError::NotVisible { .. } => "label is not visible from where it is referred to",
            LinkError::AddressTooLarge { .. } => "the address does not fit into 16 bits",
            LinkError::BranchOutOfRange { .. } => "the branch to the label is out of range",
            LinkError::ReferenceOutside { .. } => "the reference does not lie inside its section",
        }
    }
}

/// Where the placing of the sections stands.
pub struct Placing {
    /// The sections, those placed so far with their base addresses.
    pub sections: Seq<SectionView>,
    /// The numbers of the sections placed so far, in the order of the script.
    pub order: Seq<usize>,
    /// The address behind the section placed last.
    pub cursor: usize,
}

impl Placing {
    /// The placed section that comes `k`-th in the order of the script.
    pub open spec fn placed(self, k: int) -> SectionView {
        self.sections[self.order[k] as int]
    }

    /// The labels of the placed sections, with their addresses.
    pub open spec fn table(self) -> Seq<Entry> {
        spec_table(self.sections, self.order, self.order.len() as int)
    }

    /// The address behind section `i`.
    pub open spec fn end_of(self, i: int) -> int {
        self.sections[i].base + self.sections[i].code.len()
    }

    /// Every placed section exists and ends at or before address 65536.
    pub open spec fn wf(self) -> bool {
        &&& self.sections.len() <= usize::MAX
        &&& forall|i: int| 0 <= i < self.sections.len() ==> (#[trigger] self.sections[i]).wf()
        &&& forall|k: int|
            0 <= k < self.order.len() ==> (#[trigger] self.order[k]) < self.sections.len()
                && self.end_of(self.order[k] as int) <= 65536
    }
}

/// The placing after the names of a group from index `from` on: each
/// names a section that goes to the cursor, which moves behind it. A name
/// that no section has places nothing. No section may end behind address
/// 65536.
pub open spec fn spec_place_names(
    st: Placing,
    names: Seq<[u8; 32]>,
    from: int,
    group: usize,
) -> Result<Placing, LinkError>
    decreases names.len() - from,
{
    if from < 0 || from >= names.len() {
        Ok(st)
    } else {
        match spec_index_of(section_names(st.sections), names[from]) {
            None => spec_place_names(st, names, from + 1, group),
            Some(i) => if st.cursor + st.sections[i].code.len() > 65536 {
                Err(LinkError::AddressOverflow { group })
            } else {
                spec_place_names(
                    Placing {
                        sections: st.sections.update(
                            i,
                            SectionView { base: st.cursor, ..st.sections[i] },
                        ),
                        order: st.order.push(i as usize),
                        cursor: (st.cursor + st.sections[i].code.len()) as usize,
                    },
                    names,
                    from + 1,
                    group,
                )
            },
        }
    }
}

/// The placing after the groups from index `from` on, in the order of the
/// script. The sections of a group follow each other from the group's
/// address, and must not take more than the size that the group allows.
pub open spec fn spec_place_groups(st: Placing, groups: Seq<RelocGroupView>, from: int) -> Result<
    Placing,
    LinkError,
>
    decreases groups.len() - from,
{
    if from < 0 || from >= groups.len() {
        Ok(st)
    } else {
        let base = groups[from].address;
        match spec_place_names(
            Placing { cursor: base, ..st },
            groups[from].relocations,
            0,
            from as usize,
        ) {
            Err(e) => Err(e),
            Ok(next) => if groups[from].max_size matches Some(max) && next.cursor - base > max {
                Err(LinkError::GroupTooLarge { group: from as usize })
            } else {
                spec_place_groups(next, groups, from + 1)
            },
        }
    }
}

/// The placing that the sections, the order and the cursor make.
pub open spec fn placing_of(sections: Seq<Section>, order: Seq<usize>, cursor: usize) -> Placing {
    Placing { sections: section_views(sections), order, cursor }
}

fn place_names(
    sections: &mut Vec<Section>,
    order: &mut Vec<usize>,
    start: usize,
    names: &Vec<[u8; 32]>,
    group: usize,
) -> (r: Result<usize, LinkError>)
    requires
        placing_of(old(sections)@, old(order)@, start).wf(),
    ensures
        match spec_place_names(placing_of(old(sections)@, old(order)@, start), names@, 0, group) {
            Ok(st) => r is Ok && placing_of(final(sections)@, final(order)@, r->Ok_0) == st
                && st.wf(),
            Err(e) => r == Err::<usize, LinkError>(e),
        },
{
    let mut cursor = start;
    let mut k: usize = 0;
    let ghost first = placing_of(sections@, order@, cursor);
    while k < names.len()
        invariant
            k <= names@.len(),
            first == placing_of(old(sections)@, old(order)@, start),
            placing_of(sections@, order@, cursor).wf(),
            spec_place_names(placing_of(sections@, order@, cursor), names@, k as int, group)
                == spec_place_names(first, names@, 0, group),
        decreases names@.len() - k,
    {
        match find_section(sections, &names[k]) {
            None => {},
            Some(i) => {
                let size = sections[i].code.len();
                assert(section_views(sections@)[i as int].wf());
                if cursor > 65536 || size > 65536 - cursor {
                    return Err(LinkError::AddressOverflow { group });
                }
                let ghost before = placing_of(sections@, order@, cursor);
                sections[i].base = cursor;
                order.push(i);
                cursor = cursor + size;
                proof {
                    let after = placing_of(sections@, order@, cursor);
                    assert(after.sections =~= before.sections.update(
                        i as int,
                        SectionView { base: before.cursor, ..before.sections[i as int] },
                    ));
                    assert forall|j: int| 0 <= j < after.sections.len() implies (
                    #[trigger] after.sections[j]).wf() by {
                        assert(before.sections[j].wf());
                    }
                    assert forall|j: int| 0 <= j < after.order.len() implies (
                    #[trigger] after.order[j]) < after.sections.len()
                        && after.sections[after.order[j] as int].base
                        + after.sections[after.order[j] as int].code.len() <= 65536 by {
                        if j < before.order.len() {
                            assert(before.order[j] == after.order[j]);
                        }
                    }
                }
            },
        }
        k += 1;
    }
    Ok(cursor)
}

fn place_groups(sections: &mut Vec<Section>, groups: &Vec<RelocGroup>) -> (r: Result<
    Vec<usize>,
    LinkError,
>)
    requires
        forall|i: int| 0 <= i < old(sections)@.len() ==> (#[trigger] old(sections)@[i])@.wf(),
    ensures
        match spec_place_groups(
            placing_of(old(sections)@, Seq::empty(), 0),
            group_views(groups@),
            0,
        ) {
            Ok(st) => r is Ok && section_views(final(sections)@) == st.sections && r->Ok_0@
                == st.order && st.wf(),
            Err(e) => r == Err::<Vec<usize>, LinkError>(e),
        },
{
    let mut order: Vec<usize> = Vec::new();
    let mut cursor: usize = 0;
    let mut g: usize = 0;
    let count = sections.len();
    assert(sections@.len() == count);
    let ghost first = placing_of(sections@, Seq::empty(), 0);
    assert forall|i: int| 0 <= i < sections@.len() implies (#[trigger] section_views(
        sections@,
    )[i]).wf() by {
        assert(sections@[i]@.wf());
    }
    while g < groups.len()
        invariant
            g <= groups@.len(),
            first == placing_of(old(sections)@, Seq::empty(), 0),
            placing_of(sections@, order@, cursor).wf(),
            spec_place_groups(placing_of(sections@, order@, cursor), group_views(groups@), g as int)
                == spec_place_groups(first, group_views(groups@), 0),
        decreases groups@.len() - g,
    {
        let group = &groups[g];
        assert(group_views(groups@)[g as int] == group@);
        let base = group.address;
        proof {
            lemma_place_names_cursor(
                placing_of(sections@, order@, base),
                group.relocations@,
                0,
                g,
            );
        }
        let end = place_names(sections, &mut order, base, &group.relocations, g)?;
        match group.max_size {
            Some(max) => {
                if end - base > max {
                    return Err(LinkError::GroupTooLarge { group: g });
                }
            },
            None => {},
        }
        cursor = end;
        g += 1;
    }
    Ok(order)
}

/// The placing never moves the cursor back within a group.
pub proof fn lemma_place_names_cursor(st: Placing, names: Seq<[u8; 32]>, from: int, group: usize)
    ensures
        spec_place_names(st, names, from, group) matches Ok(next) ==> next.cursor >= st.cursor,
    decreases names.len() - from,
{
    if 0 <= from < names.len() {
        match spec_index_of(section_names(st.sections), names[from]) {
            None => lemma_place_names_cursor(st, names, from + 1, group),
            Some(i) => if st.cursor + st.sections[i].code.len() <= 65536 {
                lemma_place_names_cursor(
                    Placing {
                        sections: st.sections.update(
                            i,
                            SectionView { base: st.cursor, ..st.sections[i] },
                        ),
                        order: st.order.push(i as usize),
                        cursor: (st.cursor + st.sections[i].code.len()) as usize,
                    },
                    names,
                    from + 1,
                    group,
                );
            },
        }
    }
}

/// A label of a placed section, with its address.
#[derive(Clone, Copy, PartialEq, Eq, Debug)]
pub struct Entry {
    pub name: [u8; 64],
    pub address: usize,
    pub vis: Visibility,
    /// The number of the input file that the label came from.
    pub object: usize,
    /// The number of the section that the label stands in.
    pub section: usize,
    pub scope_start: usize,
    pub scope_end: usize,
}

/// The entry of a label in a section at `base`.
pub open spec fn entry_of(l: Label, base: usize, section: usize) -> Entry {
    Entry {
        name: l.name,
        address: (base + l.offset) as usize,
        vis: l.vis,
        object: l.object,
        section,
        scope_start: l.scope_start,
        scope_end: l.scope_end,
    }
}

/// The entries of the first `k` labels of a section.
pub open spec fn spec_entries(s: SectionView, section: usize, k: int) -> Seq<Entry> {
    Seq::new(k as nat, |i: int| entry_of(s.labels[i], s.base, section))
}

/// The entries of the first `k` placed sections, in the order of the
/// script, each section's labels in their order.
pub open spec fn spec_table(sections: Seq<SectionView>, order: Seq<usize>, k: int) -> Seq<Entry>
    decreases k,
{
    if k <= 0 {
        Seq::empty()
    } else {
        spec_table(sections, order, k - 1) + spec_entries(
            sections[order[k - 1] as int],
            order[k - 1],
            sections[order[k - 1] as int].labels.len() as int,
        )
    }
}

fn build_table(sections: &Vec<Section>, order: &Vec<usize>) -> (table: Vec<Entry>)
    requires
        placing_of(sections@, order@, 0).wf(),
    ensures
        table@ == spec_table(section_views(sections@), order@, order@.len() as int),
{
    let mut table: Vec<Entry> = Vec::new();
    let mut k: usize = 0;
    while k < order.len()
        invariant
            k <= order@.len(),
            placing_of(sections@, order@, 0).wf(),
            table@ == spec_table(section_views(sections@), order@, k as int),
        decreases order@.len() - k,
    {
        let index = order[k];
        let ghost p = placing_of(sections@, order@, 0);
        assert(p.order[k as int] < p.sections.len());
        assert(p.sections[index as int].wf());
        let s = &sections[index];
        let ghost before = table@;
        let mut i: usize = 0;
        while i < s.labels.len()
            invariant
                i <= s.labels@.len(),
                s@.wf(),
                s.base + s@.code.len() <= 65536,
                table@ == before + spec_entries(s@, index, i as int),
            decreases s.labels@.len() - i,
        {
            let l = s.labels[i];
            assert(s@.labels[i as int].offset <= s@.code.len());
            table.push(
                Entry {
                    name: l.name,
                    address: s.base + l.offset,
                    vis: l.vis,
                    object: l.object,
                    section: index,
                    scope_start: l.scope_start,
                    scope_end: l.scope_end,
                },
            );
            i += 1;
            assert(table@ =~= before + spec_entries(s@, index, i as int));
        }
        k += 1;
    }
    table
}

/// Whether a label may be referred to from a reference that stands in the
/// section with the given number. A global label may be from anywhere, an
/// object's label from its own object, and a hidden label from its own
/// scope: the same object, the same section, and an offset from the
/// label's parent up to the next parent.
pub open spec fn spec_visible(e: Entry, r: Reference, section: usize) -> bool {
    match e.vis {
        Visibility::Global => true,
        Visibility::Object => e.object == r.object,
        Visibility::Hidden => e.object == r.object && e.section == section && e.scope_start
            <= r.offset < e.scope_end,
    }
}

/// Decides whether a label may be referred to from a reference.
#[verifier::when_used_as_spec(spec_visible)]
pub fn visible(e: Entry, r: Reference, section: usize) -> (v: bool)
    ensures
        v == spec_visible(e, r, section),
{
    match e.vis {
        Visibility::Global => true,
        Visibility::Object => e.object == r.object,
        Visibility::Hidden => e.object == r.object && e.section == section && e.scope_start
            <= r.offset && r.offset < e.scope_end,
    }
}

/// The index of the first entry that has the name of the reference and is
/// visible from it.
pub open spec fn spec_first_visible(table: Seq<Entry>, r: Reference, section: usize) -> Option<int>
    decreases table.len(),
{
    if table.len() == 0 {
        None
    } else {
        match spec_first_visible(table.drop_last(), r, section) {
            Some(i) => Some(i),
            None => if table.last().name == r.referred && spec_visible(table.last(), r, section) {
                Some(table.len() - 1)
            } else {
                None
            },
        }
    }
}

/// What `spec_first_visible` finds: the first entry of that name that is
/// visible, or nothing where no entry of that name is visible.
pub proof fn lemma_first_visible(table: Seq<Entry>, r: Reference, section: usize)
    ensures
        match spec_first_visible(table, r, section) {
            Some(i) => 0 <= i < table.len() && table[i].name == r.referred && spec_visible(
                table[i],
                r,
                section,
            ) && forall|j: int|
                0 <= j < i ==> !((#[trigger] table[j]).name == r.referred && spec_visible(
                    table[j],
                    r,
                    section,
                )),
            None => forall|j: int|
                0 <= j < table.len() ==> !((#[trigger] table[j]).name == r.referred
                    && spec_visible(table[j], r, section)),
        },
    decreases table.len(),
{
    if table.len() > 0 {
        lemma_first_visible(table.drop_last(), r, section);
        assert(forall|j: int| 0 <= j < table.len() - 1 ==> table[j] == table.drop_last()[j]);
    }
}

/// Whether an entry has the name.
pub open spec fn has_entry(table: Seq<Entry>, name: [u8; 64]) -> bool {
    exists|i: int| 0 <= i < table.len() && (#[trigger] table[i]).name == name
}

/// The address that the first symbol of the name has.
pub open spec fn spec_symbol_address(symbols: Seq<Symbol>, name: [u8; 64]) -> Option<usize>
    decreases symbols.len(),
{
    if symbols.len() == 0 {
        None
    } else {
        match spec_symbol_address(symbols.drop_last(), name) {
            Some(a) => Some(a),
            None => if symbols.last().name == name {
                Some(symbols.last().address)
            } else {
                None
            },
        }
    }
}

/// What `spec_symbol_address` finds: the address of the first symbol of
/// the name, or nothing where no symbol has it.
pub proof fn lemma_symbol_address(symbols: Seq<Symbol>, name: [u8; 64])
    ensures
        match spec_symbol_address(symbols, name) {
            Some(a) => exists|i: int|
                0 <= i < symbols.len() && (#[trigger] symbols[i]).name == name && symbols[i].address
                    == a && forall|j: int| 0 <= j < i ==> (#[trigger] symbols[j]).name != name,
            None => forall|j: int| 0 <= j < symbols.len() ==> (#[trigger] symbols[j]).name != name,
        },
    decreases symbols.len(),
{
    if symbols.len() > 0 {
        lemma_symbol_address(symbols.drop_last(), name);
        assert(forall|j: int| 0 <= j < symbols.len() - 1 ==> symbols[j] == symbols.drop_last()[j]);
        match spec_symbol_address(symbols.drop_last(), name) {
            Some(a) => {
                let i = choose|i: int|
                    0 <= i < symbols.drop_last().len() && (#[trigger] symbols.drop_last()[i]).name
                        == name && symbols.drop_last()[i].address == a && forall|j: int|
                        0 <= j < i ==> (#[trigger] symbols.drop_last()[j]).name != name;
                assert(symbols[i].name == name);
            },
            None => {
                if symbols.last().name == name {
                    assert(symbols[symbols.len() - 1].name == name);
                }
            },
        }
    }
}

/// The address that a reference resolves to: that of the first label of
/// its name that is visible from it. Where labels of the name exist and
/// none is visible from it, the reference fails. Where no label has the
/// name, it resolves to the symbol of that name, and is unresolved if
/// there is none.
pub open spec fn spec_resolve(
    table: Seq<Entry>,
    symbols: Seq<Symbol>,
    r: Reference,
    section: usize,
) -> Result<usize, LinkError> {
    match spec_first_visible(table, r, section) {
        Some(i) => Ok(table[i].address),
        None => if has_entry(table, r.referred) {
            Err(LinkError::NotVisible { name: r.referred })
        } else {
            match spec_symbol_address(symbols, r.referred) {
                Some(a) => Ok(a),
                None => Err(LinkError::Unresolved { name: r.referred }),
            }
        },
    }
}

/// Resolves a reference that stands in the section with the given number.
pub fn resolve(table: &Vec<Entry>, symbols: &Vec<Symbol>, r: &Reference, section: usize) -> (res:
    Result<usize, LinkError>)
    ensures
        res == spec_resolve(table@, symbols@, *r, section),
{
    let mut named = false;
    let mut i: usize = 0;
    while i < table.len()
        invariant
            i <= table@.len(),
            named == has_entry(table@.take(i as int), r.referred),
            forall|j: int|
                0 <= j < i ==> !((#[trigger] table@[j]).name == r.referred && spec_visible(
                    table@[j],
                    *r,
                    section,
                )),
        decreases table@.len() - i,
    {
        let e = table[i];
        if name64_eq(&e.name, &r.referred) {
            if visible(e, *r, section) {
                proof {
                    lemma_first_visible(table@, *r, section);
                }
                return Ok(e.address);
            }
            named = true;
            assert(table@.take(i + 1)[i as int].name == r.referred);
        } else {
            proof {
                if has_entry(table@.take(i + 1), r.referred) {
                    let w = choose|w: int|
                        0 <= w < table@.take(i + 1).len() && (#[trigger] table@.take(
                            i + 1,
                        )[w]).name == r.referred;
                    assert(table@.take(i as int)[w].name == r.referred);
                }
                if has_entry(table@.take(i as int), r.referred) {
                    let w = choose|w: int|
                        0 <= w < table@.take(i as int).len() && (#[trigger] table@.take(
                            i as int,
                        )[w]).name == r.referred;
                    assert(table@.take(i + 1)[w].name == r.referred);
                }
            }
        }
        i += 1;
    }
    proof {
        assert(table@.take(i as int) =~= table@);
        lemma_first_visible(table@, *r, section);
        lemma_symbol_address(symbols@, r.referred);
    }
    if named {
        return Err(LinkError::NotVisible { name: r.referred });
    }
    let mut k: usize = 0;
    while k < symbols.len()
        invariant
            k <= symbols@.len(),
            !has_entry(table@, r.referred),
            spec_first_visible(table@, *r, section) is None,
            forall|j: int| 0 <= j < k ==> (#[trigger] symbols@[j]).name != r.referred,
        decreases symbols@.len() - k,
    {
        let s = symbols[k];
        if name64_eq(&s.name, &r.referred) {
            proof {
                lemma_symbol_address(symbols@, r.referred);
                assert(symbols@[k as int].name == r.referred);
            }
            return Ok(s.address);
        }
        k += 1;
    }
    proof {
        lemma_symbol_address(symbols@, r.referred);
    }
    Err(LinkError::Unresolved { name: r.referred })
}

/// The bytes that a patch writes for a reference at address `at` whose
/// label is at address `target`. A branch gets the distance from the
/// byte behind the operand to the target as a signed byte. Any other
/// reference gets the address, which must fit into 16 bits: both bytes,
/// low byte first, or the byte that it selects.
pub open spec fn spec_patch(r: Reference, target: usize, at: usize) -> Result<Seq<u8>, LinkError> {
    if r.branch {
        let distance = target - (at + 1);
        if -128 <= distance <= 127 {
            Ok(
                seq![
                    if distance < 0 {
                        (distance + 256) as u8
                    } else {
                        distance as u8
                    },
                ],
            )
        } else {
            Err(LinkError::BranchOutOfRange { name: r.referred })
        }
    } else if target > 0xffff {
        Err(LinkError::AddressTooLarge { name: r.referred })
    } else {
        Ok(
            match r.which_byte {
                ByteSelect::Both => seq![(target % 256) as u8, (target / 256) as u8],
                ByteSelect::High => seq![(target / 256) as u8],
                ByteSelect::Low => seq![(target % 256) as u8],
            },
        )
    }
}

/// Computes the bytes that a patch writes.
pub fn patch(r: &Reference, target: usize, at: usize) -> (res: Result<Vec<u8>, LinkError>)
    requires
        at < usize::MAX,
    ensures
        match spec_patch(*r, target, at) {
            Ok(bytes) => res is Ok && res->Ok_0@ == bytes && bytes.len() == r.spec_width(),
            Err(e) => res == Err::<Vec<u8>, LinkError>(e),
        },
{
    let mut bytes: Vec<u8> = Vec::new();
    if r.branch {
        let next = at + 1;
        if target >= next {
            if target - next > 127 {
                return Err(LinkError::BranchOutOfRange { name: r.referred });
            }
            bytes.push((target - next) as u8);
        } else {
            if next - target > 128 {
                return Err(LinkError::BranchOutOfRange { name: r.referred });
            }
            bytes.push((256 - (next - target)) as u8);
        }
    } else {
        if target > 0xffff {
            return Err(LinkError::AddressTooLarge { name: r.referred });
        }
        match r.which_byte {
            ByteSelect::Both => {
                bytes.push((target % 256) as u8);
                bytes.push((target / 256) as u8);
            },
            ByteSelect::High => {
                bytes.push((target / 256) as u8);
            },
            ByteSelect::Low => {
                bytes.push((target % 256) as u8);
            },
        }
    }
    assert(bytes@ =~= spec_patch(*r, target, at)->Ok_0);
    Ok(bytes)
}

/// `base` with `bytes` written over it from index `at` on.
pub open spec fn overlay(base: Seq<u8>, at: int, bytes: Seq<u8>) -> Seq<u8> {
    Seq::new(
        base.len(),
        |i: int|
            if at <= i < at + bytes.len() {
                bytes[i - at]
            } else {
                base[i]
            },
    )
}

fn write_over(out: &mut Vec<u8>, at: usize, bytes: &Vec<u8>)
    requires
        at + bytes@.len() <= old(out)@.len(),
    ensures
        final(out)@ == overlay(old(out)@, at as int, bytes@),
{
    let len = out.len();
    let mut i: usize = 0;
    while i < bytes.len()
        invariant
            i <= bytes@.len(),
            at + bytes@.len() <= out@.len() == len,
            out@ == overlay(old(out)@, at as int, bytes@.take(i as int)),
        decreases bytes@.len() - i,
    {
        out[at + i] = bytes[i];
        i += 1;
        assert(out@ =~= overlay(old(out)@, at as int, bytes@.take(i as int)));
    }
    assert(bytes@.take(i as int) =~= bytes@);
}

/// The code of a section with its references from index `from` on
/// patched, in their order. Each is resolved, its patch is computed, and
/// the patch must lie inside the code. The first that fails ends the
/// patching.
pub open spec fn spec_patch_all(
    code: Seq<u8>,
    s: SectionView,
    section: usize,
    table: Seq<Entry>,
    symbols: Seq<Symbol>,
    from: int,
) -> Result<Seq<u8>, LinkError>
    decreases s.references.len() - from,
{
    if from < 0 || from >= s.references.len() {
        Ok(code)
    } else {
        let r = s.references[from];
        match spec_resolve(table, symbols, r, section) {
            Err(e) => Err(e),
            Ok(target) => match spec_patch(r, target, (s.base + r.offset) as usize) {
                Err(e) => Err(e),
                Ok(bytes) => if r.offset + bytes.len() > code.len() {
                    Err(LinkError::ReferenceOutside { name: r.referred })
                } else {
                    spec_patch_all(
                        overlay(code, r.offset as int, bytes),
                        s,
                        section,
                        table,
                        symbols,
                        from + 1,
                    )
                },
            },
        }
    }
}

fn patch_all(s: &Section, section: usize, table: &Vec<Entry>, symbols: &Vec<Symbol>) -> (r: Result<
    Vec<u8>,
    LinkError,
>)
    requires
        s@.wf(),
        s.base <= 65536,
    ensures
        match spec_patch_all(s@.code, s@, section, table@, symbols@, 0) {
            Ok(code) => r is Ok && r->Ok_0@ == code && code.len() == s@.code.len(),
            Err(e) => r == Err::<Vec<u8>, LinkError>(e),
        },
{
    let mut code = vstd::slice::slice_to_vec(s.code.as_slice());
    let mut i: usize = 0;
    while i < s.references.len()
        invariant
            i <= s.references@.len(),
            s@.wf(),
            s.base <= 65536,
            code@.len() == s@.code.len(),
            spec_patch_all(code@, s@, section, table@, symbols@, i as int) == spec_patch_all(
                s@.code,
                s@,
                section,
                table@,
                symbols@,
                0,
            ),
        decreases s.references@.len() - i,
    {
        let r = s.references[i];
        assert(s@.references[i as int].offset <= s@.code.len());
        let target = resolve(table, symbols, &r, section)?;
        let bytes = patch(&r, target, s.base + r.offset)?;
        if code.len() - r.offset < bytes.len() {
            return Err(LinkError::ReferenceOutside { name: r.referred });
        }
        write_over(&mut code, r.offset, &bytes);
        i += 1;
    }
    Ok(code)
}

/// The lowest base address among the first `k` placed sections; 65536
/// where there is none.
pub open spec fn spec_low(sections: Seq<SectionView>, order: Seq<usize>, k: int) -> usize
    decreases k,
{
    if k <= 0 {
        65536
    } else {
        let base = sections[order[k - 1] as int].base;
        let rest = spec_low(sections, order, k - 1);
        if base < rest {
            base
        } else {
            rest
        }
    }
}

/// The highest end address among the first `k` placed sections; 0 where
/// there is none.
pub open spec fn spec_high(sections: Seq<SectionView>, order: Seq<usize>, k: int) -> usize
    decreases k,
{
    if k <= 0 {
        0
    } else {
        let s = sections[order[k - 1] as int];
        let end = (s.base + s.code.len()) as usize;
        let rest = spec_high(sections, order, k - 1);
        if end > rest {
            end
        } else {
            rest
        }
    }
}

/// The lowest base is at most every base, and the highest end at least
/// every end.
pub proof fn lemma_extent(sections: Seq<SectionView>, order: Seq<usize>, k: int)
    requires
        0 <= k <= order.len(),
        (Placing { sections, order, cursor: 0 }).wf(),
    ensures
        spec_low(sections, order, k) <= 65536,
        spec_high(sections, order, k) <= 65536,
        k > 0 ==> spec_low(sections, order, k) <= spec_high(sections, order, k),
        forall|j: int|
            0 <= j < k ==> {
                let s = sections[(#[trigger] order[j]) as int];
                spec_low(sections, order, k) <= s.base && s.base + s.code.len() <= spec_high(
                    sections,
                    order,
                    k,
                )
            },
    decreases k,
{
    if k > 0 {
        lemma_extent(sections, order, k - 1);
        let p = Placing { sections, order, cursor: 0 };
        assert(p.order[k - 1] < p.sections.len());
    }
}

fn extent(sections: &Vec<Section>, order: &Vec<usize>) -> (r: (usize, usize))
    requires
        placing_of(sections@, order@, 0).wf(),
    ensures
        r.0 == spec_low(section_views(sections@), order@, order@.len() as int),
        r.1 == spec_high(section_views(sections@), order@, order@.len() as int),
{
    let mut low: usize = 65536;
    let mut high: usize = 0;
    let mut k: usize = 0;
    while k < order.len()
        invariant
            k <= order@.len(),
            placing_of(sections@, order@, 0).wf(),
            low == spec_low(section_views(sections@), order@, k as int),
            high == spec_high(section_views(sections@), order@, k as int),
        decreases order@.len() - k,
    {
        let ghost p = placing_of(sections@, order@, 0);
        assert(p.order[k as int] < p.sections.len());
        let s = &sections[order[k]];
        assert(p.sections[order@[k as int] as int] == s@);
        if s.base < low {
            low = s.base;
        }
        if s.base + s.code.len() > high {
            high = s.base + s.code.len();
        }
        k += 1;
    }
    (low, high)
}

/// The image with the placed sections from index `from` of the order on
/// written over it, each with its references patched. A section that
/// comes later in the script overwrites what lies under it.
pub open spec fn spec_compose(
    image: Seq<u8>,
    origin: usize,
    sections: Seq<SectionView>,
    order: Seq<usize>,
    table: Seq<Entry>,
    symbols: Seq<Symbol>,
    from: int,
) -> Result<Seq<u8>, LinkError>
    decreases order.len() - from,
{
    if from < 0 || from >= order.len() {
        Ok(image)
    } else {
        let s = sections[order[from] as int];
        match spec_patch_all(s.code, s, order[from], table, symbols, 0) {
            Err(e) => Err(e),
            Ok(code) => spec_compose(
                overlay(image, s.base - origin, code),
                origin,
                sections,
                order,
                table,
                symbols,
                from + 1,
            ),
        }
    }
}

/// The global labels among the first `k` entries, as symbols.
pub open spec fn spec_globals(table: Seq<Entry>, k: int) -> Seq<Symbol>
    decreases k,
{
    if k <= 0 {
        Seq::empty()
    } else if table[k - 1].vis == Visibility::Global {
        spec_globals(table, k - 1).push(
            Symbol { name: table[k - 1].name, address: table[k - 1].address },
        )
    } else {
        spec_globals(table, k - 1)
    }
}

fn globals(table: &Vec<Entry>) -> (symbols: Vec<Symbol>)
    ensures
        symbols@ == spec_globals(table@, table@.len() as int),
{
    let mut symbols: Vec<Symbol> = Vec::new();
    let mut k: usize = 0;
    while k < table.len()
        invariant
            k <= table@.len(),
            symbols@ == spec_globals(table@, k as int),
        decreases table@.len() - k,
    {
        let e = table[k];
        match e.vis {
            Visibility::Global => symbols.push(Symbol { name: e.name, address: e.address }),
            _ => {},
        }
        k += 1;
    }
    symbols
}

/// A linked program: a flat image of the memory from `origin` on, and the
/// global labels with their addresses.
#[derive(Debug)]
pub struct Image {
    /// The address of the image's first byte: the lowest base address.
    pub origin: usize,
    pub bytes: Vec<u8>,
    pub symbols: Vec<Symbol>,
}

/// A linked program as a mathematical value.
pub struct ImageView {
    pub origin: usize,
    pub bytes: Seq<u8>,
    pub symbols: Seq<Symbol>,
}

impl View for Image {
    type V = ImageView;

    open spec fn view(&self) -> ImageView {
        ImageView { origin: self.origin, bytes: self.bytes@, symbols: self.symbols@ }
    }
}

/// What a link works on: the groups of the script, the merged sections,
/// and the symbols of the symbol tables. Every section is well formed.
#[derive(Debug)]
pub struct Linker {
    relocations: Vec<RelocGroup>,
    sections: Vec<Section>,
    symbols: Vec<Symbol>,
}

/// A linker as a mathematical value.
pub struct LinkerView {
    pub relocations: Seq<RelocGroupView>,
    pub sections: Seq<SectionView>,
    pub symbols: Seq<Symbol>,
}

impl LinkerView {
    /// Every section is well formed, and their number is one that a
    /// machine can count.
    pub open spec fn wf(self) -> bool {
        &&& self.sections.len() <= usize::MAX
        &&& forall|i: int| 0 <= i < self.sections.len() ==> (#[trigger] self.sections[i]).wf()
    }
}

impl View for Linker {
    type V = LinkerView;

    closed spec fn view(&self) -> LinkerView {
        LinkerView {
            relocations: group_views(self.relocations@),
            sections: section_views(self.sections@),
            symbols: self.symbols@,
        }
    }
}

/// The linker that the input files and the script give: the files are
/// read and merged first, then the script is read.
pub open spec fn spec_new(script: Seq<u8>, files: Seq<InputView>) -> Result<LinkerView, LinkError> {
    match spec_read_objects(files) {
        Err(e) => Err(e),
        Ok(m) => match spec_read_script(script) {
            Err(failure) => Err(LinkError::Script { failure }),
            Ok(groups) => Ok(
                LinkerView { relocations: groups, sections: m.sections, symbols: m.symbols },
            ),
        },
    }
}

/// The placing of the sections of a linker by its script.
pub open spec fn spec_placed(l: LinkerView) -> Result<Placing, LinkError> {
    spec_place_groups(
        Placing { sections: l.sections, order: Seq::empty(), cursor: 0 },
        l.relocations,
        0,
    )
}

/// The image that a link gives. The groups are placed in the order of
/// the script, each at its address; the image reaches from the lowest base address to the
/// highest end and is zero where no section lies; every reference of a
/// placed section is resolved against the labels of the placed sections
/// and the symbols, and patched.
pub open spec fn spec_link(l: LinkerView) -> Result<ImageView, LinkError> {
    match spec_placed(l) {
        Err(e) => Err(e),
        Ok(placed) => {
            let count = placed.order.len() as int;
            let table = placed.table();
            let low = spec_low(placed.sections, placed.order, count);
            let high = spec_high(placed.sections, placed.order, count);
            let (origin, size) = if count == 0 {
                (0usize, 0int)
            } else {
                (low, high - low)
            };
            match spec_compose(
                Seq::new(size as nat, |i: int| 0u8),
                origin,
                placed.sections,
                placed.order,
                table,
                l.symbols,
                0,
            ) {
                Err(e) => Err(e),
                Ok(bytes) => Ok(
                    ImageView { origin, bytes, symbols: spec_globals(table, table.len() as int) },
                ),
            }
        },
    }
}

impl Linker {
    #[verifier::type_invariant]
    spec fn well_formed(self) -> bool {
        self@.wf()
    }

    /// Reads the input files and the script.
    pub fn new(script: &[u8], files: &Vec<Input>) -> (r: Result<Linker, LinkError>)
        ensures
            match spec_new(script@, crate::object::input_views(files@)) {
                Ok(l) => r is Ok && r->Ok_0@ == l && l.wf(),
                Err(e) => r == Err::<Linker, LinkError>(e),
            },
    {
        let (sections, symbols) = read_objects(files)?;
        let relocations = match read_script(script) {
            Err(failure) => return Err(LinkError::Script { failure }),
            Ok(relocations) => relocations,
        };
        let count = sections.len();
        assert(section_views(sections@).len() == count);
        Ok(Linker { relocations, sections, symbols })
    }

    /// Places the sections, patches their references and gives the image.
    pub fn link(self) -> (r: Result<Image, LinkError>)
        ensures
            match spec_link(self@) {
                Ok(image) => r is Ok && r->Ok_0@ == image,
                Err(e) => r == Err::<Image, LinkError>(e),
            },
    {
        proof {
            use_type_invariant(&self);
        }
        let mut sections = self.sections;
        assert forall|i: int| 0 <= i < sections@.len() implies (#[trigger] sections@[i])@.wf() by {
            assert(self@.sections[i].wf());
        }
        let order = place_groups(&mut sections, &self.relocations)?;
        let ghost views = section_views(sections@);
        let table = build_table(&sections, &order);
        let (low, high) = extent(&sections, &order);
        proof {
            lemma_extent(views, order@, order@.len() as int);
        }
        let (origin, size) = if order.len() == 0 {
            (0, 0)
        } else {
            (low, high - low)
        };
        let mut bytes: Vec<u8> = Vec::new();
        crate::codec::push_zeros(&mut bytes, size);
        assert(bytes@ =~= Seq::new(size as nat, |i: int| 0u8));
        let ghost blank = bytes@;
        let ghost composed = spec_compose(blank, origin, views, order@, table@, self.symbols@, 0);
        assert(spec_link(self@) == match composed {
            Err(e) => Err::<ImageView, LinkError>(e),
            Ok(bytes) => Ok(
                ImageView { origin, bytes, symbols: spec_globals(table@, table@.len() as int) },
            ),
        });
        let mut k: usize = 0;
        while k < order.len()
            invariant
                k <= order@.len(),
                composed == spec_compose(blank, origin, views, order@, table@, self.symbols@, 0),
                spec_link(self@) == match composed {
                    Err(e) => Err::<ImageView, LinkError>(e),
                    Ok(bytes) => Ok(
                        ImageView {
                            origin,
                            bytes,
                            symbols: spec_globals(table@, table@.len() as int),
                        },
                    ),
                },
                views == section_views(sections@),
                placing_of(sections@, order@, 0).wf(),
                bytes@.len() == size,
                order@.len() > 0 ==> origin == low && size == high - low,
                low == spec_low(views, order@, order@.len() as int),
                high == spec_high(views, order@, order@.len() as int),
                spec_compose(bytes@, origin, views, order@, table@, self.symbols@, k as int)
                    == spec_compose(blank, origin, views, order@, table@, self.symbols@, 0),
            decreases order@.len() - k,
        {
            let index = order[k];
            proof {
                lemma_extent(views, order@, order@.len() as int);
                let p = placing_of(sections@, order@, 0);
                assert(p.order[k as int] < p.sections.len());
                assert(p.sections[index as int].wf());
            }
            let s = &sections[index];
            let code = patch_all(s, index, &table, &self.symbols)?;
            write_over(&mut bytes, s.base - origin, &code);
            k += 1;
        }
        Ok(Image { origin, bytes, symbols: globals(&table) })
    }
}

/// The number that a byte stands for as a signed byte.
pub open spec fn signed(b: u8) -> int {
    if b >= 128 {
        b - 256
    } else {
        b as int
    }
}

/// A branch is patched exactly if its target is at most 127 bytes ahead
/// of the byte behind the operand or at most 128 bytes before it; the
/// byte written is then that distance as a signed byte. Any other
/// distance is a range error.
pub proof fn lemma_branch_range(r: Reference, target: usize, at: usize)
    requires
        r.branch,
    ensures
        spec_patch(r, target, at) is Ok <==> -128 <= target - (at + 1) <= 127,
        spec_patch(r, target, at) matches Ok(bytes) ==> bytes.len() == 1 && signed(bytes[0])
            == target - (at + 1),
        spec_patch(r, target, at) matches Err(e) ==> e == (LinkError::BranchOutOfRange {
            name: r.referred,
        }),
{
}

/// A reference whose name only hidden labels have, none of them with
/// the reference in its scope, fails to resolve although the name
/// exists, whatever the symbol tables hold.
pub proof fn lemma_hidden_outside_scope(
    table: Seq<Entry>,
    symbols: Seq<Symbol>,
    r: Reference,
    section: usize,
)
    requires
        has_entry(table, r.referred),
        forall|i: int|
            0 <= i < table.len() && (#[trigger] table[i]).name == r.referred ==> table[i].vis
                == Visibility::Hidden && !(table[i].object == r.object && table[i].section
                == section && table[i].scope_start <= r.offset < table[i].scope_end),
    ensures
        spec_resolve(table, symbols, r, section) == Err::<usize, LinkError>(
            LinkError::NotVisible { name: r.referred },
        ),
{
    lemma_first_visible(table, r, section);
}

/// A reference resolves to the first label of its name that is visible
/// from it. So a hidden label that is the only one of its name resolves
/// exactly the references of its object and section whose offsets lie
/// from its parent up to the next parent.
pub proof fn lemma_first_visible_resolves(
    table: Seq<Entry>,
    symbols: Seq<Symbol>,
    r: Reference,
    section: usize,
    i: int,
)
    requires
        0 <= i < table.len(),
        table[i].name == r.referred,
        spec_visible(table[i], r, section),
        forall|j: int|
            0 <= j < i ==> !((#[trigger] table[j]).name == r.referred && spec_visible(
                table[j],
                r,
                section,
            )),
    ensures
        spec_resolve(table, symbols, r, section) == Ok::<usize, LinkError>(table[i].address),
{
    lemma_first_visible(table, r, section);
}

/// Where the script is refused there is no linker, so nothing is placed.
pub proof fn lemma_refused_script_stops_the_link(script: Seq<u8>, files: Seq<InputView>)
    requires
        spec_read_script(script) is Err,
    ensures
        spec_new(script, files) is Err,
{
}

proof fn lemma_patch_all_needs_each(
    code: Seq<u8>,
    s: SectionView,
    section: usize,
    table: Seq<Entry>,
    symbols: Seq<Symbol>,
    from: int,
    i: int,
)
    requires
        spec_patch_all(code, s, section, table, symbols, from) is Ok,
        0 <= from <= i < s.references.len(),
    ensures
        spec_resolve(table, symbols, s.references[i], section) matches Ok(target) && spec_patch(
            s.references[i],
            target,
            (s.base + s.references[i].offset) as usize,
        ) is Ok,
        s.references[i].offset + s.references[i].spec_width() <= code.len(),
    decreases s.references.len() - from,
{
    lemma_patch_width(
        s.references[from],
        spec_resolve(table, symbols, s.references[from], section)->Ok_0,
        (s.base + s.references[from].offset) as usize,
    );
    if from < i {
        let r = s.references[from];
        let target = spec_resolve(table, symbols, r, section)->Ok_0;
        let bytes = spec_patch(r, target, (s.base + r.offset) as usize)->Ok_0;
        lemma_patch_all_needs_each(
            overlay(code, r.offset as int, bytes),
            s,
            section,
            table,
            symbols,
            from + 1,
            i,
        );
    }
}

proof fn lemma_compose_needs_each(
    image: Seq<u8>,
    origin: usize,
    sections: Seq<SectionView>,
    order: Seq<usize>,
    table: Seq<Entry>,
    symbols: Seq<Symbol>,
    from: int,
    k: int,
)
    requires
        spec_compose(image, origin, sections, order, table, symbols, from) is Ok,
        0 <= from <= k < order.len(),
    ensures
        spec_patch_all(
            sections[order[k] as int].code,
            sections[order[k] as int],
            order[k],
            table,
            symbols,
            0,
        ) is Ok,
    decreases order.len() - from,
{
    if from < k {
        let s = sections[order[from] as int];
        let code = spec_patch_all(s.code, s, order[from], table, symbols, 0)->Ok_0;
        lemma_compose_needs_each(
            overlay(image, s.base - origin, code),
            origin,
            sections,
            order,
            table,
            symbols,
            from + 1,
            k,
        );
    }
}

/// A link succeeds only if the patching of every placed section succeeds.
pub proof fn lemma_link_patches_every_section(l: LinkerView, k: int)
    requires
        spec_link(l) is Ok,
        0 <= k < spec_placed(l)->Ok_0.order.len(),
    ensures
        ({
            let placed = spec_placed(l)->Ok_0;
            let s = placed.placed(k);
            spec_patch_all(s.code, s, placed.order[k], placed.table(), l.symbols, 0) is Ok
        }),
{
    let placed = spec_placed(l)->Ok_0;
    let count = placed.order.len() as int;
    let low = spec_low(placed.sections, placed.order, count);
    let high = spec_high(placed.sections, placed.order, count);
    let (origin, size) = if count == 0 {
        (0usize, 0int)
    } else {
        (low, high - low)
    };
    lemma_compose_needs_each(
        Seq::new(size as nat, |i: int| 0u8),
        origin,
        placed.sections,
        placed.order,
        placed.table(),
        l.symbols,
        0,
        k,
    );
}

/// A link succeeds only if every reference of every placed section
/// resolves, can be patched and lies inside the code of its section.
pub proof fn lemma_link_needs_every_reference(l: LinkerView, k: int, i: int)
    requires
        spec_link(l) is Ok,
        0 <= k < spec_placed(l)->Ok_0.order.len(),
        0 <= i < spec_placed(l)->Ok_0.placed(k).references.len(),
    ensures
        ({
            let placed = spec_placed(l)->Ok_0;
            let s = placed.placed(k);
            let r = s.references[i];
            &&& spec_resolve(placed.table(), l.symbols, r, placed.order[k]) matches Ok(target)
                && spec_patch(r, target, (s.base + r.offset) as usize) is Ok
            &&& r.offset + r.spec_width() <= s.code.len()
        }),
{
    let placed = spec_placed(l)->Ok_0;
    let s = placed.placed(k);
    lemma_link_patches_every_section(l, k);
    lemma_patch_all_needs_each(s.code, s, placed.order[k], placed.table(), l.symbols, 0, i);
}

/// A link fails if a placed section holds a branch whose target is more
/// than 127 bytes ahead of the byte behind its operand, or more than 128
/// bytes before it. The operand stands at the section's base address plus
/// the reference's offset.
pub proof fn lemma_link_refuses_far_branch(l: LinkerView, k: int, i: int)
    requires
        spec_placed(l) is Ok,
        0 <= k < spec_placed(l)->Ok_0.order.len(),
        0 <= i < spec_placed(l)->Ok_0.placed(k).references.len(),
        ({
            let placed = spec_placed(l)->Ok_0;
            let s = placed.placed(k);
            let r = s.references[i];
            &&& r.branch
            &&& spec_resolve(placed.table(), l.symbols, r, placed.order[k]) matches Ok(target) && !(
            -128 <= target - ((s.base + r.offset) as usize + 1) <= 127)
        }),
    ensures
        spec_link(l) is Err,
{
    if spec_link(l) is Ok {
        let placed = spec_placed(l)->Ok_0;
        let s = placed.placed(k);
        let r = s.references[i];
        lemma_link_needs_every_reference(l, k, i);
        let target = spec_resolve(placed.table(), l.symbols, r, placed.order[k])->Ok_0;
        lemma_branch_range(r, target, (s.base + r.offset) as usize);
    }
}

/// A link fails if a placed section holds a reference whose name only
/// hidden labels have, none of them with the reference in its scope.
pub proof fn lemma_link_refuses_hidden_outside_scope(l: LinkerView, k: int, i: int)
    requires
        spec_placed(l) is Ok,
        0 <= k < spec_placed(l)->Ok_0.order.len(),
        0 <= i < spec_placed(l)->Ok_0.placed(k).references.len(),
        ({
            let placed = spec_placed(l)->Ok_0;
            let table = placed.table();
            let r = placed.placed(k).references[i];
            &&& has_entry(table, r.referred)
            &&& forall|e: int|
                0 <= e < table.len() && (#[trigger] table[e]).name == r.referred ==> table[e].vis
                    == Visibility::Hidden && !(table[e].object == r.object && table[e].section
                    == placed.order[k] && table[e].scope_start <= r.offset < table[e].scope_end)
        }),
    ensures
        spec_link(l) is Err,
{
    if spec_link(l) is Ok {
        let placed = spec_placed(l)->Ok_0;
        let r = placed.placed(k).references[i];
        lemma_link_needs_every_reference(l, k, i);
        lemma_hidden_outside_scope(placed.table(), l.symbols, r, placed.order[k]);
    }
}

/// Whether two references write to different bytes of their section.
pub open spec fn apart(a: Reference, b: Reference) -> bool {
    a.offset + a.spec_width() <= b.offset || b.offset + b.spec_width() <= a.offset
}

/// Whether a reference writes to the byte at `x` of its section.
pub open spec fn covers(r: Reference, x: int) -> bool {
    r.offset <= x < r.offset + r.spec_width()
}

/// A patch writes as many bytes as its reference is wide.
pub proof fn lemma_patch_width(r: Reference, target: usize, at: usize)
    ensures
        spec_patch(r, target, at) matches Ok(bytes) ==> bytes.len() == r.spec_width(),
{
}

/// Patching changes no byte that no reference covers, and not the length
/// of the code.
pub proof fn lemma_patch_all_keeps(
    code: Seq<u8>,
    s: SectionView,
    section: usize,
    table: Seq<Entry>,
    symbols: Seq<Symbol>,
    from: int,
    x: int,
)
    requires
        spec_patch_all(code, s, section, table, symbols, from) is Ok,
        0 <= from,
        0 <= x < code.len(),
        forall|k: int| from <= k < s.references.len() ==> !covers(#[trigger] s.references[k], x),
    ensures
        spec_patch_all(code, s, section, table, symbols, from)->Ok_0.len() == code.len(),
        spec_patch_all(code, s, section, table, symbols, from)->Ok_0[x] == code[x],
    decreases s.references.len() - from,
{
    if from < s.references.len() {
        let r = s.references[from];
        let target = spec_resolve(table, symbols, r, section)->Ok_0;
        let bytes = spec_patch(r, target, (s.base + r.offset) as usize)->Ok_0;
        lemma_patch_width(r, target, (s.base + r.offset) as usize);
        assert(!covers(r, x));
        lemma_patch_all_keeps(
            overlay(code, r.offset as int, bytes),
            s,
            section,
            table,
            symbols,
            from + 1,
            x,
        );
    }
}

proof fn lemma_patch_all_writes_from(
    code: Seq<u8>,
    s: SectionView,
    section: usize,
    table: Seq<Entry>,
    symbols: Seq<Symbol>,
    from: int,
    i: int,
    x: int,
)
    requires
        spec_patch_all(code, s, section, table, symbols, from) is Ok,
        0 <= from <= i < s.references.len(),
        s.references[i].offset + s.references[i].spec_width() <= code.len(),
        forall|k: int|
            i < k < s.references.len() ==> apart(s.references[i], #[trigger] s.references[k]),
        0 <= x < s.references[i].spec_width(),
    ensures
        ({
            let r = s.references[i];
            let target = spec_resolve(table, symbols, r, section)->Ok_0;
            let bytes = spec_patch(r, target, (s.base + r.offset) as usize)->Ok_0;
            spec_patch_all(code, s, section, table, symbols, from)->Ok_0[r.offset + x] == bytes[x]
        }),
    decreases s.references.len() - from,
{
    let first = s.references[from];
    let target = spec_resolve(table, symbols, first, section)->Ok_0;
    let bytes = spec_patch(first, target, (s.base + first.offset) as usize)->Ok_0;
    let next = overlay(code, first.offset as int, bytes);
    lemma_patch_width(first, target, (s.base + first.offset) as usize);
    if from < i {
        lemma_patch_all_writes_from(next, s, section, table, symbols, from + 1, i, x);
    } else {
        assert forall|k: int| from + 1 <= k < s.references.len() implies !covers(
            #[trigger] s.references[k],
            first.offset + x,
        ) by {
            assert(apart(first, s.references[k]));
        }
        lemma_patch_all_keeps(next, s, section, table, symbols, from + 1, first.offset + x);
    }
}

/// Where the patching of a section succeeds, each reference whose bytes
/// no later reference covers has got its patch: the code holds the bytes
/// of the patch at the reference's offset.
pub proof fn lemma_patch_all_writes(
    s: SectionView,
    section: usize,
    table: Seq<Entry>,
    symbols: Seq<Symbol>,
    i: int,
)
    requires
        spec_patch_all(s.code, s, section, table, symbols, 0) is Ok,
        0 <= i < s.references.len(),
        forall|k: int|
            i < k < s.references.len() ==> apart(s.references[i], #[trigger] s.references[k]),
    ensures
        ({
            let r = s.references[i];
            let target = spec_resolve(table, symbols, r, section)->Ok_0;
            let bytes = spec_patch(r, target, (s.base + r.offset) as usize)->Ok_0;
            let patched = spec_patch_all(s.code, s, section, table, symbols, 0)->Ok_0;
            &&& patched.len() == s.code.len()
            &&& bytes.len() == r.spec_width()
            &&& patched.subrange(r.offset as int, r.offset + r.spec_width()) == bytes
        }),
{
    let r = s.references[i];
    let target = spec_resolve(table, symbols, r, section)->Ok_0;
    let bytes = spec_patch(r, target, (s.base + r.offset) as usize)->Ok_0;
    let patched = spec_patch_all(s.code, s, section, table, symbols, 0)->Ok_0;
    lemma_patch_all_needs_each(s.code, s, section, table, symbols, 0, i);
    lemma_patch_width(r, target, (s.base + r.offset) as usize);
    lemma_patch_all_length(s.code, s, section, table, symbols, 0);
    assert(r.offset + r.spec_width() <= s.code.len());
    assert forall|x: int| 0 <= x < r.spec_width() implies patched[r.offset + x] == bytes[x] by {
        lemma_patch_all_writes_from(s.code, s, section, table, symbols, 0, i, x);
    }
    assert(patched.subrange(r.offset as int, r.offset + r.spec_width()) =~= bytes);
}

/// Patching keeps the length of the code.
pub proof fn lemma_patch_all_length(
    code: Seq<u8>,
    s: SectionView,
    section: usize,
    table: Seq<Entry>,
    symbols: Seq<Symbol>,
    from: int,
)
    requires
        spec_patch_all(code, s, section, table, symbols, from) is Ok,
        0 <= from,
    ensures
        spec_patch_all(code, s, section, table, symbols, from)->Ok_0.len() == code.len(),
    decreases s.references.len() - from,
{
    if from < s.references.len() {
        let r = s.references[from];
        let target = spec_resolve(table, symbols, r, section)->Ok_0;
        let bytes = spec_patch(r, target, (s.base + r.offset) as usize)->Ok_0;
        lemma_patch_all_length(
            overlay(code, r.offset as int, bytes),
            s,
            section,
            table,
            symbols,
            from + 1,
        );
    }
}

proof fn lemma_place_names_wf(st: Placing, names: Seq<[u8; 32]>, from: int, group: usize)
    requires
        st.wf(),
    ensures
        spec_place_names(st, names, from, group) matches Ok(next) ==> next.wf(),
    decreases names.len() - from,
{
    if 0 <= from < names.len() {
        lemma_index_of(section_names(st.sections), names[from]);
        match spec_index_of(section_names(st.sections), names[from]) {
            None => lemma_place_names_wf(st, names, from + 1, group),
            Some(i) => if st.cursor + st.sections[i].code.len() <= 65536 {
                let next = Placing {
                    sections: st.sections.update(
                        i,
                        SectionView { base: st.cursor, ..st.sections[i] },
                    ),
                    order: st.order.push(i as usize),
                    cursor: (st.cursor + st.sections[i].code.len()) as usize,
                };
                assert forall|j: int| 0 <= j < next.sections.len() implies (
                #[trigger] next.sections[j]).wf() by {
                    assert(st.sections[j].wf());
                }
                assert forall|k: int| 0 <= k < next.order.len() implies (#[trigger] next.order[k])
                    < next.sections.len() && next.end_of(next.order[k] as int) <= 65536 by {
                    if k < st.order.len() {
                        assert(st.order[k] == next.order[k]);
                        assert(st.order[k] < st.sections.len() && st.end_of(st.order[k] as int)
                            <= 65536);
                        if st.order[k] != i {
                            assert(next.sections[st.order[k] as int] == st.sections[st.order[
                                k
                            ] as int]);
                        }
                    }
                }
                lemma_place_names_wf(next, names, from + 1, group);
            },
        }
    }
}

proof fn lemma_place_groups_wf(st: Placing, groups: Seq<RelocGroupView>, from: int)
    requires
        st.wf(),
    ensures
        spec_place_groups(st, groups, from) matches Ok(next) ==> next.wf(),
    decreases groups.len() - from,
{
    if 0 <= from < groups.len() {
        let base = groups[from].address;
        let start = Placing { cursor: base, ..st };
        lemma_place_names_wf(start, groups[from].relocations, 0, from as usize);
        if let Ok(next) = spec_place_names(start, groups[from].relocations, 0, from as usize) {
            lemma_place_groups_wf(next, groups, from + 1);
        }
    }
}

/// The placing of well-formed sections is well formed: every placed
/// section exists and ends at or before address 65536.
pub proof fn lemma_placed_wf(l: LinkerView)
    requires
        l.wf(),
    ensures
        spec_placed(l) matches Ok(placed) ==> placed.wf(),
{
    lemma_place_groups_wf(
        Placing { sections: l.sections, order: Seq::empty(), cursor: 0 },
        l.relocations,
        0,
    );
}

/// Whether a placed section lies over the byte at `x` of an image that
/// starts at `origin`.
pub open spec fn lies_over(s: SectionView, origin: usize, x: int) -> bool {
    s.base - origin <= x < s.base - origin + s.code.len()
}

proof fn lemma_compose_keeps(
    image: Seq<u8>,
    origin: usize,
    placed: Placing,
    symbols: Seq<Symbol>,
    from: int,
    x: int,
)
    requires
        spec_compose(image, origin, placed.sections, placed.order, placed.table(), symbols, from)
            is Ok,
        0 <= from,
        0 <= x < image.len(),
        forall|k: int|
            from <= k < placed.order.len() ==> !lies_over(#[trigger] placed.placed(k), origin, x),
    ensures
        ({
            let composed = spec_compose(
                image,
                origin,
                placed.sections,
                placed.order,
                placed.table(),
                symbols,
                from,
            )->Ok_0;
            composed.len() == image.len() && composed[x] == image[x]
        }),
    decreases placed.order.len() - from,
{
    if from < placed.order.len() {
        let s = placed.placed(from);
        let code = spec_patch_all(s.code, s, placed.order[from], placed.table(), symbols, 0)->Ok_0;
        lemma_patch_all_length(s.code, s, placed.order[from], placed.table(), symbols, 0);
        assert(!lies_over(placed.placed(from), origin, x));
        lemma_compose_keeps(
            overlay(image, s.base - origin, code),
            origin,
            placed,
            symbols,
            from + 1,
            x,
        );
    }
}

proof fn lemma_compose_writes(
    image: Seq<u8>,
    origin: usize,
    placed: Placing,
    symbols: Seq<Symbol>,
    from: int,
    k: int,
    x: int,
)
    requires
        spec_compose(image, origin, placed.sections, placed.order, placed.table(), symbols, from)
            is Ok,
        0 <= from <= k < placed.order.len(),
        0 <= x < image.len(),
        lies_over(placed.placed(k), origin, x),
        forall|j: int|
            k < j < placed.order.len() ==> !lies_over(#[trigger] placed.placed(j), origin, x),
    ensures
        ({
            let s = placed.placed(k);
            let composed = spec_compose(
                image,
                origin,
                placed.sections,
                placed.order,
                placed.table(),
                symbols,
                from,
            )->Ok_0;
            let code = spec_patch_all(s.code, s, placed.order[k], placed.table(), symbols, 0)->Ok_0;
            composed.len() == image.len() && composed[x] == code[x - (s.base - origin)]
        }),
    decreases placed.order.len() - from,
{
    let s = placed.placed(from);
    let code = spec_patch_all(s.code, s, placed.order[from], placed.table(), symbols, 0)->Ok_0;
    let next = overlay(image, s.base - origin, code);
    lemma_patch_all_length(s.code, s, placed.order[from], placed.table(), symbols, 0);
    if from < k {
        lemma_compose_writes(next, origin, placed, symbols, from + 1, k, x);
    } else {
        lemma_compose_keeps(next, origin, placed, symbols, from + 1, x);
    }
}

/// Where a link succeeds, the image holds each byte of a placed section
/// as the patching left it, where no section that comes later in the
/// script lies over it.
pub proof fn lemma_link_image_holds(l: LinkerView, k: int, x: int)
    requires
        l.wf(),
        spec_link(l) is Ok,
        0 <= k < spec_placed(l)->Ok_0.order.len(),
        0 <= x < spec_placed(l)->Ok_0.placed(k).code.len(),
        ({
            let placed = spec_placed(l)->Ok_0;
            let image = spec_link(l)->Ok_0;
            forall|j: int|
                k < j < placed.order.len() ==> !lies_over(
                    #[trigger] placed.placed(j),
                    image.origin,
                    placed.placed(k).base - image.origin + x,
                )
        }),
    ensures
        ({
            let placed = spec_placed(l)->Ok_0;
            let image = spec_link(l)->Ok_0;
            let s = placed.placed(k);
            let code = spec_patch_all(
                s.code,
                s,
                placed.order[k],
                placed.table(),
                l.symbols,
                0,
            )->Ok_0;
            &&& image.origin <= s.base
            &&& s.base - image.origin + s.code.len() <= image.bytes.len()
            &&& image.bytes[s.base - image.origin + x] == code[x]
        }),
{
    let placed = spec_placed(l)->Ok_0;
    let image = spec_link(l)->Ok_0;
    let count = placed.order.len() as int;
    let low = spec_low(placed.sections, placed.order, count);
    let high = spec_high(placed.sections, placed.order, count);
    let s = placed.placed(k);
    lemma_placed_wf(l);
    lemma_extent(placed.sections, placed.order, count);
    assert(image.origin == low);
    assert(low <= placed.sections[placed.order[k] as int].base);
    let blank = Seq::new((high - low) as nat, |i: int| 0u8);
    lemma_compose_writes(blank, low, placed, l.symbols, 0, k, s.base - low + x);
}

/// Where a link succeeds, the image holds the patch of each reference of
/// a placed section at the reference's address, where no later reference
/// of the section and no later section of the script lies over it. For a
/// branch that is the distance to its target as a signed byte.
pub proof fn lemma_link_writes_patch(l: LinkerView, k: int, i: int)
    requires
        l.wf(),
        spec_link(l) is Ok,
        0 <= k < spec_placed(l)->Ok_0.order.len(),
        0 <= i < spec_placed(l)->Ok_0.placed(k).references.len(),
        ({
            let placed = spec_placed(l)->Ok_0;
            let image = spec_link(l)->Ok_0;
            let s = placed.placed(k);
            let r = s.references[i];
            &&& forall|j: int| i < j < s.references.len() ==> apart(r, #[trigger] s.references[j])
            &&& forall|j: int, x: int|
                k < j < placed.order.len() && 0 <= x < r.spec_width() ==> !lies_over(
                    #[trigger] placed.placed(j),
                    image.origin,
                    s.base - image.origin + #[trigger] (r.offset + x),
                )
        }),
    ensures
        ({
            let placed = spec_placed(l)->Ok_0;
            let image = spec_link(l)->Ok_0;
            let s = placed.placed(k);
            let r = s.references[i];
            let target = spec_resolve(placed.table(), l.symbols, r, placed.order[k])->Ok_0;
            let bytes = spec_patch(r, target, (s.base + r.offset) as usize)->Ok_0;
            let at = s.base - image.origin + r.offset;
            &&& 0 <= at
            &&& at + r.spec_width() <= image.bytes.len()
            &&& image.bytes.subrange(at, at + r.spec_width()) == bytes
            &&& r.branch ==> signed(image.bytes[at]) == target - (s.base + r.offset + 1)
        }),
{
    let placed = spec_placed(l)->Ok_0;
    let image = spec_link(l)->Ok_0;
    let s = placed.placed(k);
    let r = s.references[i];
    let target = spec_resolve(placed.table(), l.symbols, r, placed.order[k])->Ok_0;
    let bytes = spec_patch(r, target, (s.base + r.offset) as usize)->Ok_0;
    let at = s.base - image.origin + r.offset;
    let code = spec_patch_all(s.code, s, placed.order[k], placed.table(), l.symbols, 0)->Ok_0;
    lemma_placed_wf(l);
    assert(placed.order[k] < placed.sections.len());
    assert(placed.end_of(placed.order[k] as int) <= 65536);
    lemma_link_needs_every_reference(l, k, i);
    lemma_link_patches_every_section(l, k);
    lemma_patch_all_writes(s, placed.order[k], placed.table(), l.symbols, i);
    assert forall|x: int| 0 <= x < r.spec_width() implies image.bytes[at + x] == bytes[x] by {
        lemma_link_image_holds(l, k, r.offset + x);
        assert(code.subrange(r.offset as int, r.offset + r.spec_width())[x] == code[r.offset + x]);
    }
    let zero: int = 0;
    lemma_link_image_holds(l, k, r.offset + zero);
    assert(image.bytes.subrange(at, at + r.spec_width()) =~= bytes);
    if r.branch {
        lemma_branch_range(r, target, (s.base + r.offset) as usize);
        assert(image.bytes.subrange(at, at + r.spec_width())[0] == image.bytes[at]);
    }
}

/// The size of the section of a name; 0 where no section has the name.
pub open spec fn size_of(sections: Seq<SectionView>, name: [u8; 32]) -> int {
    match spec_index_of(section_names(sections), name) {
        Some(i) => sections[i].code.len() as int,
        None => 0,
    }
}

/// The sizes of the sections that the names from `from` up to `upto`
/// name, together.
pub open spec fn sizes_between(
    sections: Seq<SectionView>,
    names: Seq<[u8; 32]>,
    from: int,
    upto: int,
) -> int
    decreases upto - from,
{
    if from >= upto {
        0
    } else {
        size_of(sections, names[from]) + sizes_between(sections, names, from + 1, upto)
    }
}

/// Whether two lists hold the same sections but for their base addresses.
pub open spec fn same_but_bases(a: Seq<SectionView>, b: Seq<SectionView>) -> bool {
    &&& a.len() == b.len()
    &&& forall|i: int|
        0 <= i < a.len() ==> #[trigger] b[i] == (SectionView { base: b[i].base, ..a[i] })
}

/// Whether no section name is listed twice in the groups.
pub open spec fn listed_once(groups: Seq<RelocGroupView>) -> bool {
    forall|g: int, j: int, h: int, k: int|
        0 <= g < groups.len() && 0 <= j < groups[g].relocations.len() && 0 <= h < groups.len()
            && 0 <= k < groups[h].relocations.len() && (g != h || j != k) ==> (
        #[trigger] groups[g].relocations[j]) != (#[trigger] groups[h].relocations[k])
}

proof fn lemma_same_but_bases(a: Seq<SectionView>, b: Seq<SectionView>)
    requires
        same_but_bases(a, b),
    ensures
        section_names(a) == section_names(b),
        forall|name: [u8; 32]| size_of(a, name) == size_of(b, name),
{
    assert(section_names(a) =~= section_names(b)) by {
        assert forall|i: int| 0 <= i < a.len() implies section_names(a)[i] == section_names(
            b,
        )[i] by {
            assert(b[i] == (SectionView { base: b[i].base, ..a[i] }));
        }
    }
    assert forall|name: [u8; 32]| size_of(a, name) == size_of(b, name) by {
        lemma_index_of(section_names(a), name);
        if let Some(i) = spec_index_of(section_names(a), name) {
            assert(b[i] == (SectionView { base: b[i].base, ..a[i] }));
        }
    }
}

proof fn lemma_sizes_between_same(
    a: Seq<SectionView>,
    b: Seq<SectionView>,
    names: Seq<[u8; 32]>,
    from: int,
    upto: int,
)
    requires
        same_but_bases(a, b),
    ensures
        sizes_between(a, names, from, upto) == sizes_between(b, names, from, upto),
    decreases upto - from,
{
    lemma_same_but_bases(a, b);
    if from < upto {
        lemma_sizes_between_same(a, b, names, from + 1, upto);
    }
}

/// The sections of a group stand in a row: the section of each name
/// starts where the group starts plus the sizes of the sections named
/// before it, and the cursor ends behind the last. A section that the
/// group does not name stays where it is.
pub proof fn lemma_place_names_in_a_row(
    st: Placing,
    names: Seq<[u8; 32]>,
    from: int,
    group: usize,
)
    requires
        0 <= from <= names.len(),
        forall|a: int, b: int| from <= a < b < names.len() ==> names[a] != names[b],
    ensures
        spec_place_names(st, names, from, group) matches Ok(next) ==> {
            &&& same_but_bases(st.sections, next.sections)
            &&& next.cursor == st.cursor + sizes_between(
                st.sections,
                names,
                from,
                names.len() as int,
            )
            &&& forall|j: int|
                from <= j < names.len() && spec_index_of(
                    section_names(st.sections),
                    #[trigger] names[j],
                ) is Some ==> next.sections[spec_index_of(
                    section_names(st.sections),
                    names[j],
                )->0].base == st.cursor + sizes_between(st.sections, names, from, j)
            &&& forall|i: int|
                0 <= i < st.sections.len() && (forall|j: int|
                    from <= j < names.len() ==> #[trigger] names[j] != st.sections[i].name)
                    ==> #[trigger] next.sections[i] == st.sections[i]
        },
    decreases names.len() - from,
{
    if let Ok(next) = spec_place_names(st, names, from, group) {
        if from < names.len() {
            let found = spec_index_of(section_names(st.sections), names[from]);
            lemma_index_of(section_names(st.sections), names[from]);
            match found {
                None => {
                    lemma_place_names_in_a_row(st, names, from + 1, group);
                    assert forall|j: int|
                        from <= j < names.len() && spec_index_of(
                            section_names(st.sections),
                            #[trigger] names[j],
                        ) is Some implies next.sections[spec_index_of(
                        section_names(st.sections),
                        names[j],
                    )->0].base == st.cursor + sizes_between(st.sections, names, from, j) by {
                        assert(j > from);
                    }
                },
                Some(i) => {
                    let mid = Placing {
                        sections: st.sections.update(
                            i,
                            SectionView { base: st.cursor, ..st.sections[i] },
                        ),
                        order: st.order.push(i as usize),
                        cursor: (st.cursor + st.sections[i].code.len()) as usize,
                    };
                    assert(same_but_bases(st.sections, mid.sections));
                    lemma_same_but_bases(st.sections, mid.sections);
                    lemma_place_names_in_a_row(mid, names, from + 1, group);
                    assert forall|k: int|
                        0 <= k < st.sections.len() implies #[trigger] next.sections[k] == (
                    SectionView { base: next.sections[k].base, ..st.sections[k] }) by {
                        assert(next.sections[k] == (SectionView {
                            base: next.sections[k].base,
                            ..mid.sections[k]
                        }));
                    }
                    lemma_sizes_between_same(
                        st.sections,
                        mid.sections,
                        names,
                        from + 1,
                        names.len() as int,
                    );
                    assert forall|j: int|
                        from <= j < names.len() && spec_index_of(
                            section_names(st.sections),
                            #[trigger] names[j],
                        ) is Some implies next.sections[spec_index_of(
                        section_names(st.sections),
                        names[j],
                    )->0].base == st.cursor + sizes_between(st.sections, names, from, j) by {
                        if j == from {
                            assert forall|k: int|
                                from + 1 <= k < names.len() implies #[trigger] names[k]
                                != mid.sections[i].name by {
                                assert(names[from] != names[k]);
                                assert(section_names(st.sections)[i] == names[from]);
                            }
                            assert(next.sections[i] == mid.sections[i]);
                        } else {
                            lemma_sizes_between_same(st.sections, mid.sections, names, from + 1, j);
                        }
                    }
                    assert forall|k: int|
                        0 <= k < st.sections.len() && (forall|j: int|
                            from <= j < names.len() ==> #[trigger] names[j]
                                != st.sections[k].name) implies #[trigger] next.sections[k]
                        == st.sections[k] by {
                        assert(names[from] != st.sections[k].name);
                        assert(section_names(st.sections)[i] == names[from]);
                        assert(k != i);
                        assert(mid.sections[k] == st.sections[k]);
                        assert forall|j: int|
                            from + 1 <= j < names.len() implies #[trigger] names[j]
                            != mid.sections[k].name by {}
                    }
                },
            }
        } else {
            assert(same_but_bases(st.sections, next.sections));
        }
    }
}

proof fn lemma_same_but_bases_chain(a: Seq<SectionView>, b: Seq<SectionView>, c: Seq<SectionView>)
    requires
        same_but_bases(a, b),
        same_but_bases(b, c),
    ensures
        same_but_bases(a, c),
{
    assert forall|i: int| 0 <= i < a.len() implies #[trigger] c[i] == (SectionView {
        base: c[i].base,
        ..a[i]
    }) by {
        assert(b[i] == (SectionView { base: b[i].base, ..a[i] }));
        assert(c[i] == (SectionView { base: c[i].base, ..b[i] }));
    }
}

proof fn lemma_group_named_once(groups: Seq<RelocGroupView>, g: int)
    requires
        listed_once(groups),
        0 <= g < groups.len(),
    ensures
        forall|a: int, b: int|
            0 <= a < b < groups[g].relocations.len() ==> groups[g].relocations[a]
                != groups[g].relocations[b],
{
}

proof fn lemma_place_groups_keeps(st: Placing, groups: Seq<RelocGroupView>, from: int, i: int)
    requires
        listed_once(groups),
        0 <= from <= groups.len(),
        0 <= i < st.sections.len(),
        forall|g: int, j: int|
            from <= g < groups.len() && 0 <= j < groups[g].relocations.len() ==> (
            #[trigger] groups[g].relocations[j]) != st.sections[i].name,
    ensures
        spec_place_groups(st, groups, from) matches Ok(next) ==> same_but_bases(
            st.sections,
            next.sections,
        ) && next.sections[i] == st.sections[i],
    decreases groups.len() - from,
{
    if let Ok(next) = spec_place_groups(st, groups, from) {
        if from < groups.len() {
            let names = groups[from].relocations;
            let start = Placing { cursor: groups[from].address, ..st };
            lemma_group_named_once(groups, from);
            lemma_place_names_in_a_row(start, names, 0, from as usize);
            let mid = spec_place_names(start, names, 0, from as usize)->Ok_0;
            assert forall|j: int| 0 <= j < names.len() implies #[trigger] names[j]
                != st.sections[i].name by {
                assert(groups[from].relocations[j] != st.sections[i].name);
            }
            assert(mid.sections[i] == st.sections[i]);
            lemma_place_groups_keeps(mid, groups, from + 1, i);
            lemma_same_but_bases_chain(st.sections, mid.sections, next.sections);
        } else {
            assert(same_but_bases(st.sections, next.sections));
        }
    }
}

proof fn lemma_place_groups_in_rows(
    st: Placing,
    groups: Seq<RelocGroupView>,
    from: int,
    g: int,
    j: int,
)
    requires
        listed_once(groups),
        0 <= from <= g < groups.len(),
        0 <= j < groups[g].relocations.len(),
        spec_index_of(section_names(st.sections), groups[g].relocations[j]) is Some,
    ensures
        spec_place_groups(st, groups, from) matches Ok(next) ==> {
            let i = spec_index_of(section_names(st.sections), groups[g].relocations[j])->0;
            let names = groups[g].relocations;
            &&& same_but_bases(st.sections, next.sections)
            &&& next.sections[i].base == groups[g].address + sizes_between(
                st.sections,
                names,
                0,
                j,
            )
            &&& groups[g].max_size matches Some(max) ==> sizes_between(
                st.sections,
                names,
                0,
                names.len() as int,
            ) <= max
        },
    decreases groups.len() - from,
{
    if let Ok(next) = spec_place_groups(st, groups, from) {
        let name = groups[g].relocations[j];
        let i = spec_index_of(section_names(st.sections), name)->0;
        let names = groups[from].relocations;
        let start = Placing { cursor: groups[from].address, ..st };
        lemma_index_of(section_names(st.sections), name);
        lemma_group_named_once(groups, from);
        lemma_place_names_in_a_row(start, names, 0, from as usize);
        let mid = spec_place_names(start, names, 0, from as usize)->Ok_0;
        lemma_same_but_bases(st.sections, mid.sections);
        if from == g {
            assert(names[j] == name);
            assert forall|h: int, k: int|
                from + 1 <= h < groups.len() && 0 <= k < groups[h].relocations.len() implies (
            #[trigger] groups[h].relocations[k]) != mid.sections[i].name by {
                assert(section_names(st.sections)[i] == name);
                assert(groups[h].relocations[k] != groups[g].relocations[j]);
            }
            lemma_place_groups_keeps(mid, groups, from + 1, i);
            lemma_same_but_bases_chain(st.sections, mid.sections, next.sections);
        } else {
            lemma_place_groups_in_rows(mid, groups, from + 1, g, j);
            lemma_same_but_bases_chain(st.sections, mid.sections, next.sections);
            lemma_sizes_between_same(st.sections, mid.sections, groups[g].relocations, 0, j);
            lemma_sizes_between_same(
                st.sections,
                mid.sections,
                groups[g].relocations,
                0,
                groups[g].relocations.len() as int,
            );
        }
    }
}

/// Where the placing succeeds and the script lists no section twice,
/// every group starts at its address and its sections stand in a row:
/// the section of each of its names has its base at the address of the
/// group plus the sizes of the sections named before it in the group, and
/// is otherwise as it was. So a label of that section has that base plus
/// its offset as its address. The sections of a group that states a size
/// take no more than that together; where they would, the placing fails.
pub proof fn lemma_groups_placed_in_rows(l: LinkerView, g: int, j: int)
    requires
        listed_once(l.relocations),
        0 <= g < l.relocations.len(),
        0 <= j < l.relocations[g].relocations.len(),
        spec_index_of(section_names(l.sections), l.relocations[g].relocations[j]) is Some,
        spec_placed(l) is Ok,
    ensures
        ({
            let placed = spec_placed(l)->Ok_0;
            let group = l.relocations[g];
            let i = spec_index_of(section_names(l.sections), group.relocations[j])->0;
            let base = group.address + sizes_between(l.sections, group.relocations, 0, j);
            &&& 0 <= i < l.sections.len() == placed.sections.len()
            &&& l.sections[i].name == group.relocations[j]
            &&& placed.sections[i] == (SectionView { base: base as usize, ..l.sections[i] })
            &&& placed.sections[i].base == base
            &&& forall|k: int|
                0 <= k < l.sections[i].labels.len() ==> (#[trigger] entry_of(
                    placed.sections[i].labels[k],
                    placed.sections[i].base,
                    i as usize,
                )).address == (base + l.sections[i].labels[k].offset) as usize
            &&& group.max_size matches Some(max) ==> sizes_between(
                l.sections,
                group.relocations,
                0,
                group.relocations.len() as int,
            ) <= max
        }),
{
    let first = Placing { sections: l.sections, order: Seq::empty(), cursor: 0 };
    let placed = spec_placed(l)->Ok_0;
    let i = spec_index_of(section_names(l.sections), l.relocations[g].relocations[j])->0;
    lemma_index_of(section_names(l.sections), l.relocations[g].relocations[j]);
    lemma_place_groups_in_rows(first, l.relocations, 0, g, j);
    assert(placed.sections[i] == (SectionView { base: placed.sections[i].base, ..l.sections[i] }));
}

} // verus!
