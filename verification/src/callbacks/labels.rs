//! The handlers of visibility markers and of identifiers, which declare
//! labels at the start of a line and refer to them inside an operand.

use crate::callbacks::handled;
use crate::ir::{
    lemma_blocks_push_child, lemma_blocks_push_parent, lemma_label_blocks,
    lemma_reference_begun, lemma_reference_changed, make_name, name_of,
    operand_offset, AsmError, ByteSelect, IndOp, Label, Mnemonic, OpState, OpVal, Program,
    ProgramView, Reference, Visibility, MAX_LABELS, MAX_NAME,
};
use vstd::prelude::*;

verus! {

/// The state after a visibility marker, which must come before everything
/// else on its line and only once.
pub open spec fn spec_vis(p: ProgramView, vis: Visibility) -> Result<ProgramView, AsmError> {
    if !p.start_line || p.vis is Some {
        Err(AsmError::VisibilityNotFirst)
    } else {
        Ok(ProgramView { vis: Some(vis), ..p })
    }
}

fn set_vis(p: &mut Program, vis: Visibility) -> (r: Result<(), AsmError>)
    ensures
        handled(old(p)@, final(p)@, r, spec_vis(old(p)@, vis)),
        old(p)@.wf() ==> final(p)@.wf(),
{
    if !p.start_line || p.vis.is_some() {
        Err(AsmError::VisibilityNotFirst)
    } else {
        p.vis = Some(vis);
        Ok(())
    }
}

/// `!`: the label that follows is visible in its object only.
pub fn vis_object(p: &mut Program) -> (r: Result<(), AsmError>)
    ensures
        handled(old(p)@, final(p)@, r, spec_vis(old(p)@, Visibility::Object)),
        old(p)@.wf() ==> final(p)@.wf(),
{
    set_vis(p, Visibility::Object)
}

/// `!!`: the label that follows is visible from every object.
pub fn vis_global(p: &mut Program) -> (r: Result<(), AsmError>)
    ensures
        handled(old(p)@, final(p)@, r, spec_vis(old(p)@, Visibility::Global)),
        old(p)@.wf() ==> final(p)@.wf(),
{
    set_vis(p, Visibility::Global)
}

/// The operand state after a reference was written: a plain value at the
/// start of the operand, an immediate after `#`, the inside of an indirect
/// form after `(`. Nowhere else can a reference start.
pub open spec fn spec_start_reference(op: Option<OpState>, rf: Reference) -> Option<OpState> {
    match op {
        None => Some(OpState::Plain(OpVal::Ref(rf))),
        Some(OpState::StartImme) => Some(OpState::Imme(OpVal::Ref(rf))),
        Some(OpState::StartInd) => Some(OpState::MaybeInd(IndOp::Other(OpVal::Ref(rf)))),
        _ => None,
    }
}

fn start_reference(op: Option<OpState>, rf: Reference) -> (r: Option<OpState>)
    ensures
        r == spec_start_reference(op, rf),
{
    match op {
        None => Some(OpState::Plain(OpVal::Ref(rf))),
        Some(OpState::StartImme) => Some(OpState::Imme(OpVal::Ref(rf))),
        Some(OpState::StartInd) => Some(OpState::MaybeInd(IndOp::Other(OpVal::Ref(rf)))),
        _ => None,
    }
}

/// The state after an identifier. A name of more than 31 bytes is refused
/// wherever it stands. Before the mnemonic the identifier declares a
/// parent label at the end of the active section, global unless marked,
/// if the section has room for it. Behind the mnemonic it is a reference
/// to that name, of both bytes, or a branch target behind a branch: the
/// reference joins the references of the active section at once, at the
/// offset of the operand, and the operand holds it.
pub open spec fn spec_label(p: ProgramView, text: Seq<u8>) -> Result<ProgramView, AsmError> {
    if text.len() > MAX_NAME {
        Err(AsmError::IdentTooLong)
    } else {
        match p.ins {
            None => if p.current().labels.len() >= MAX_LABELS {
                Err(AsmError::TooManyLabels)
            } else {
                Ok(
                    ProgramView {
                        start_line: false,
                        ..p.with_current(
                            p.current().with_parent(
                                match p.vis {
                                    Some(vis) => vis,
                                    None => Visibility::Global,
                                },
                                name_of(text),
                            ),
                        )
                    },
                )
            },
            Some(ins) => match spec_start_reference(
                p.op,
                Reference {
                    parent: name_of(text),
                    child: None,
                    offset: operand_offset(ins, p.current().code.len()) as usize,
                    which_byte: ByteSelect::Both,
                    branch: ins.spec_is_branch(),
                },
            ) {
                Some(op) => Ok(
                    p.with_begun(
                        op,
                        Reference {
                            parent: name_of(text),
                            child: None,
                            offset: operand_offset(ins, p.current().code.len()) as usize,
                            which_byte: ByteSelect::Both,
                            branch: ins.spec_is_branch(),
                        },
                    ),
                ),
                None => Err(AsmError::InvalidReference),
            },
        }
    }
}

/// An identifier, given by its text.
pub fn label(p: &mut Program, text: &[u8]) -> (r: Result<(), AsmError>)
    requires
        old(p)@.wf(),
    ensures
        handled(old(p)@, final(p)@, r, spec_label(old(p)@, text@)),
        final(p)@.wf(),
{
    if text.len() > MAX_NAME {
        return Err(AsmError::IdentTooLong);
    }
    let name = make_name(text);
    let active = p.active;
    let size = p.sections[active].code.len();
    match p.ins {
        None => {
            let count = p.sections[active].labels.len();
            if count >= MAX_LABELS {
                return Err(AsmError::TooManyLabels);
            }
            let vis = match p.vis {
                Some(vis) => vis,
                None => Visibility::Global,
            };
            let new = Label { vis, name, num_children: 0, offset: size };
            proof {
                let s = old(p)@.current();
                if let Some(last) = s.last_parent {
                    lemma_label_blocks(s.labels, 0, s.num_parents as nat, last as int);
                    lemma_blocks_push_parent(s.labels, 0, s.num_parents as nat, last as int, new);
                }
            }
            p.sections[active].last_parent = Some(count);
            p.sections[active].num_parents = p.sections[active].num_parents + 1;
            p.sections[active].labels.push(new);
            p.start_line = false;
            proof {
                let want = spec_label(old(p)@, text@)->Ok_0;
                assert(p@.sections =~= want.sections);
            }
            Ok(())
        },
        Some(ins) => {
            let rf = Reference {
                parent: name,
                child: None,
                offset: if ins.is_directive() {
                    size
                } else {
                    size + 1
                },
                which_byte: ByteSelect::Both,
                branch: ins.is_branch(),
            };
            match start_reference(p.op, rf) {
                Some(op) => {
                    p.begin_reference(op, rf);
                    proof {
                        lemma_reference_begun(old(p)@.current(), rf);
                    }
                    Ok(())
                },
                None => Err(AsmError::InvalidReference),
            }
        },
    }
}

/// The state after a child name in an operand. Behind a reference just
/// written that has no child yet, the name becomes the child of that
/// reference, in the operand and in the active section's list. At the
/// start of an operand it begins a reference to that child of the parent
/// declared last in the active section.
pub open spec fn spec_child_reference(
    p: ProgramView,
    ins: Mnemonic,
    name: [u8; 32],
) -> Result<ProgramView, AsmError> {
    match p.op {
        Some(OpState::Plain(OpVal::Ref(rf))) => if rf.child is None {
            Ok(p.with_changed(OpState::Plain(OpVal::Ref(Reference { child: Some(name), ..rf }))))
        } else {
            Err(AsmError::InvalidChild)
        },
        Some(OpState::Imme(OpVal::Ref(rf))) => if rf.child is None {
            Ok(p.with_changed(OpState::Imme(OpVal::Ref(Reference { child: Some(name), ..rf }))))
        } else {
            Err(AsmError::InvalidChild)
        },
        Some(OpState::MaybeInd(IndOp::Other(OpVal::Ref(rf)))) => if rf.child is None {
            Ok(
                p.with_changed(
                    OpState::MaybeInd(
                        IndOp::Other(OpVal::Ref(Reference { child: Some(name), ..rf })),
                    ),
                ),
            )
        } else {
            Err(AsmError::InvalidChild)
        },
        None | Some(OpState::StartImme) | Some(OpState::StartInd) => match p.current().last_parent {
            None => Err(AsmError::NoParent),
            Some(last) => {
                let rf = Reference {
                    parent: p.current().labels[last as int].name,
                    child: Some(name),
                    offset: operand_offset(ins, p.current().code.len()) as usize,
                    which_byte: ByteSelect::Both,
                    branch: ins.spec_is_branch(),
                };
                Ok(p.with_begun(spec_start_reference(p.op, rf)->0, rf))
            },
        },
        _ => Err(AsmError::InvalidChild),
    }
}

/// The state after a child name (the identifier behind the dot). A name of
/// more than 31 bytes is refused wherever it stands. Before the mnemonic
/// the name declares a child label at the end of the active section,
/// hidden unless marked: the section must have room, the name must come
/// before any label or mnemonic of its line, and a parent must have been
/// declared in the section. Behind the mnemonic it qualifies a reference.
pub open spec fn spec_child_label(p: ProgramView, text: Seq<u8>) -> Result<ProgramView, AsmError> {
    if text.len() > MAX_NAME {
        Err(AsmError::IdentTooLong)
    } else {
        match p.ins {
            None => if p.current().labels.len() >= MAX_LABELS {
                Err(AsmError::TooManyLabels)
            } else if !p.start_line {
                Err(AsmError::ChildNotFirst)
            } else if p.current().last_parent is None {
                Err(AsmError::NoParent)
            } else {
                Ok(
                    p.with_current(
                        p.current().with_child(
                            match p.vis {
                                Some(vis) => vis,
                                None => Visibility::Hidden,
                            },
                            name_of(text),
                        ),
                    ),
                )
            },
            Some(ins) => spec_child_reference(p, ins, name_of(text)),
        }
    }
}

/// A child name, given by its text without the dot.
pub fn child_label(p: &mut Program, text: &[u8]) -> (r: Result<(), AsmError>)
    requires
        old(p)@.wf(),
    ensures
        handled(old(p)@, final(p)@, r, spec_child_label(old(p)@, text@)),
        final(p)@.wf(),
{
    if text.len() > MAX_NAME {
        return Err(AsmError::IdentTooLong);
    }
    let name = make_name(text);
    let active = p.active;
    let size = p.sections[active].code.len();
    match p.ins {
        None => {
            if p.sections[active].labels.len() >= MAX_LABELS {
                return Err(AsmError::TooManyLabels);
            }
            if !p.start_line {
                return Err(AsmError::ChildNotFirst);
            }
            let last = match p.sections[active].last_parent {
                None => return Err(AsmError::NoParent),
                Some(last) => last,
            };
            let vis = match p.vis {
                Some(vis) => vis,
                None => Visibility::Hidden,
            };
            let new = Label { vis, name, num_children: 0, offset: size };
            proof {
                let s = old(p)@.current();
                lemma_label_blocks(s.labels, 0, s.num_parents as nat, last as int);
                lemma_blocks_push_child(s.labels, 0, s.num_parents as nat, last as int, new);
            }
            let parent = p.sections[active].labels[last];
            p.sections[active].labels[last] = Label {
                num_children: parent.num_children + 1,
                ..parent
            };
            p.sections[active].labels.push(new);
            proof {
                let want = spec_child_label(old(p)@, text@)->Ok_0;
                assert(p@.sections[active as int].labels =~= want.sections[active as int].labels);
                assert(p@.sections =~= want.sections);
            }
            Ok(())
        },
        Some(ins) => {
            let next = match p.op {
                Some(OpState::Plain(OpVal::Ref(rf))) => match rf.child {
                    None => OpState::Plain(OpVal::Ref(Reference { child: Some(name), ..rf })),
                    Some(_) => return Err(AsmError::InvalidChild),
                },
                Some(OpState::Imme(OpVal::Ref(rf))) => match rf.child {
                    None => OpState::Imme(OpVal::Ref(Reference { child: Some(name), ..rf })),
                    Some(_) => return Err(AsmError::InvalidChild),
                },
                Some(OpState::MaybeInd(IndOp::Other(OpVal::Ref(rf)))) => match rf.child {
                    None => OpState::MaybeInd(
                        IndOp::Other(OpVal::Ref(Reference { child: Some(name), ..rf })),
                    ),
                    Some(_) => return Err(AsmError::InvalidChild),
                },
                None | Some(OpState::StartImme) | Some(OpState::StartInd) => {
                    let last = match p.sections[active].last_parent {
                        None => return Err(AsmError::NoParent),
                        Some(last) => last,
                    };
                    proof {
                        let s = old(p)@.current();
                        lemma_label_blocks(s.labels, 0, s.num_parents as nat, last as int);
                    }
                    let rf = Reference {
                        parent: p.sections[active].labels[last].name,
                        child: Some(name),
                        offset: if ins.is_directive() {
                            size
                        } else {
                            size + 1
                        },
                        which_byte: ByteSelect::Both,
                        branch: ins.is_branch(),
                    };
                    match start_reference(p.op, rf) {
                        Some(op) => {
                            p.begin_reference(op, rf);
                            proof {
                                lemma_reference_begun(old(p)@.current(), rf);
                            }
                            return Ok(());
                        },
                        None => return Err(AsmError::InvalidChild),
                    }
                },
                _ => return Err(AsmError::InvalidChild),
            };
            p.change_reference(next);
            proof {
                lemma_reference_changed(old(p)@.current(), next.spec_reference()->0);
            }
            Ok(())
        },
    }
}

/// An identifier of 32 bytes or more is refused in every state, as a
/// label and as a child name, before and behind the mnemonic.
pub proof fn lemma_long_identifier_refused(p: ProgramView, text: Seq<u8>)
    requires
        text.len() >= 32,
    ensures
        spec_label(p, text) == Err::<ProgramView, AsmError>(AsmError::IdentTooLong),
        spec_child_label(p, text) == Err::<ProgramView, AsmError>(AsmError::IdentTooLong),
{
}

/// A child label declared in a section that has no parent label yet is
/// refused in every state; where nothing else is wrong with it (the name
/// is short enough and no label or mnemonic stands before it on the line)
/// the error says that no parent label has been created yet.
pub proof fn lemma_child_needs_parent(p: ProgramView, text: Seq<u8>)
    requires
        p.wf(),
        p.ins is None,
        p.current().last_parent is None,
    ensures
        spec_child_label(p, text) is Err,
        text.len() <= MAX_NAME && p.start_line ==> spec_child_label(p, text) == Err::<
            ProgramView,
            AsmError,
        >(AsmError::NoParent),
{
    assert(p.current().wf());
}

} // verus!
