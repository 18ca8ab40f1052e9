//! The linker script: a text that says where the sections go.
//!
//! ```text
//! // a comment runs to the end of its line
//! 0x1000 text
//! data 0x100
//! one two 0x200
//! ```
//!
//! A line is an optional address, section names, and an optional size that
//! bounds the sections of the line together. A line without an address
//! starts at the address given last, or at 0 where none was given: the
//! address does not move on behind a line, so the sections of such a line
//! lie over those of the line before it.

use crate::callbacks::operands::{read_digits, spec_read_digits};
use crate::formats::{group_views, RelocGroup, RelocGroupView};
use crate::ir::{make_name, name_eq, name_of, MAX_NAME};
use crate::linker::listed_once;
use crate::token::{
    in_class, is_word_start, lemma_run_len_bound, run, run_len, spec_in_class,
    spec_is_word_start, CharClass,
};
use vstd::prelude::*;
use vstd::slice::slice_subrange;

verus! {

/// The kinds of token in a linker script.
#[derive(Clone, Copy, PartialEq, Eq, Structural, Debug)]
pub enum Token {
    /// A newline, or a comment up to and with its newline.
    Eol,
    /// A decimal number, or a hexadecimal one behind `0x`.
    Number,
    /// A section name.
    Ident,
    /// A byte at which no token starts.
    Error,
}

/// Why a script was refused.
#[derive(Clone, Copy, PartialEq, Eq, Structural, Debug)]
pub enum ScriptError {
    /// No token starts here, a number is above 65535, or a name is longer
    /// than 31 bytes.
    UnrecognizedToken,
    /// The section was listed before.
    DuplicateSection,
    /// Something other than the end of the line follows a size.
    ExpectedEol,
}

impl ScriptError {
    /// The text that says what is wrong.
    pub open spec fn spec_message(self) -> Seq<char> {
        match self {
            ScriptError::UnrecognizedToken => "unrecognized token"@,
            ScriptError::DuplicateSection => "section listed multiple times in the linker script"@,
            ScriptError::ExpectedEol => "expected end of line after group size"@,
        }
    }

    /// The text shown to the user for this error.
    pub fn message(self) -> (text: &'static str)
        ensures
            text@ == self.spec_message(),
    {
        match self {
            ScriptError::UnrecognizedToken => "unrecognized token",
            ScriptError::DuplicateSection => "section listed multiple times in the linker script",
            ScriptError::ExpectedEol => "expected end of line after group size",
        }
    }
}

impl ScriptError {
    /// The words that stand before the offending token in the sentence
    /// that tells of this error.
    pub open spec fn spec_before(self) -> Seq<char> {
        match self {
            ScriptError::UnrecognizedToken => "unrecognized token "@,
            ScriptError::DuplicateSection => "section "@,
            ScriptError::ExpectedEol => "expected end of line after group size, found "@,
        }
    }

    /// Gives the words that stand before the offending token.
    pub fn before(self) -> (text: &'static str)
        ensures
            text@ == self.spec_before(),
    {
        match self {
            ScriptError::UnrecognizedToken => "unrecognized token ",
            ScriptError::DuplicateSection => "section ",
            ScriptError::ExpectedEol => "expected end of line after group size, found ",
        }
    }

    /// The words that stand behind the offending token in the sentence
    /// that tells of this error.
    pub open spec fn spec_after(self) -> Seq<char> {
        match self {
            ScriptError::UnrecognizedToken => ""@,
            ScriptError::DuplicateSection => " listed multiple times in the linker script"@,
            ScriptError::ExpectedEol => ""@,
        }
    }

    /// Gives the words that stand behind the offending token.
    pub fn after(self) -> (text: &'static str)
        ensures
            text@ == self.spec_after(),
    {
        match self {
            ScriptError::UnrecognizedToken => "",
            ScriptError::DuplicateSection => " listed multiple times in the linker script",
            ScriptError::ExpectedEol => "",
        }
    }
}

/// A refused script: the error, the line it is on, and where in the text
/// the offending token starts and ends.
#[derive(Clone, Copy, PartialEq, Eq, Structural, Debug)]
pub struct ScriptFailure {
    pub line: usize,
    pub error: ScriptError,
    pub start: usize,
    pub end: usize,
}

/// The token that starts at `pos`, and its length in bytes. The longest
/// match wins, so `0x` with hexadecimal digits behind it is one number. A
/// comment needs its newline.
pub open spec fn spec_script_token(src: Seq<u8>, pos: int) -> (Token, nat)
    recommends
        0 <= pos < src.len(),
{
    let c = src[pos];
    if c == '\n' as u8 {
        (Token::Eol, 1)
    } else if c == '/' as u8 {
        let n = run_len(src, pos + 2, CharClass::Comment);
        if pos + 1 < src.len() && src[pos + 1] == '/' as u8 && pos + 2 + n < src.len() {
            (Token::Eol, n + 3)
        } else {
            (Token::Error, 1)
        }
    } else if spec_in_class(c, CharClass::Dec) {
        let n = run_len(src, pos + 2, CharClass::Hex);
        if c == '0' as u8 && pos + 1 < src.len() && src[pos + 1] == 'x' as u8 && n > 0 {
            (Token::Number, 2 + n)
        } else {
            (Token::Number, 1 + run_len(src, pos + 1, CharClass::Dec))
        }
    } else if spec_is_word_start(c) {
        (Token::Ident, 1 + run_len(src, pos + 1, CharClass::Word))
    } else {
        (Token::Error, 1)
    }
}

/// A token is at least one byte long and ends inside the text.
pub proof fn lemma_script_token_len(src: Seq<u8>, pos: int)
    requires
        0 <= pos < src.len(),
    ensures
        1 <= spec_script_token(src, pos).1,
        pos + spec_script_token(src, pos).1 <= src.len(),
{
    lemma_run_len_bound(src, pos + 1, CharClass::Dec);
    lemma_run_len_bound(src, pos + 1, CharClass::Word);
    if pos + 2 <= src.len() {
        lemma_run_len_bound(src, pos + 2, CharClass::Comment);
        lemma_run_len_bound(src, pos + 2, CharClass::Hex);
    }
}

/// Reads the token that starts at `pos`.
pub fn script_token(src: &[u8], pos: usize) -> (r: (Token, usize))
    requires
        pos < src@.len(),
    ensures
        r.0 == spec_script_token(src@, pos as int).0,
        r.1 == spec_script_token(src@, pos as int).1,
        1 <= r.1,
        pos + r.1 <= src@.len(),
{
    let len = src.len();
    let c = src[pos];
    if c == '\n' as u8 {
        (Token::Eol, 1)
    } else if c == '/' as u8 {
        if pos + 1 < len && src[pos + 1] == '/' as u8 {
            let n = run(src, pos + 2, CharClass::Comment);
            if pos + 2 + n < len {
                (Token::Eol, n + 3)
            } else {
                (Token::Error, 1)
            }
        } else {
            (Token::Error, 1)
        }
    } else if in_class(c, CharClass::Dec) {
        if c == '0' as u8 && pos + 1 < len && src[pos + 1] == 'x' as u8 {
            let n = run(src, pos + 2, CharClass::Hex);
            if n > 0 {
                return (Token::Number, 2 + n);
            }
        }
        (Token::Number, 1 + run(src, pos + 1, CharClass::Dec))
    } else if is_word_start(c) {
        (Token::Ident, 1 + run(src, pos + 1, CharClass::Word))
    } else {
        (Token::Error, 1)
    }
}

/// The value of a number token: hexadecimal behind `0x`, decimal
/// otherwise, and at most 65535.
pub open spec fn spec_script_number(text: Seq<u8>) -> Option<usize> {
    let read = if text.len() >= 2 && text[0] == '0' as u8 && text[1] == 'x' as u8 {
        spec_read_digits(text.skip(2), 16)
    } else {
        spec_read_digits(text, 10)
    };
    match read {
        Some(n) => Some(n as usize),
        None => None,
    }
}

/// Reads the value of a number token.
pub fn script_number(text: &[u8]) -> (r: Option<usize>)
    ensures
        r == spec_script_number(text@),
{
    let read = if text.len() >= 2 && text[0] == '0' as u8 && text[1] == 'x' as u8 {
        let digits = slice_subrange(text, 2, text.len());
        assert(digits@ =~= text@.skip(2));
        read_digits(digits, 16)
    } else {
        read_digits(text, 10)
    };
    match read {
        Some(n) => Some(n as usize),
        None => None,
    }
}

/// The state of reading a script, as a mathematical value.
pub struct ScriptView {
    /// The groups of the lines read so far.
    pub groups: Seq<RelocGroupView>,
    /// The group of the line being read, once it has a token.
    pub open: Option<RelocGroupView>,
    /// The address given last.
    pub cursor: usize,
    /// The number of the line being read, from 1.
    pub line: usize,
    /// Every section name listed so far.
    pub names: Seq<[u8; 32]>,
}

impl ScriptView {
    /// The state before the first line.
    pub open spec fn initial() -> ScriptView {
        ScriptView { groups: Seq::empty(), open: None, cursor: 0, line: 1, names: Seq::empty() }
    }

    /// The group of the current line, empty at the cursor if the line has
    /// no token yet.
    pub open spec fn group(self) -> RelocGroupView {
        match self.open {
            Some(g) => g,
            None => RelocGroupView {
                relocations: Seq::empty(),
                address: self.cursor,
                max_size: None,
            },
        }
    }

    /// The state after the end of a line: its group, if it has one, joins
    /// the list.
    pub open spec fn close_line(self) -> ScriptView {
        ScriptView {
            groups: match self.open {
                Some(g) => self.groups.push(g),
                None => self.groups,
            },
            open: None,
            line: if self.line < usize::MAX {
                (self.line + 1) as usize
            } else {
                self.line
            },
            ..self
        }
    }
}

/// The state after a token. The end of a line closes its group. Behind a
/// size nothing but the end of the line may follow. A number at the start
/// of a line is the address of its group and the new cursor; a number
/// later in the line is the size of its group. A name joins the group of
/// its line, unless it was listed before.
pub open spec fn spec_script_step(s: ScriptView, token: Token, text: Seq<u8>) -> Result<
    ScriptView,
    ScriptError,
> {
    if token == Token::Eol {
        Ok(s.close_line())
    } else if s.group().max_size is Some {
        Err(ScriptError::ExpectedEol)
    } else if token == Token::Number {
        match spec_script_number(text) {
            None => Err(ScriptError::UnrecognizedToken),
            Some(n) => Ok(
                match s.open {
                    None => ScriptView {
                        cursor: n,
                        open: Some(
                            RelocGroupView {
                                relocations: Seq::empty(),
                                address: n,
                                max_size: None,
                            },
                        ),
                        ..s
                    },
                    Some(g) => ScriptView {
                        open: Some(RelocGroupView { max_size: Some(n), ..g }),
                        ..s
                    },
                },
            ),
        }
    } else if token == Token::Ident {
        if text.len() > MAX_NAME {
            Err(ScriptError::UnrecognizedToken)
        } else if s.names.contains(name_of(text)) {
            Err(ScriptError::DuplicateSection)
        } else {
            Ok(
                ScriptView {
                    open: Some(
                        RelocGroupView {
                            relocations: s.group().relocations.push(name_of(text)),
                            ..s.group()
                        },
                    ),
                    names: s.names.push(name_of(text)),
                    ..s
                },
            )
        }
    } else {
        Err(ScriptError::UnrecognizedToken)
    }
}

/// The groups that the script gives when read from `pos` on in state `s`:
/// blanks are skipped, the first refusal ends the reading, and the end of
/// the text ends the last line.
pub open spec fn spec_script_run(src: Seq<u8>, pos: int, s: ScriptView) -> Result<
    Seq<RelocGroupView>,
    ScriptFailure,
>
    decreases src.len() - pos,
{
    let start = pos + run_len(src, pos, CharClass::Blank);
    if pos < 0 || start >= src.len() {
        Ok(s.close_line().groups)
    } else {
        let (token, n) = spec_script_token(src, start);
        match spec_script_step(s, token, src.subrange(start, start + n)) {
            Ok(next) => {
                proof {
                    lemma_script_token_len(src, start);
                }
                spec_script_run(src, start + n, next)
            },
            Err(e) => Err(
                ScriptFailure {
                    line: s.line,
                    error: e,
                    start: start as usize,
                    end: (start + n) as usize,
                },
            ),
        }
    }
}

/// The groups of a whole script, in the order of its lines.
pub open spec fn spec_read_script(src: Seq<u8>) -> Result<Seq<RelocGroupView>, ScriptFailure> {
    spec_script_run(src, 0, ScriptView::initial())
}

struct Script {
    groups: Vec<RelocGroup>,
    open: bool,
    relocations: Vec<[u8; 32]>,
    address: usize,
    max_size: Option<usize>,
    cursor: usize,
    line: usize,
    names: Vec<[u8; 32]>,
}

impl View for Script {
    type V = ScriptView;

    closed spec fn view(&self) -> ScriptView {
        ScriptView {
            groups: group_views(self.groups@),
            open: if self.open {
                Some(
                    RelocGroupView {
                        relocations: self.relocations@,
                        address: self.address,
                        max_size: self.max_size,
                    },
                )
            } else {
                None
            },
            cursor: self.cursor,
            line: self.line,
            names: self.names@,
        }
    }
}

impl Script {
    spec fn wf(&self) -> bool {
        !self.open ==> self.relocations@.len() == 0 && self.max_size is None
    }
}

fn listed(names: &Vec<[u8; 32]>, name: &[u8; 32]) -> (r: bool)
    ensures
        r == names@.contains(*name),
{
    let mut i: usize = 0;
    while i < names.len()
        invariant
            i <= names@.len(),
            forall|j: int| 0 <= j < i ==> names@[j] != *name,
        decreases names@.len() - i,
    {
        if name_eq(&names[i], name) {
            return true;
        }
        i += 1;
    }
    false
}

fn close_line(s: &mut Script)
    requires
        old(s).wf(),
    ensures
        final(s).wf(),
        final(s)@ == old(s)@.close_line(),
{
    if s.open {
        let mut relocations: Vec<[u8; 32]> = Vec::new();
        core::mem::swap(&mut relocations, &mut s.relocations);
        let group = RelocGroup { relocations, address: s.address, max_size: s.max_size };
        s.groups.push(group);
        s.open = false;
        s.max_size = None;
        assert(group_views(s.groups@) =~= group_views(old(s).groups@).push(old(s)@.open->0));
    }
    if s.line < usize::MAX {
        s.line = s.line + 1;
    }
}

fn script_step(s: &mut Script, token: Token, text: &[u8]) -> (r: Result<(), ScriptError>)
    requires
        old(s).wf(),
    ensures
        final(s).wf(),
        match spec_script_step(old(s)@, token, text@) {
            Ok(next) => r is Ok && final(s)@ == next,
            Err(e) => r == Err::<(), ScriptError>(e) && final(s)@ == old(s)@,
        },
{
    match token {
        Token::Eol => {
            close_line(s);
            return Ok(());
        },
        _ => {},
    }
    if s.max_size.is_some() {
        return Err(ScriptError::ExpectedEol);
    }
    match token {
        Token::Number => {
            let n = match script_number(text) {
                None => return Err(ScriptError::UnrecognizedToken),
                Some(n) => n,
            };
            if s.open {
                s.max_size = Some(n);
            } else {
                assert(s.relocations@ =~= Seq::empty());
                s.cursor = n;
                s.address = n;
                s.open = true;
            }
            Ok(())
        },
        Token::Ident => {
            if text.len() > MAX_NAME {
                return Err(ScriptError::UnrecognizedToken);
            }
            let name = make_name(text);
            if listed(&s.names, &name) {
                return Err(ScriptError::DuplicateSection);
            }
            if !s.open {
                assert(s.relocations@ =~= Seq::empty());
                s.address = s.cursor;
                s.open = true;
            }
            s.relocations.push(name);
            s.names.push(name);
            Ok(())
        },
        _ => Err(ScriptError::UnrecognizedToken),
    }
}

/// Reads the rest of a line into its group.
fn read_group(src: &[u8], from: usize, s: &mut Script) -> (r: Result<usize, ScriptFailure>)
    requires
        from <= src@.len(),
        old(s).wf(),
    ensures
        final(s).wf(),
        match r {
            Ok(next) => from <= next <= src@.len() && !final(s).open && spec_script_run(
                src@,
                next as int,
                final(s)@,
            ) == spec_script_run(src@, from as int, old(s)@),
            Err(f) => spec_script_run(src@, from as int, old(s)@) == Err::<
                Seq<RelocGroupView>,
                ScriptFailure,
            >(f),
        },
{
    let len = src.len();
    let mut pos = from;
    while s.open
        invariant
            from <= pos <= len == src@.len(),
            s.wf(),
            spec_script_run(src@, pos as int, s@) == spec_script_run(
                src@,
                from as int,
                old(s)@,
            ),
        decreases len - pos,
    {
        let start = pos + run(src, pos, CharClass::Blank);
        if start >= len {
            let ghost before = s@;
            close_line(s);
            proof {
                assert(spec_script_run(src@, pos as int, before) == Ok::<
                    Seq<RelocGroupView>,
                    ScriptFailure,
                >(before.close_line().groups));
                assert(run_len(src@, len as int, CharClass::Blank) == 0);
                assert(s@.close_line().groups == s@.groups);
            }
            return Ok(len);
        }
        let (token, n) = script_token(src, start);
        let text = slice_subrange(src, start, start + n);
        let line = s.line;
        match script_step(s, token, text) {
            Ok(()) => {},
            Err(e) => {
                return Err(ScriptFailure { line, error: e, start, end: start + n });
            },
        }
        pos = start + n;
    }
    Ok(pos)
}

/// Reads a linker script into its relocation groups.
pub fn read_script(script: &[u8]) -> (r: Result<Vec<RelocGroup>, ScriptFailure>)
    ensures
        match spec_read_script(script@) {
            Ok(groups) => r is Ok && group_views(r->Ok_0@) == groups,
            Err(f) => r == Err::<Vec<RelocGroup>, ScriptFailure>(f),
        },
{
    let mut s = Script {
        groups: Vec::new(),
        open: false,
        relocations: Vec::new(),
        address: 0,
        max_size: None,
        cursor: 0,
        line: 1,
        names: Vec::new(),
    };
    assert(s@.groups =~= ScriptView::initial().groups);
    let len = script.len();
    let mut pos: usize = 0;
    loop
        invariant
            pos <= len == script@.len(),
            s.wf(),
            !s.open,
            spec_script_run(script@, pos as int, s@) == spec_read_script(script@),
        ensures
            pos + run_len(script@, pos as int, CharClass::Blank) >= len,
        decreases len - pos,
    {
        let start = pos + run(script, pos, CharClass::Blank);
        if start >= len {
            break ;
        }
        let (token, n) = script_token(script, start);
        let text = slice_subrange(script, start, start + n);
        let line = s.line;
        match script_step(&mut s, token, text) {
            Ok(()) => {},
            Err(e) => {
                return Err(ScriptFailure { line, error: e, start, end: start + n });
            },
        }
        pos = read_group(script, start + n, &mut s)?;
    }
    Ok(s.groups)
}

/// The section names of the first `k` groups, in the order they are listed.
pub open spec fn listed_names(groups: Seq<RelocGroupView>, k: int) -> Seq<[u8; 32]>
    decreases k,
{
    if k <= 0 {
        Seq::empty()
    } else {
        listed_names(groups, k - 1) + groups[k - 1].relocations
    }
}

/// Whether the state knows every name that is listed, each once: the
/// names listed in the groups and on the current line are the names seen,
/// and no name was seen twice.
pub open spec fn names_tracked(s: ScriptView) -> bool {
    &&& s.names.no_duplicates()
    &&& listed_names(s.groups, s.groups.len() as int) + s.group().relocations == s.names
}

proof fn lemma_listed_names_prefix(a: Seq<RelocGroupView>, b: Seq<RelocGroupView>, k: int)
    requires
        k <= a.len(),
        k <= b.len(),
        forall|i: int| 0 <= i < k ==> a[i] == b[i],
    ensures
        listed_names(a, k) == listed_names(b, k),
    decreases k,
{
    if k > 0 {
        lemma_listed_names_prefix(a, b, k - 1);
    }
}

proof fn lemma_step_tracks_names(s: ScriptView, token: Token, text: Seq<u8>)
    requires
        names_tracked(s),
    ensures
        spec_script_step(s, token, text) matches Ok(next) ==> names_tracked(next),
        names_tracked(s.close_line()),
        listed_names(s.close_line().groups, s.close_line().groups.len() as int) == s.names,
{
    let listed = listed_names(s.groups, s.groups.len() as int);
    let closed = s.close_line();
    match s.open {
        Some(g) => {
            lemma_listed_names_prefix(s.groups, closed.groups, s.groups.len() as int);
            assert(listed_names(closed.groups, closed.groups.len() as int) == listed
                + g.relocations);
        },
        None => {
            assert(listed + Seq::<[u8; 32]>::empty() =~= listed);
        },
    }
    assert(listed_names(closed.groups, closed.groups.len() as int) + Seq::<[u8; 32]>::empty()
        =~= listed_names(closed.groups, closed.groups.len() as int));
    if let Ok(next) = spec_script_step(s, token, text) {
        if token == Token::Number {
            assert(next.group().relocations == s.group().relocations);
        } else if token == Token::Ident {
            let name = name_of(text);
            assert(listed + s.group().relocations.push(name) =~= (listed
                + s.group().relocations).push(name));
            assert(next.names.no_duplicates()) by {
                assert forall|i: int, j: int|
                    0 <= i < next.names.len() && 0 <= j < next.names.len() && i
                        != j implies next.names[i] != next.names[j] by {
                    if i < s.names.len() && j < s.names.len() {
                    } else if i < s.names.len() {
                        assert(s.names.contains(s.names[i]));
                    } else {
                        assert(s.names.contains(s.names[j]));
                    }
                }
            }
        }
    }
}

/// The names that the identifiers of the script from `pos` on spell, in
/// their order.
pub open spec fn script_names(src: Seq<u8>, pos: int) -> Seq<[u8; 32]>
    decreases src.len() - pos,
{
    let start = pos + run_len(src, pos, CharClass::Blank);
    if pos < 0 || start >= src.len() {
        Seq::empty()
    } else {
        let (token, n) = spec_script_token(src, start);
        let rest = {
            proof {
                lemma_script_token_len(src, start);
            }
            script_names(src, start + n)
        };
        if token == Token::Ident {
            seq![name_of(src.subrange(start, start + n))] + rest
        } else {
            rest
        }
    }
}

proof fn lemma_run_tracks_names(src: Seq<u8>, pos: int, s: ScriptView)
    requires
        names_tracked(s),
    ensures
        spec_script_run(src, pos, s) matches Ok(groups) ==> {
            let listed = listed_names(groups, groups.len() as int);
            listed.no_duplicates() && listed == s.names + script_names(src, pos)
        },
    decreases src.len() - pos,
{
    let start = pos + run_len(src, pos, CharClass::Blank);
    if pos < 0 || start >= src.len() {
        lemma_step_tracks_names(s, Token::Eol, Seq::empty());
        assert(s.names + Seq::<[u8; 32]>::empty() =~= s.names);
    } else {
        let (token, n) = spec_script_token(src, start);
        let text = src.subrange(start, start + n);
        lemma_step_tracks_names(s, token, text);
        lemma_script_token_len(src, start);
        if let Ok(next) = spec_script_step(s, token, text) {
            lemma_run_tracks_names(src, start + n, next);
            if token == Token::Ident {
                assert(s.names.push(name_of(text)) + script_names(src, start + n) =~= s.names + (
                seq![name_of(text)] + script_names(src, start + n)));
            }
        }
    }
}

/// A script that is accepted lists every section once: the names of its
/// groups are the names that its identifiers spell, in their order, and
/// no two of them are equal.
pub proof fn lemma_script_names_distinct(src: Seq<u8>)
    ensures
        spec_read_script(src) matches Ok(groups) ==> {
            let listed = listed_names(groups, groups.len() as int);
            listed.no_duplicates() && listed == script_names(src, 0)
        },
{
    assert(Seq::<[u8; 32]>::empty() + Seq::<[u8; 32]>::empty() =~= Seq::<[u8; 32]>::empty());
    lemma_run_tracks_names(src, 0, ScriptView::initial());
    assert(Seq::<[u8; 32]>::empty() + script_names(src, 0) =~= script_names(src, 0));
}

/// A script that lists the same section name twice, anywhere, is refused.
pub proof fn lemma_section_twice_refused(src: Seq<u8>)
    requires
        !script_names(src, 0).no_duplicates(),
    ensures
        spec_read_script(src) is Err,
{
    lemma_script_names_distinct(src);
}

proof fn lemma_listed_at(groups: Seq<RelocGroupView>, k: int, g: int, j: int)
    requires
        0 <= g < k <= groups.len(),
        0 <= j < groups[g].relocations.len(),
    ensures
        listed_names(groups, g).len() + groups[g].relocations.len() <= listed_names(
            groups,
            k,
        ).len(),
        listed_names(groups, k)[listed_names(groups, g).len() + j] == groups[g].relocations[j],
    decreases k,
{
    if k > g + 1 {
        lemma_listed_at(groups, k - 1, g, j);
    }
}

/// A script that is accepted lists no section name twice: whichever two
/// places of its groups one takes, the names there differ.
pub proof fn lemma_script_lists_once(src: Seq<u8>)
    ensures
        spec_read_script(src) matches Ok(groups) ==> listed_once(groups),
{
    if let Ok(groups) = spec_read_script(src) {
        let all = listed_names(groups, groups.len() as int);
        lemma_script_names_distinct(src);
        assert forall|g: int, j: int, h: int, k: int|
            0 <= g < groups.len() && 0 <= j < groups[g].relocations.len() && 0 <= h < groups.len()
                && 0 <= k < groups[h].relocations.len() && (g != h || j != k) implies (
        #[trigger] groups[g].relocations[j]) != (#[trigger] groups[h].relocations[k]) by {
            lemma_listed_at(groups, groups.len() as int, g, j);
            lemma_listed_at(groups, groups.len() as int, h, k);
            let p = listed_names(groups, g).len() + j;
            let q = listed_names(groups, h).len() + k;
            if g < h {
                lemma_listed_at(groups, h, g, j);
            } else if h < g {
                lemma_listed_at(groups, g, h, k);
            }
            assert(p != q);
            assert(all[p] != all[q]);
        }
    }
}

} // verus!
