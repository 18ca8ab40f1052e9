//! The lexical scanner: which token starts at a position of the source
//! text, and how long it is.

use crate::ir::Mnemonic;
use crate::letters::{A, B, C, D, E, F, H, I, J, K, L, M, N, O, P, Q, R, S, T, V, W, X, Y};
use vstd::prelude::*;

verus! {

/// The kinds of token. The text of a token says which number or name it is.
#[derive(Clone, Copy, PartialEq, Eq, Structural, Debug)]
pub enum Token {
    /// A mnemonic keyword.
    Mnem(Mnemonic),
    /// `a`
    A,
    /// `x`
    X,
    /// `y`
    Y,
    /// `,`
    Comma,
    /// `#`
    Imme,
    /// `(`
    Lparen,
    /// `)`
    Rparen,
    /// `<`
    ByteHi,
    /// `>`
    ByteLo,
    /// `!`
    VisObj,
    /// `!!`
    VisGlobal,
    /// A numeric literal with its radix prefix.
    Num,
    /// An identifier, or a dot and a child name.
    Ident,
    /// A newline, or a comment up to and with its newline.
    Eol,
    /// A byte at which no token starts.
    Error,
}

/// The sets of bytes that runs are made of.
#[derive(Clone, Copy, PartialEq, Eq, Structural, Debug)]
pub enum CharClass {
    /// Space and tab.
    Blank,
    /// `0` to `9`
    Dec,
    /// `0` to `9`, `a` to `f`, `A` to `F`
    Hex,
    /// `0` and `1`
    Bin,
    /// `0` to `7`
    Oct,
    /// Letters, digits and the underscore.
    Word,
    /// Everything but the newline.
    Comment,
}

/// Whether a byte is a letter or the underscore.
pub open spec fn spec_is_word_start(c: u8) -> bool {
    ('a' as u8 <= c <= 'z' as u8) || ('A' as u8 <= c <= 'Z' as u8) || c == '_' as u8
}

/// Tests a byte for a letter or the underscore.
#[verifier::when_used_as_spec(spec_is_word_start)]
pub fn is_word_start(c: u8) -> (r: bool)
    ensures
        r == spec_is_word_start(c),
{
    ('a' as u8 <= c && c <= 'z' as u8) || ('A' as u8 <= c && c <= 'Z' as u8) || c == '_' as u8
}

/// Whether a byte belongs to a class.
pub open spec fn spec_in_class(c: u8, class: CharClass) -> bool {
    match class {
        CharClass::Blank => c == ' ' as u8 || c == '\t' as u8,
        CharClass::Dec => '0' as u8 <= c <= '9' as u8,
        CharClass::Hex => ('0' as u8 <= c <= '9' as u8) || ('a' as u8 <= c <= 'f' as u8) || (
        'A' as u8 <= c <= 'F' as u8),
        CharClass::Bin => c == '0' as u8 || c == '1' as u8,
        CharClass::Oct => '0' as u8 <= c <= '7' as u8,
        CharClass::Word => spec_is_word_start(c) || ('0' as u8 <= c <= '9' as u8),
        CharClass::Comment => c != '\n' as u8,
    }
}

/// Tests a byte for a class.
#[verifier::when_used_as_spec(spec_in_class)]
pub fn in_class(c: u8, class: CharClass) -> (r: bool)
    ensures
        r == spec_in_class(c, class),
{
    match class {
        CharClass::Blank => c == ' ' as u8 || c == '\t' as u8,
        CharClass::Dec => '0' as u8 <= c && c <= '9' as u8,
        CharClass::Hex => ('0' as u8 <= c && c <= '9' as u8) || ('a' as u8 <= c && c
            <= 'f' as u8) || ('A' as u8 <= c && c <= 'F' as u8),
        CharClass::Bin => c == '0' as u8 || c == '1' as u8,
        CharClass::Oct => '0' as u8 <= c && c <= '7' as u8,
        CharClass::Word => is_word_start(c) || ('0' as u8 <= c && c <= '9' as u8),
        CharClass::Comment => c != '\n' as u8,
    }
}

/// The number of bytes from `pos` on that belong to the class, up to the
/// first that does not.
pub open spec fn run_len(src: Seq<u8>, pos: int, class: CharClass) -> nat
    decreases src.len() - pos,
{
    if 0 <= pos < src.len() && spec_in_class(src[pos], class) {
        1 + run_len(src, pos + 1, class)
    } else {
        0
    }
}

/// A run ends inside the text.
pub proof fn lemma_run_len_bound(src: Seq<u8>, pos: int, class: CharClass)
    requires
        0 <= pos <= src.len(),
    ensures
        pos + run_len(src, pos, class) <= src.len(),
    decreases src.len() - pos,
{
    if pos < src.len() && spec_in_class(src[pos], class) {
        lemma_run_len_bound(src, pos + 1, class);
    }
}

/// A stretch of bytes of the class that ends the text, or is followed by a
/// byte outside the class, is a run.
pub proof fn lemma_run_len_is(src: Seq<u8>, pos: int, n: nat, class: CharClass)
    requires
        0 <= pos,
        pos + n <= src.len(),
        forall|i: int| pos <= i < pos + n ==> spec_in_class(#[trigger] src[i], class),
        pos + n == src.len() || !spec_in_class(src[pos + n], class),
    ensures
        run_len(src, pos, class) == n,
    decreases n,
{
    if n > 0 {
        lemma_run_len_is(src, pos + 1, (n - 1) as nat, class);
    }
}

/// Measures the run of a class from `pos` on.
pub fn run(src: &[u8], pos: usize, class: CharClass) -> (n: usize)
    requires
        pos <= src@.len(),
    ensures
        n == run_len(src@, pos as int, class),
        pos + n <= src@.len(),
{
    let mut i: usize = pos;
    while i < src.len() && in_class(src[i], class)
        invariant
            pos <= i <= src@.len(),
            run_len(src@, pos as int, class) == (i - pos) + run_len(src@, i as int, class),
        decreases src@.len() - i,
    {
        i += 1;
    }
    i - pos
}

/// The mnemonic that three lower-case letters spell.
pub open spec fn spec_keyword(a: u8, b: u8, c: u8) -> Option<Mnemonic> {
    match (a, b, c) {
        (A, D, C) => Some(Mnemonic::Adc),
        (A, N, D) => Some(Mnemonic::And),
        (A, S, L) => Some(Mnemonic::Asl),
        (B, C, C) => Some(Mnemonic::Bcc),
        (B, C, S) => Some(Mnemonic::Bcs),
        (B, E, Q) => Some(Mnemonic::Beq),
        (B, I, T) => Some(Mnemonic::Bit),
        (B, M, I) => Some(Mnemonic::Bmi),
        (B, N, E) => Some(Mnemonic::Bne),
        (B, P, L) => Some(Mnemonic::Bpl),
        (B, R, K) => Some(Mnemonic::Brk),
        (B, V, C) => Some(Mnemonic::Bvc),
        (B, V, S) => Some(Mnemonic::Bvs),
        (C, L, C) => Some(Mnemonic::Clc),
        (C, L, D) => Some(Mnemonic::Cld),
        (C, L, I) => Some(Mnemonic::Cli),
        (C, L, V) => Some(Mnemonic::Clv),
        (C, M, P) => Some(Mnemonic::Cmp),
        (C, P, X) => Some(Mnemonic::Cpx),
        (C, P, Y) => Some(Mnemonic::Cpy),
        (D, E, C) => Some(Mnemonic::Dec),
        (D, E, X) => Some(Mnemonic::Dex),
        (D, E, Y) => Some(Mnemonic::Dey),
        (E, O, R) => Some(Mnemonic::Eor),
        (I, N, C) => Some(Mnemonic::Inc),
        (I, N, X) => Some(Mnemonic::Inx),
        (I, N, Y) => Some(Mnemonic::Iny),
        (J, M, P) => Some(Mnemonic::Jmp),
        (J, S, R) => Some(Mnemonic::Jsr),
        (L, D, A) => Some(Mnemonic::Lda),
        (L, D, X) => Some(Mnemonic::Ldx),
        (L, D, Y) => Some(Mnemonic::Ldy),
        (L, S, R) => Some(Mnemonic::Lsr),
        (N, O, P) => Some(Mnemonic::Nop),
        (O, R, A) => Some(Mnemonic::Ora),
        (P, H, A) => Some(Mnemonic::Pha),
        (P, H, P) => Some(Mnemonic::Php),
        (P, L, A) => Some(Mnemonic::Pla),
        (P, L, P) => Some(Mnemonic::Plp),
        (R, O, L) => Some(Mnemonic::Rol),
        (R, O, R) => Some(Mnemonic::Ror),
        (R, T, I) => Some(Mnemonic::Rti),
        (R, T, S) => Some(Mnemonic::Rts),
        (S, B, C) => Some(Mnemonic::Sbc),
        (S, E, C) => Some(Mnemonic::Sec),
        (S, E, D) => Some(Mnemonic::Sed),
        (S, E, I) => Some(Mnemonic::Sei),
        (S, T, A) => Some(Mnemonic::Sta),
        (S, T, X) => Some(Mnemonic::Stx),
        (S, T, Y) => Some(Mnemonic::Sty),
        (T, A, X) => Some(Mnemonic::Tax),
        (T, A, Y) => Some(Mnemonic::Tay),
        (T, S, X) => Some(Mnemonic::Tsx),
        (T, X, A) => Some(Mnemonic::Txa),
        (T, X, S) => Some(Mnemonic::Txs),
        (T, Y, A) => Some(Mnemonic::Tya),
        (D, F, B) => Some(Mnemonic::Dfb),
        (D, F, W) => Some(Mnemonic::Dfw),
        (H, L, T) => Some(Mnemonic::Hlt),
        (S, C, T) => Some(Mnemonic::Sct),
        _ => None,
    }
}

/// Looks up the mnemonic that three letters spell.
#[verifier::when_used_as_spec(spec_keyword)]
pub fn keyword(a: u8, b: u8, c: u8) -> (r: Option<Mnemonic>)
    ensures
        r == spec_keyword(a, b, c),
{
    match (a, b, c) {
        (A, D, C) => Some(Mnemonic::Adc),
        (A, N, D) => Some(Mnemonic::And),
        (A, S, L) => Some(Mnemonic::Asl),
        (B, C, C) => Some(Mnemonic::Bcc),
        (B, C, S) => Some(Mnemonic::Bcs),
        (B, E, Q) => Some(Mnemonic::Beq),
        (B, I, T) => Some(Mnemonic::Bit),
        (B, M, I) => Some(Mnemonic::Bmi),
        (B, N, E) => Some(Mnemonic::Bne),
        (B, P, L) => Some(Mnemonic::Bpl),
        (B, R, K) => Some(Mnemonic::Brk),
        (B, V, C) => Some(Mnemonic::Bvc),
        (B, V, S) => Some(Mnemonic::Bvs),
        (C, L, C) => Some(Mnemonic::Clc),
        (C, L, D) => Some(Mnemonic::Cld),
        (C, L, I) => Some(Mnemonic::Cli),
        (C, L, V) => Some(Mnemonic::Clv),
        (C, M, P) => Some(Mnemonic::Cmp),
        (C, P, X) => Some(Mnemonic::Cpx),
        (C, P, Y) => Some(Mnemonic::Cpy),
        (D, E, C) => Some(Mnemonic::Dec),
        (D, E, X) => Some(Mnemonic::Dex),
        (D, E, Y) => Some(Mnemonic::Dey),
        (E, O, R) => Some(Mnemonic::Eor),
        (I, N, C) => Some(Mnemonic::Inc),
        (I, N, X) => Some(Mnemonic::Inx),
        (I, N, Y) => Some(Mnemonic::Iny),
        (J, M, P) => Some(Mnemonic::Jmp),
        (J, S, R) => Some(Mnemonic::Jsr),
        (L, D, A) => Some(Mnemonic::Lda),
        (L, D, X) => Some(Mnemonic::Ldx),
        (L, D, Y) => Some(Mnemonic::Ldy),
        (L, S, R) => Some(Mnemonic::Lsr),
        (N, O, P) => Some(Mnemonic::Nop),
        (O, R, A) => Some(Mnemonic::Ora),
        (P, H, A) => Some(Mnemonic::Pha),
        (P, H, P) => Some(Mnemonic::Php),
        (P, L, A) => Some(Mnemonic::Pla),
        (P, L, P) => Some(Mnemonic::Plp),
        (R, O, L) => Some(Mnemonic::Rol),
        (R, O, R) => Some(Mnemonic::Ror),
        (R, T, I) => Some(Mnemonic::Rti),
        (R, T, S) => Some(Mnemonic::Rts),
        (S, B, C) => Some(Mnemonic::Sbc),
        (S, E, C) => Some(Mnemonic::Sec),
        (S, E, D) => Some(Mnemonic::Sed),
        (S, E, I) => Some(Mnemonic::Sei),
        (S, T, A) => Some(Mnemonic::Sta),
        (S, T, X) => Some(Mnemonic::Stx),
        (S, T, Y) => Some(Mnemonic::Sty),
        (T, A, X) => Some(Mnemonic::Tax),
        (T, A, Y) => Some(Mnemonic::Tay),
        (T, S, X) => Some(Mnemonic::Tsx),
        (T, X, A) => Some(Mnemonic::Txa),
        (T, X, S) => Some(Mnemonic::Txs),
        (T, Y, A) => Some(Mnemonic::Tya),
        (D, F, B) => Some(Mnemonic::Dfb),
        (D, F, W) => Some(Mnemonic::Dfw),
        (H, L, T) => Some(Mnemonic::Hlt),
        (S, C, T) => Some(Mnemonic::Sct),
        _ => None,
    }
}

/// The token that a whole word is: a register letter, a mnemonic, or else
/// an identifier.
pub open spec fn spec_word_token(word: Seq<u8>) -> Token {
    if word.len() == 1 && word[0] == 'a' as u8 {
        Token::A
    } else if word.len() == 1 && word[0] == 'x' as u8 {
        Token::X
    } else if word.len() == 1 && word[0] == 'y' as u8 {
        Token::Y
    } else if word.len() == 3 {
        match spec_keyword(word[0], word[1], word[2]) {
            Some(ins) => Token::Mnem(ins),
            None => Token::Ident,
        }
    } else {
        Token::Ident
    }
}

/// A radix prefix with the run of its digits behind it, which must not be empty.
pub open spec fn spec_prefixed(src: Seq<u8>, pos: int, class: CharClass) -> (Token, nat) {
    let n = run_len(src, pos + 1, class);
    if n > 0 {
        (Token::Num, 1 + n)
    } else {
        (Token::Error, 1)
    }
}

/// The token that starts at `pos`, and its length in bytes. The longest
/// match wins: a word is taken whole before it is looked up, and `!!` is
/// one token. A comment needs its newline. A byte at which nothing starts
/// is an error token of one byte.
pub open spec fn spec_token(src: Seq<u8>, pos: int) -> (Token, nat)
    recommends
        0 <= pos < src.len(),
{
    let c = src[pos];
    if c == '\n' as u8 {
        (Token::Eol, 1)
    } else if c == ';' as u8 {
        let n = run_len(src, pos + 1, CharClass::Comment);
        if pos + 1 + n < src.len() {
            (Token::Eol, n + 2)
        } else {
            (Token::Error, 1)
        }
    } else if c == ',' as u8 {
        (Token::Comma, 1)
    } else if c == '#' as u8 {
        (Token::Imme, 1)
    } else if c == '(' as u8 {
        (Token::Lparen, 1)
    } else if c == ')' as u8 {
        (Token::Rparen, 1)
    } else if c == '<' as u8 {
        (Token::ByteHi, 1)
    } else if c == '>' as u8 {
        (Token::ByteLo, 1)
    } else if c == '!' as u8 {
        if pos + 1 < src.len() && src[pos + 1] == '!' as u8 {
            (Token::VisGlobal, 2)
        } else {
            (Token::VisObj, 1)
        }
    } else if c == '$' as u8 {
        spec_prefixed(src, pos, CharClass::Hex)
    } else if c == '%' as u8 {
        spec_prefixed(src, pos, CharClass::Bin)
    } else if c == '@' as u8 {
        spec_prefixed(src, pos, CharClass::Oct)
    } else if spec_in_class(c, CharClass::Dec) {
        (Token::Num, 1 + run_len(src, pos + 1, CharClass::Dec))
    } else if c == '.' as u8 {
        let n = run_len(src, pos + 1, CharClass::Word);
        if n > 0 {
            (Token::Ident, 1 + n)
        } else {
            (Token::Error, 1)
        }
    } else if spec_is_word_start(c) {
        let n = 1 + run_len(src, pos + 1, CharClass::Word);
        (spec_word_token(src.subrange(pos, pos + n)), n)
    } else {
        (Token::Error, 1)
    }
}

/// A token is at least one byte long and ends inside the text.
pub proof fn lemma_token_len(src: Seq<u8>, pos: int)
    requires
        0 <= pos < src.len(),
    ensures
        1 <= spec_token(src, pos).1,
        pos + spec_token(src, pos).1 <= src.len(),
{
    lemma_run_len_bound(src, pos + 1, CharClass::Comment);
    lemma_run_len_bound(src, pos + 1, CharClass::Hex);
    lemma_run_len_bound(src, pos + 1, CharClass::Bin);
    lemma_run_len_bound(src, pos + 1, CharClass::Oct);
    lemma_run_len_bound(src, pos + 1, CharClass::Dec);
    lemma_run_len_bound(src, pos + 1, CharClass::Word);
}

fn prefixed(src: &[u8], pos: usize, class: CharClass) -> (r: (Token, usize))
    requires
        pos < src@.len(),
    ensures
        r.0 == spec_prefixed(src@, pos as int, class).0,
        r.1 == spec_prefixed(src@, pos as int, class).1,
        1 <= r.1,
        pos + r.1 <= src@.len(),
{
    let len = src.len();
    assert(pos < len);
    let n = run(src, pos + 1, class);
    if n > 0 {
        (Token::Num, 1 + n)
    } else {
        (Token::Error, 1)
    }
}

/// Reads the token that starts at `pos`.
pub fn next_token(src: &[u8], pos: usize) -> (r: (Token, usize))
    requires
        pos < src@.len(),
    ensures
        r.0 == spec_token(src@, pos as int).0,
        r.1 == spec_token(src@, pos as int).1,
        1 <= r.1,
        pos + r.1 <= src@.len(),
{
    let len = src.len();
    let c = src[pos];
    if c == '\n' as u8 {
        (Token::Eol, 1)
    } else if c == ';' as u8 {
        let n = run(src, pos + 1, CharClass::Comment);
        if pos + 1 + n < src.len() {
            (Token::Eol, n + 2)
        } else {
            (Token::Error, 1)
        }
    } else if c == ',' as u8 {
        (Token::Comma, 1)
    } else if c == '#' as u8 {
        (Token::Imme, 1)
    } else if c == '(' as u8 {
        (Token::Lparen, 1)
    } else if c == ')' as u8 {
        (Token::Rparen, 1)
    } else if c == '<' as u8 {
        (Token::ByteHi, 1)
    } else if c == '>' as u8 {
        (Token::ByteLo, 1)
    } else if c == '!' as u8 {
        if pos + 1 < src.len() && src[pos + 1] == '!' as u8 {
            (Token::VisGlobal, 2)
        } else {
            (Token::VisObj, 1)
        }
    } else if c == '$' as u8 {
        prefixed(src, pos, CharClass::Hex)
    } else if c == '%' as u8 {
        prefixed(src, pos, CharClass::Bin)
    } else if c == '@' as u8 {
        prefixed(src, pos, CharClass::Oct)
    } else if in_class(c, CharClass::Dec) {
        (Token::Num, 1 + run(src, pos + 1, CharClass::Dec))
    } else if c == '.' as u8 {
        let n = run(src, pos + 1, CharClass::Word);
        if n > 0 {
            (Token::Ident, 1 + n)
        } else {
            (Token::Error, 1)
        }
    } else if is_word_start(c) {
        let n = 1 + run(src, pos + 1, CharClass::Word);
        let ghost word = src@.subrange(pos as int, pos + n);
        let token = if n == 1 && c == 'a' as u8 {
            Token::A
        } else if n == 1 && c == 'x' as u8 {
            Token::X
        } else if n == 1 && c == 'y' as u8 {
            Token::Y
        } else if n == 3 {
            assert(word[0] == src@[pos as int] && word[1] == src@[pos + 1] && word[2] == src@[pos
                + 2]);
            match keyword(c, src[pos + 1], src[pos + 2]) {
                Some(ins) => Token::Mnem(ins),
                None => Token::Ident,
            }
        } else {
            Token::Ident
        };
        assert(word[0] == c);
        (token, n)
    } else {
        (Token::Error, 1)
    }
}

} // verus!
