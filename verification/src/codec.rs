//! The building blocks of the two binary file formats: little-endian
//! integers, zero-padded name fields, and the padding of a payload.

use crate::ir::{lemma_name_of, name_of, padded};
use vstd::prelude::*;

verus! {

/// A 16-bit integer as two bytes, low byte first.
pub open spec fn le16(x: u16) -> Seq<u8> {
    seq![(x % 256) as u8, (x / 256) as u8]
}

/// A 32-bit integer as four bytes, low byte first.
pub open spec fn le32(x: u32) -> Seq<u8> {
    seq![
        (x % 256) as u8,
        ((x / 256) % 256) as u8,
        ((x / 65536) % 256) as u8,
        (x / 16777216) as u8,
    ]
}

/// The 16-bit integer that two bytes hold, low byte first.
pub open spec fn from_le16(b: Seq<u8>) -> u16
    recommends
        b.len() == 2,
{
    (b[0] + 256 * b[1]) as u16
}

/// The 32-bit integer that four bytes hold, low byte first.
pub open spec fn from_le32(b: Seq<u8>) -> u32
    recommends
        b.len() == 4,
{
    (b[0] + 256 * b[1] + 65536 * b[2] + 16777216 * b[3]) as u32
}

/// Reading back what was written gives the integer again.
pub proof fn lemma_le16_round_trip(x: u16)
    ensures
        le16(x).len() == 2,
        from_le16(le16(x)) == x,
{
}

/// Reading back what was written gives the integer again.
pub proof fn lemma_le32_round_trip(x: u32)
    ensures
        le32(x).len() == 4,
        from_le32(le32(x)) == x,
{
}

/// Appends a 16-bit integer, low byte first.
pub fn push_le16(out: &mut Vec<u8>, x: u16)
    ensures
        final(out)@ == old(out)@ + le16(x),
{
    out.push((x % 256) as u8);
    out.push((x / 256) as u8);
    assert(out@ =~= old(out)@ + le16(x));
}

/// Appends a 32-bit integer, low byte first.
pub fn push_le32(out: &mut Vec<u8>, x: u32)
    ensures
        final(out)@ == old(out)@ + le32(x),
{
    out.push((x % 256) as u8);
    out.push(((x / 256) % 256) as u8);
    out.push(((x / 65536) % 256) as u8);
    out.push((x / 16777216) as u8);
    assert(out@ =~= old(out)@ + le32(x));
}

/// Reads the 16-bit integer at `pos`.
pub fn read_le16(src: &[u8], pos: usize) -> (x: u16)
    requires
        pos + 2 <= src@.len(),
    ensures
        x == from_le16(src@.subrange(pos as int, pos + 2)),
{
    let b0 = src[pos] as u16;
    let b1 = src[pos + 1] as u16;
    b0 + 256 * b1
}

/// Reads the 32-bit integer at `pos`.
pub fn read_le32(src: &[u8], pos: usize) -> (x: u32)
    requires
        pos + 4 <= src@.len(),
    ensures
        x == from_le32(src@.subrange(pos as int, pos + 4)),
{
    let b0 = src[pos] as u32;
    let b1 = src[pos + 1] as u32;
    let b2 = src[pos + 2] as u32;
    let b3 = src[pos + 3] as u32;
    b0 + 256 * b1 + 65536 * b2 + 16777216 * b3
}

/// The number of zero bytes that bring a payload of `size` bytes to a
/// multiple of four.
pub open spec fn padding(size: nat) -> nat {
    ((4 - size % 4) % 4) as nat
}

/// Appends `n` zero bytes.
pub fn push_zeros(out: &mut Vec<u8>, n: usize)
    ensures
        final(out)@ == old(out)@ + Seq::new(n as nat, |i: int| 0u8),
{
    let mut i: usize = 0;
    while i < n
        invariant
            i <= n,
            out@ == old(out)@ + Seq::new(i as nat, |k: int| 0u8),
        decreases n - i,
    {
        out.push(0);
        i += 1;
        assert(out@ =~= old(out)@ + Seq::new(i as nat, |k: int| 0u8));
    }
}

/// Appends a copy of `bytes`.
pub fn push_bytes(out: &mut Vec<u8>, bytes: &[u8])
    ensures
        final(out)@ == old(out)@ + bytes@,
{
    let mut i: usize = 0;
    while i < bytes.len()
        invariant
            i <= bytes@.len(),
            out@ == old(out)@ + bytes@.take(i as int),
        decreases bytes@.len() - i,
    {
        out.push(bytes[i]);
        i += 1;
        assert(out@ =~= old(out)@ + bytes@.take(i as int));
    }
    assert(bytes@.take(i as int) =~= bytes@);
}

/// Where the text that starts at `pos` ends: at the first zero byte, or at
/// the end of the field.
pub open spec fn text_end(field: Seq<u8>, pos: int) -> int
    decreases field.len() - pos,
{
    if 0 <= pos < field.len() && field[pos] != 0 {
        text_end(field, pos + 1)
    } else {
        pos
    }
}

/// The text of a name field: its bytes up to the first zero byte.
pub open spec fn text_of(field: Seq<u8>) -> Seq<u8> {
    field.take(text_end(field, 0))
}

/// Gives the text of a name field: its bytes up to the first zero byte.
pub fn name_text(field: &[u8]) -> (text: Vec<u8>)
    ensures
        text@ == text_of(field@),
{
    let mut text: Vec<u8> = Vec::new();
    let mut n: usize = 0;
    while n < field.len() && field[n] != 0
        invariant
            n <= field@.len(),
            forall|i: int| 0 <= i < n ==> field@[i] != 0,
            text@ == field@.take(n as int),
        decreases field@.len() - n,
    {
        text.push(field[n]);
        n += 1;
        assert(text@ =~= field@.take(n as int));
    }
    proof {
        lemma_text_end_is(field@, n as int);
    }
    text
}

/// The end of the text is the first zero byte at or behind `pos`.
pub proof fn lemma_text_end(field: Seq<u8>, pos: int)
    requires
        0 <= pos <= field.len(),
    ensures
        pos <= text_end(field, pos) <= field.len(),
        forall|i: int| pos <= i < text_end(field, pos) ==> field[i] != 0,
        text_end(field, pos) < field.len() ==> field[text_end(field, pos)] == 0,
    decreases field.len() - pos,
{
    if pos < field.len() && field[pos] != 0 {
        lemma_text_end(field, pos + 1);
    }
}

/// The one position with the properties of `text_end` is `text_end`.
pub proof fn lemma_text_end_is(field: Seq<u8>, end: int)
    requires
        0 <= end <= field.len(),
        forall|i: int| 0 <= i < end ==> field[i] != 0,
        end < field.len() ==> field[end] == 0,
    ensures
        text_end(field, 0) == end,
{
    lemma_text_end(field, 0);
}

/// The text of a padded text without zero bytes is that text.
pub proof fn lemma_text_of_padded(text: Seq<u8>, width: nat)
    requires
        text.len() <= width,
        forall|i: int| 0 <= i < text.len() ==> text[i] != 0,
    ensures
        text_of(padded(text, width)) == text,
{
    lemma_text_end_is(padded(text, width), text.len() as int);
    assert(padded(text, width).take(text.len() as int) =~= text);
}

/// The 64-byte field that holds `text`, filled with zero bytes.
pub open spec fn name64_of(text: Seq<u8>) -> [u8; 64] {
    choose|a: [u8; 64]| a@ == padded(text, 64)
}

proof fn lemma_array_prefix64(s: Seq<u8>, k: nat) -> (a: [u8; 64])
    requires
        s.len() == 64,
        k <= 64,
    ensures
        forall|i: int| 0 <= i < k ==> a@[i] == s[i],
    decreases k,
{
    broadcast use vstd::array::group_array_axioms;

    if k == 0 {
        vstd::array::spec_array_fill_for_copy_type::<u8, 64>(0u8)
    } else {
        let b = lemma_array_prefix64(s, (k - 1) as nat);
        let a = vstd::array::spec_array_update(b, k - 1, s[k - 1]);
        assert(a@ == b@.update(k - 1, s[k - 1]));
        a
    }
}

/// Every text has its 64-byte field.
pub proof fn lemma_name64_of(text: Seq<u8>)
    ensures
        name64_of(text)@ == padded(text, 64),
{
    let a = lemma_array_prefix64(padded(text, 64), 64);
    assert(a@ =~= padded(text, 64));
}

/// The text of a qualified name: the parent's text, and behind a dot the
/// child's where there is one.
pub open spec fn qualified_text(parent: [u8; 32], child: Option<[u8; 32]>) -> Seq<u8> {
    match child {
        Some(c) => text_of(parent@) + seq!['.' as u8] + text_of(c@),
        None => text_of(parent@),
    }
}

/// The field of a qualified name, `parent` or `parent.child`.
pub open spec fn spec_qualified(parent: [u8; 32], child: Option<[u8; 32]>) -> [u8; 64] {
    name64_of(qualified_text(parent, child))
}

fn copy_text(out: &mut [u8; 64], at: usize, field: &[u8; 32]) -> (n: usize)
    requires
        at <= 64,
    ensures
        n == text_of(field@).len(),
        n <= 32,
        forall|i: int| 0 <= i < at ==> final(out)@[i] == old(out)@[i],
        forall|i: int| at <= i < at + n && i < 64 ==> final(out)@[i] == text_of(field@)[i - at],
        forall|i: int| at + n <= i < 64 ==> final(out)@[i] == old(out)@[i],
{
    let mut n: usize = 0;
    while n < 32 && field[n] != 0
        invariant
            n <= 32,
            at <= 64,
            forall|i: int| 0 <= i < n ==> field@[i] != 0,
            forall|i: int| 0 <= i < at ==> out@[i] == old(out)@[i],
            forall|i: int| at <= i < at + n && i < 64 ==> out@[i] == field@[i - at],
            forall|i: int| at + n <= i < 64 ==> out@[i] == old(out)@[i],
        decreases 32 - n,
    {
        if at + n < 64 {
            out[at + n] = field[n];
        }
        n += 1;
    }
    proof {
        lemma_text_end_is(field@, n as int);
        assert(text_of(field@) =~= field@.take(n as int));
    }
    n
}

/// Builds the field of a qualified name.
pub fn qualified(parent: &[u8; 32], child: &Option<[u8; 32]>) -> (r: [u8; 64])
    ensures
        r == spec_qualified(*parent, *child),
        r@ == padded(qualified_text(*parent, *child), 64),
{
    let mut out = [0u8; 64];
    assert(forall|i: int| 0 <= i < 64 ==> out@[i] == 0);
    let n = copy_text(&mut out, 0, parent);
    let ghost text = qualified_text(*parent, *child);
    match child {
        Some(c) => {
            out[n] = '.' as u8;
            let m = copy_text(&mut out, n + 1, c);
            assert(text.len() == n + 1 + m);
            assert forall|i: int| 0 <= i < 64 implies out@[i] == padded(text, 64)[i] by {
                if i < n {
                    assert(text[i] == text_of(parent@)[i]);
                } else if i == n {
                    assert(text[i] == '.' as u8);
                } else if i < n + 1 + m {
                    assert(text[i] == text_of(c@)[i - n - 1]);
                }
            }
            assert(out@ =~= padded(text, 64));
        },
        None => {
            assert(out@ =~= padded(text, 64));
        },
    }
    proof {
        lemma_name64_of(qualified_text(*parent, *child));
    }
    assert(out =~= spec_qualified(*parent, *child));
    out
}

/// Whether every byte is below 128.
pub open spec fn is_ascii(text: Seq<u8>) -> bool {
    forall|i: int| 0 <= i < text.len() ==> #[trigger] text[i] < 0x80
}

/// The decoding of a 32-byte name field: its text, filled with zero bytes
/// again, if the text is ASCII.
pub open spec fn spec_decode32(field: Seq<u8>) -> Option<[u8; 32]> {
    if is_ascii(text_of(field)) {
        Some(name_of(text_of(field)))
    } else {
        None
    }
}

/// The decoding of a 64-byte name field: its text, filled with zero bytes
/// again, if the text is ASCII.
pub open spec fn spec_decode64(field: Seq<u8>) -> Option<[u8; 64]> {
    if is_ascii(text_of(field)) {
        Some(name64_of(text_of(field)))
    } else {
        None
    }
}

/// Decodes the 32-byte name field at `pos`.
pub fn decode32(src: &[u8], pos: usize) -> (r: Option<[u8; 32]>)
    requires
        pos + 32 <= src@.len(),
    ensures
        r == spec_decode32(src@.subrange(pos as int, pos + 32)),
{
    let len = src.len();
    let ghost field = src@.subrange(pos as int, pos + 32);
    let mut out = [0u8; 32];
    let mut n: usize = 0;
    while n < 32 && src[pos + n] != 0
        invariant
            n <= 32,
            src@.len() == len,
            pos + 32 <= src@.len(),
            field == src@.subrange(pos as int, pos + 32),
            forall|i: int| 0 <= i < n ==> field[i] != 0 && field[i] < 0x80 && out@[i] == field[i],
            forall|i: int| n <= i < 32 ==> out@[i] == 0,
        decreases 32 - n,
    {
        let c = src[pos + n];
        if c >= 0x80 {
            proof {
                lemma_text_end(field, 0);
                lemma_text_end(field, n as int);
                assert(text_end(field, 0) > n) by {
                    if text_end(field, 0) <= n {
                        assert(field[text_end(field, 0)] == 0);
                    }
                }
                assert(text_of(field)[n as int] == c);
            }
            return None;
        }
        out[n] = c;
        n += 1;
    }
    proof {
        lemma_text_end_is(field, n as int);
        lemma_name_of(text_of(field));
        assert(out@ =~= padded(text_of(field), 32));
    }
    assert(out =~= name_of(text_of(field)));
    Some(out)
}

/// Decodes the 64-byte name field at `pos`.
pub fn decode64(src: &[u8], pos: usize) -> (r: Option<[u8; 64]>)
    requires
        pos + 64 <= src@.len(),
    ensures
        r == spec_decode64(src@.subrange(pos as int, pos + 64)),
{
    let len = src.len();
    let ghost field = src@.subrange(pos as int, pos + 64);
    let mut out = [0u8; 64];
    let mut n: usize = 0;
    while n < 64 && src[pos + n] != 0
        invariant
            n <= 64,
            src@.len() == len,
            pos + 64 <= src@.len(),
            field == src@.subrange(pos as int, pos + 64),
            forall|i: int| 0 <= i < n ==> field[i] != 0 && field[i] < 0x80 && out@[i] == field[i],
            forall|i: int| n <= i < 64 ==> out@[i] == 0,
        decreases 64 - n,
    {
        let c = src[pos + n];
        if c >= 0x80 {
            proof {
                lemma_text_end(field, 0);
                assert(text_end(field, 0) > n) by {
                    if text_end(field, 0) <= n {
                        assert(field[text_end(field, 0)] == 0);
                    }
                }
                assert(text_of(field)[n as int] == c);
            }
            return None;
        }
        out[n] = c;
        n += 1;
    }
    proof {
        lemma_text_end_is(field, n as int);
        lemma_name64_of(text_of(field));
        assert(out@ =~= padded(text_of(field), 64));
    }
    assert(out =~= name64_of(text_of(field)));
    Some(out)
}

/// Whether two 64-byte name fields hold the same bytes.
pub fn name64_eq(a: &[u8; 64], b: &[u8; 64]) -> (r: bool)
    ensures
        r == (*a == *b),
{
    let mut i: usize = 0;
    while i < 64
        invariant
            i <= 64,
            forall|j: int| 0 <= j < i ==> a@[j] == b@[j],
        decreases 64 - i,
    {
        if a[i] != b[i] {
            return false;
        }
        i += 1;
    }
    assert(*a =~= *b);
    true
}

/// The index of the first of `names` that equals `name`.
pub open spec fn spec_index_of(names: Seq<[u8; 32]>, name: [u8; 32]) -> Option<int>
    decreases names.len(),
{
    if names.len() == 0 {
        None
    } else {
        match spec_index_of(names.drop_last(), name) {
            Some(i) => Some(i),
            None => if names.last() == name {
                Some(names.len() - 1)
            } else {
                None
            },
        }
    }
}

/// What `spec_index_of` finds: the first place of the name, or nothing
/// where the name does not occur.
pub proof fn lemma_index_of(names: Seq<[u8; 32]>, name: [u8; 32])
    ensures
        match spec_index_of(names, name) {
            Some(i) => 0 <= i < names.len() && names[i] == name && forall|j: int|
                0 <= j < i ==> names[j] != name,
            None => forall|j: int| 0 <= j < names.len() ==> names[j] != name,
        },
    decreases names.len(),
{
    if names.len() > 0 {
        lemma_index_of(names.drop_last(), name);
        assert(forall|j: int| 0 <= j < names.len() - 1 ==> names[j] == names.drop_last()[j]);
    }
}

} // verus!
