//! The lower-case letters that mnemonics are spelled with, each named by
//! its capital.

use vstd::prelude::*;

verus! {

/// `a`
pub const A: u8 = 'a' as u8;

/// `b`
pub const B: u8 = 'b' as u8;

/// `c`
pub const C: u8 = 'c' as u8;

/// `d`
pub const D: u8 = 'd' as u8;

/// `e`
pub const E: u8 = 'e' as u8;

/// `f`
pub const F: u8 = 'f' as u8;

/// `h`
pub const H: u8 = 'h' as u8;

/// `i`
pub const I: u8 = 'i' as u8;

/// `j`
pub const J: u8 = 'j' as u8;

/// `k`
pub const K: u8 = 'k' as u8;

/// `l`
pub const L: u8 = 'l' as u8;

/// `m`
pub const M: u8 = 'm' as u8;

/// `n`
pub const N: u8 = 'n' as u8;

/// `o`
pub const O: u8 = 'o' as u8;

/// `p`
pub const P: u8 = 'p' as u8;

/// `q`
pub const Q: u8 = 'q' as u8;

/// `r`
pub const R: u8 = 'r' as u8;

/// `s`
pub const S: u8 = 's' as u8;

/// `t`
pub const T: u8 = 't' as u8;

/// `v`
pub const V: u8 = 'v' as u8;

/// `w`
pub const W: u8 = 'w' as u8;

/// `x`
pub const X: u8 = 'x' as u8;

/// `y`
pub const Y: u8 = 'y' as u8;

} // verus!
