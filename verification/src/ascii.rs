//! Named ASCII byte values, so that byte-level text handling stays readable.

use vstd::prelude::*;

verus! {

pub const QUOTE: u8 = 34;

pub const BACKSLASH: u8 = 92;

pub const SLASH: u8 = 47;

pub const LBRACE: u8 = 123;

pub const RBRACE: u8 = 125;

pub const LBRACKET: u8 = 91;

pub const RBRACKET: u8 = 93;

pub const COMMA: u8 = 44;

pub const COLON: u8 = 58;

pub const SPACE: u8 = 32;

pub const TAB: u8 = 9;

pub const LF: u8 = 10;

pub const CR: u8 = 13;

pub const BS: u8 = 8;

pub const FF: u8 = 12;

pub const DOT: u8 = 46;

pub const DASH: u8 = 45;

pub const ZERO: u8 = 48;

pub const NINE: u8 = 57;

pub const LC_A: u8 = 97;

pub const LC_B: u8 = 98;

pub const LC_D: u8 = 100;

pub const LC_E: u8 = 101;

pub const LC_F: u8 = 102;

pub const LC_I: u8 = 105;

pub const LC_L: u8 = 108;

pub const LC_M: u8 = 109;

pub const LC_N: u8 = 110;

pub const LC_O: u8 = 111;

pub const LC_R: u8 = 114;

pub const LC_S: u8 = 115;

pub const LC_T: u8 = 116;

pub const LC_U: u8 = 117;

pub const UC_A: u8 = 65;

pub const UC_D: u8 = 68;

pub const UC_F: u8 = 70;

pub const UC_T: u8 = 84;

} // verus!
