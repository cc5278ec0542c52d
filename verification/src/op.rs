//! FLUX opcodes used by the compiler

use vstd::prelude::*;

verus! {

pub const PUSH: u8 = 0x00;

pub const AND: u8 = 0x09;

pub const EQ: u8 = 0x0F;

pub const OR: u8 = 0x0A;

pub const JZ: u8 = 0x16;

pub const JNZ: u8 = 0x17;

pub const HALT: u8 = 0x1A;

pub const ASSERT: u8 = 0x1B;

pub const CHECK_DOMAIN: u8 = 0x1C;

pub const BITMASK_RANGE: u8 = 0x1D;

pub const CMP_GE: u8 = 0x24;

pub const GUARD_TRAP: u8 = 0x20;

pub const NOP: u8 = 0x27;

} // verus!
