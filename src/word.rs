//! The 36-bit machine word and the layout of instructions in it.
use vstd::prelude::*;

verus! {

/// Mask that keeps the low 36 bits of a value.
pub const WORD_MASK: u64 = 0o777_777_777_777;

/// Mask of the 27-bit operand field.
pub const OPERAND_MASK: u64 = 0o777_777_777;

/// Mask of the 18-bit address field of a link-and-jump word.
pub const ADDRESS_MASK: u64 = 0o777_777;

pub const OP_LDA: u64 = 0o100;
pub const OP_ADD: u64 = 0o101;
pub const OP_STA: u64 = 0o102;
pub const OP_JMP: u64 = 0o103;
pub const OP_SUB: u64 = 0o104;
pub const OP_JNZ: u64 = 0o105;
pub const OP_LMJ: u64 = 0o106;
pub const OP_ISZ: u64 = 0o107;
pub const OP_OUT: u64 = 0o110;
pub const OP_HLT: u64 = 0o777;

/// The value of `x` reduced to one 36-bit word (two's complement for negatives).
pub open spec fn word_of(x: int) -> int {
    x % 0x10_0000_0000
}

/// A word with opcode `op` in bits 27..35 and `operand` in bits 0..26.
pub open spec fn plain_word(op: u64, operand: u64) -> u64 {
    (op << 27u64) | (operand & 0o777_777_777u64)
}

/// A link-and-jump word: opcode in bits 27..35, register in bits 23..26,
/// address in bits 0..17, bits 18..22 zero.
pub open spec fn link_word(op: u64, reg: u64, addr: u64) -> u64 {
    (op << 27u64) | ((reg & 0o17u64) << 23u64) | (addr & 0o777_777u64)
}

pub open spec fn opcode_field(w: u64) -> u64 {
    (w >> 27u64) & 0o777u64
}

pub open spec fn operand_field(w: u64) -> u64 {
    w & 0o777_777_777u64
}

pub open spec fn register_field(w: u64) -> u64 {
    (w >> 23u64) & 0o17u64
}

pub open spec fn address_field(w: u64) -> u64 {
    w & 0o777_777u64
}

/// Reduces `x` to its low 36 bits.
pub fn mask_word(x: u64) -> (r: u64)
    ensures
        r as int == word_of(x as int),
{
    assert(x & 0o777_777_777_777 == x % 0x10_0000_0000) by (bit_vector);
    x & WORD_MASK
}

/// Encodes an instruction whose operand is a 27-bit address or value.
pub fn encode_plain(op: u64, operand: u64) -> (r: u64)
    ensures
        r == plain_word(op, operand),
{
    (op << 27u64) | (operand & OPERAND_MASK)
}

/// Encodes a link-and-jump instruction.
pub fn encode_link(op: u64, reg: u64, addr: u64) -> (r: u64)
    ensures
        r == link_word(op, reg, addr),
{
    (op << 27u64) | ((reg & 0o17u64) << 23u64) | (addr & ADDRESS_MASK)
}

pub fn opcode_of(w: u64) -> (r: u64)
    ensures
        r == opcode_field(w),
        r < 512,
{
    assert((w >> 27u64) & 0o777u64 < 512) by (bit_vector);
    (w >> 27u64) & 0o777u64
}

pub fn operand_of(w: u64) -> (r: u64)
    ensures
        r == operand_field(w),
        r < 0x800_0000,
{
    assert(w & 0o777_777_777u64 < 0x800_0000) by (bit_vector);
    w & OPERAND_MASK
}

pub fn register_of(w: u64) -> (r: u64)
    ensures
        r == register_field(w),
        r < 16,
{
    assert((w >> 23u64) & 0o17u64 < 16) by (bit_vector);
    (w >> 23u64) & 0o17u64
}

pub fn address_of(w: u64) -> (r: u64)
    ensures
        r == address_field(w),
        r < 0x4_0000,
{
    assert(w & 0o777_777u64 < 0x4_0000) by (bit_vector);
    w & ADDRESS_MASK
}

/// Decoding the opcode and operand fields of a plain instruction word gives
/// back the opcode and operand it was encoded from; the word fits in 36 bits.
pub proof fn lemma_plain_round_trip(op: u64, operand: u64)
    requires
        op < 512,
        operand < 0x800_0000,
    ensures
        opcode_field(plain_word(op, operand)) == op,
        operand_field(plain_word(op, operand)) == operand,
        plain_word(op, operand) < 0x10_0000_0000,
{
    assert(((op << 27u64) | (operand & 0o777_777_777u64)) >> 27u64 & 0o777u64 == op
        && ((op << 27u64) | (operand & 0o777_777_777u64)) & 0o777_777_777u64 == operand
        && ((op << 27u64) | (operand & 0o777_777_777u64)) < 0x10_0000_0000u64) by (bit_vector)
        requires
            op < 512,
            operand < 0x800_0000,
    ;
}

/// Decoding the opcode, register and address fields of a link-and-jump word
/// gives back the three values it was encoded from; bits 18..22 stay zero.
pub proof fn lemma_link_round_trip(op: u64, reg: u64, addr: u64)
    requires
        op < 512,
        reg < 16,
        addr < 0x4_0000,
    ensures
        opcode_field(link_word(op, reg, addr)) == op,
        register_field(link_word(op, reg, addr)) == reg,
        address_field(link_word(op, reg, addr)) == addr,
        (link_word(op, reg, addr) >> 18u64) & 0x1fu64 == 0,
        link_word(op, reg, addr) < 0x10_0000_0000,
{
    let w = link_word(op, reg, addr);
    assert(w == ((op << 27u64) | ((reg & 0o17u64) << 23u64) | (addr & 0o777_777u64)));
    assert(((op << 27u64) | ((reg & 0o17u64) << 23u64) | (addr & 0o777_777u64)) >> 27u64 & 0o777u64 == op
        && ((((op << 27u64) | ((reg & 0o17u64) << 23u64) | (addr & 0o777_777u64)) >> 23u64) & 0o17u64) == reg
        && ((op << 27u64) | ((reg & 0o17u64) << 23u64) | (addr & 0o777_777u64)) & 0o777_777u64 == addr
        && ((((op << 27u64) | ((reg & 0o17u64) << 23u64) | (addr & 0o777_777u64)) >> 18u64) & 0x1fu64) == 0
        && ((op << 27u64) | ((reg & 0o17u64) << 23u64) | (addr & 0o777_777u64)) < 0x10_0000_0000u64) by (bit_vector)
        requires
            op < 512,
            reg < 16,
            addr < 0x4_0000,
    ;
}

} // verus!
