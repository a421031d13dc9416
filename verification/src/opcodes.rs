//! The instruction set of the execution engine, as far as the runtime writes
//! instructions itself. The engine owns the encoding: whoever builds a
//! runtime hands in the byte of each instruction.

use vstd::prelude::*;
use crate::cells::{cell_bytes, cell_le};
use crate::mmap;
use crate::threaded::{NEXT, OVER, ROT};

verus! {

/// The byte of each engine instruction that the runtime emits.
pub struct Opcodes {
    /// Push the cell that follows the instruction.
    pub i32_const: u8,
    /// ( addr -- value ): read a cell.
    pub i32_load: u8,
    /// ( value addr -- ): write a cell.
    pub i32_store: u8,
    /// ( addr -- value ): read a byte.
    pub i32_load_8: u8,
    /// ( value addr -- ): write a byte.
    pub i32_store_8: u8,
    pub dup: u8,
    pub swap: u8,
    pub drop: u8,
    pub add: u8,
    pub sub: u8,
    pub mul: u8,
    pub div_s: u8,
    pub mod_s: u8,
    pub inc: u8,
    pub dec: u8,
    pub eq: u8,
    pub eqz: u8,
    /// Push 0.
    pub zero: u8,
    pub lt_s: u8,
    pub gt_s: u8,
    pub lt_u: u8,
    pub gt_u: u8,
    pub le_s: u8,
    pub ge_s: u8,
    pub min: u8,
    pub max: u8,
    pub and: u8,
    pub or: u8,
    pub xor: u8,
    pub not: u8,
    /// Jump by the offset that follows if the newest value is 0.
    pub jzi: u8,
    /// Jump to the address that follows if the newest value is 0.
    pub brzi: u8,
    /// ( addr -- ): jump.
    pub br: u8,
    /// ( index -- ): call the host function with that index.
    pub call_vm: u8,
    /// Halt.
    pub end: u8,
}

/// The instruction that pushes `value`: the opcode, then the value's cell.
pub open spec fn push_const(ops: Opcodes, value: int) -> Seq<u8> {
    seq![ops.i32_const] + cell_bytes(value)
}

/// The code of a word that pushes `value`.
pub open spec fn constant_code(ops: Opcodes, value: int) -> Seq<u8> {
    push_const(ops, value) + seq![NEXT]
}

/// The code of a word that calls the host function with index `index`.
pub open spec fn call_code(ops: Opcodes, index: int) -> Seq<u8> {
    push_const(ops, index) + seq![ops.call_vm, NEXT]
}

/// The trampoline that every composite word's code field points at: it
/// pushes the program counter on the return stack, sets the program counter
/// to the first body cell of the word just dispatched, which lies one cell
/// above the code field that the scratch register names, and dispatches.
pub open spec fn docol_code(ops: Opcodes) -> Seq<u8> {
    push_const(ops, mmap::IC as int) + seq![ops.i32_load] + push_const(ops, mmap::RSP as int)
        + seq![ops.i32_load, ops.i32_store] + push_const(ops, mmap::RSP as int) + seq![
        ops.dup,
        ops.i32_load,
    ] + push_const(ops, 4) + seq![ops.sub, ops.swap, ops.i32_store] + push_const(
        ops,
        mmap::A0 as int,
    ) + seq![ops.i32_load] + push_const(ops, 4) + seq![ops.add] + push_const(
        ops,
        mmap::IC as int,
    ) + seq![ops.i32_store, NEXT]
}

/// The code of the trampoline of composite words.
pub fn docol(ops: &Opcodes) -> (code: Vec<u8>)
    ensures
        code@ == docol_code(*ops),
        code@.len() == 47,
{
    let code: Vec<u8> = vec![
        ops.i32_const, 44, 0, 0, 0,
        ops.i32_load,
        ops.i32_const, 12, 0, 0, 0,
        ops.i32_load,
        ops.i32_store,
        ops.i32_const, 12, 0, 0, 0,
        ops.dup,
        ops.i32_load,
        ops.i32_const, 4, 0, 0, 0,
        ops.sub,
        ops.swap,
        ops.i32_store,
        ops.i32_const, 48, 0, 0, 0,
        ops.i32_load,
        ops.i32_const, 4, 0, 0, 0,
        ops.add,
        ops.i32_const, 44, 0, 0, 0,
        ops.i32_store,
        NEXT,
    ];
    assert(cell_bytes(44) =~= seq![44u8, 0u8, 0u8, 0u8]);
    assert(cell_bytes(12) =~= seq![12u8, 0u8, 0u8, 0u8]);
    assert(cell_bytes(48) =~= seq![48u8, 0u8, 0u8, 0u8]);
    assert(cell_bytes(4) =~= seq![4u8, 0u8, 0u8, 0u8]);
    assert(code@ =~= docol_code(*ops));
    code
}

/// The code of `exit`, the return from a composite word: it takes the
/// newest value off the return stack, makes it the program counter and
/// dispatches.
pub open spec fn exit_code(ops: Opcodes) -> Seq<u8> {
    push_const(ops, mmap::RSP as int) + seq![ops.i32_load] + push_const(ops, 4) + seq![
        ops.add,
        ops.dup,
    ] + push_const(ops, mmap::RSP as int) + seq![ops.i32_store, ops.i32_load] + push_const(
        ops,
        mmap::IC as int,
    ) + seq![ops.i32_store, NEXT]
}

/// The code of `lit`, a literal in a composite body: it pushes the cell that
/// the program counter points at, moves the program counter one cell on and
/// dispatches.
pub open spec fn lit_code(ops: Opcodes) -> Seq<u8> {
    push_const(ops, mmap::IC as int) + seq![ops.i32_load, ops.dup, ops.i32_load, ops.swap]
        + push_const(ops, 4) + seq![ops.add] + push_const(ops, mmap::IC as int) + seq![
        ops.i32_store,
        NEXT,
    ]
}

/// The code of `litstring`, a text in a composite body: the program counter
/// points at the length cell of the text, which the bytes follow. It pushes
/// the address of the bytes and the length, moves the program counter behind
/// the text, to the next cell boundary, and dispatches.
pub open spec fn litstring_code(ops: Opcodes) -> Seq<u8> {
    push_const(ops, mmap::IC as int) + seq![
        ops.i32_load,
        ops.dup,
        ops.dup,
        ops.i32_load,
        ops.swap,
    ] + push_const(ops, 4) + seq![ops.add, ops.swap, ROT, OVER, ops.add] + push_const(ops, 7)
        + seq![ops.add] + push_const(ops, -4) + seq![ops.and] + push_const(ops, mmap::IC as int)
        + seq![ops.i32_store, NEXT]
}

/// The code of `branch`, the jump: it adds the cell that the program counter
/// points at to the program counter, so that the distance counts from that
/// cell, and dispatches.
pub open spec fn branch_code(ops: Opcodes) -> Seq<u8> {
    push_const(ops, mmap::IC as int) + seq![
        ops.dup,
        ops.i32_load,
        ops.dup,
        ops.i32_load,
        ops.add,
        ops.swap,
        ops.i32_store,
        NEXT,
    ]
}

/// The code of `0branch`, the conditional jump: it takes a flag off the
/// parameter stack. Where the flag is 0 it goes on at `target`, the code of
/// `branch`; else it moves the program counter over the distance cell and
/// dispatches.
pub open spec fn zero_branch_code(ops: Opcodes, target: int) -> Seq<u8> {
    seq![ops.brzi] + cell_bytes(target) + push_const(ops, mmap::IC as int) + seq![
        ops.dup,
        ops.i32_load,
    ] + push_const(ops, 4) + seq![ops.add, ops.swap, ops.i32_store, NEXT]
}

/// The code of `execute`: it takes a code field address off the parameter
/// stack, notes it in the scratch register, as a dispatch step does, and
/// goes on at the address that the code field holds.
pub open spec fn execute_code(ops: Opcodes) -> Seq<u8> {
    seq![ops.dup] + push_const(ops, mmap::A0 as int) + seq![ops.i32_store, ops.i32_load, ops.br]
}

/// The cells that the codes hold are spelled least significant byte first.
proof fn lemma_operands()
    ensures
        cell_bytes(4) == seq![4u8, 0u8, 0u8, 0u8],
        cell_bytes(7) == seq![7u8, 0u8, 0u8, 0u8],
        cell_bytes(-4) == seq![252u8, 255u8, 255u8, 255u8],
        cell_bytes(mmap::RSP as int) == seq![12u8, 0u8, 0u8, 0u8],
        cell_bytes(mmap::IC as int) == seq![44u8, 0u8, 0u8, 0u8],
        cell_bytes(mmap::A0 as int) == seq![48u8, 0u8, 0u8, 0u8],
{
    assert(cell_bytes(4) =~= seq![4u8, 0u8, 0u8, 0u8]);
    assert(cell_bytes(7) =~= seq![7u8, 0u8, 0u8, 0u8]);
    assert(cell_bytes(-4) =~= seq![252u8, 255u8, 255u8, 255u8]);
    assert(cell_bytes(12) =~= seq![12u8, 0u8, 0u8, 0u8]);
    assert(cell_bytes(44) =~= seq![44u8, 0u8, 0u8, 0u8]);
    assert(cell_bytes(48) =~= seq![48u8, 0u8, 0u8, 0u8]);
}

/// The code of `exit`.
pub fn exit(ops: &Opcodes) -> (code: Vec<u8>)
    ensures
        code@ == exit_code(*ops),
        code@.len() == 27,
{
    let code: Vec<u8> = vec![
        ops.i32_const, 12, 0, 0, 0,
        ops.i32_load,
        ops.i32_const, 4, 0, 0, 0,
        ops.add,
        ops.dup,
        ops.i32_const, 12, 0, 0, 0,
        ops.i32_store,
        ops.i32_load,
        ops.i32_const, 44, 0, 0, 0,
        ops.i32_store,
        NEXT,
    ];
    proof {
        lemma_operands();
    }
    assert(code@ =~= exit_code(*ops));
    code
}

/// The code of `lit`.
pub fn lit(ops: &Opcodes) -> (code: Vec<u8>)
    ensures
        code@ == lit_code(*ops),
        code@.len() == 22,
{
    let code: Vec<u8> = vec![
        ops.i32_const, 44, 0, 0, 0,
        ops.i32_load,
        ops.dup,
        ops.i32_load,
        ops.swap,
        ops.i32_const, 4, 0, 0, 0,
        ops.add,
        ops.i32_const, 44, 0, 0, 0,
        ops.i32_store,
        NEXT,
    ];
    proof {
        lemma_operands();
    }
    assert(code@ =~= lit_code(*ops));
    code
}

/// The code of `litstring`.
pub fn litstring(ops: &Opcodes) -> (code: Vec<u8>)
    ensures
        code@ == litstring_code(*ops),
        code@.len() == 39,
{
    let code: Vec<u8> = vec![
        ops.i32_const, 44, 0, 0, 0,
        ops.i32_load,
        ops.dup,
        ops.dup,
        ops.i32_load,
        ops.swap,
        ops.i32_const, 4, 0, 0, 0,
        ops.add,
        ops.swap,
        ROT,
        OVER,
        ops.add,
        ops.i32_const, 7, 0, 0, 0,
        ops.add,
        ops.i32_const, 252, 255, 255, 255,
        ops.and,
        ops.i32_const, 44, 0, 0, 0,
        ops.i32_store,
        NEXT,
    ];
    proof {
        lemma_operands();
    }
    assert(code@ =~= litstring_code(*ops));
    code
}

/// The code of `branch`.
pub fn branch(ops: &Opcodes) -> (code: Vec<u8>)
    ensures
        code@ == branch_code(*ops),
        code@.len() == 13,
{
    let code: Vec<u8> = vec![
        ops.i32_const, 44, 0, 0, 0,
        ops.dup,
        ops.i32_load,
        ops.dup,
        ops.i32_load,
        ops.add,
        ops.swap,
        ops.i32_store,
        NEXT,
    ];
    proof {
        lemma_operands();
    }
    assert(code@ =~= branch_code(*ops));
    code
}

/// The code of `0branch` that jumps to the code at `target`.
pub fn zero_branch(ops: &Opcodes, target: i32) -> (code: Vec<u8>)
    ensures
        code@ == zero_branch_code(*ops, target as int),
        code@.len() == 21,
{
    let t = cell_le(target);
    let code: Vec<u8> = vec![
        ops.brzi, t.0, t.1, t.2, t.3,
        ops.i32_const, 44, 0, 0, 0,
        ops.dup,
        ops.i32_load,
        ops.i32_const, 4, 0, 0, 0,
        ops.add,
        ops.swap,
        ops.i32_store,
        NEXT,
    ];
    proof {
        lemma_operands();
        assert(cell_bytes(target as int) =~= seq![t.0, t.1, t.2, t.3]);
    }
    assert(code@ =~= zero_branch_code(*ops, target as int));
    code
}

/// The code of `execute`.
pub fn execute(ops: &Opcodes) -> (code: Vec<u8>)
    ensures
        code@ == execute_code(*ops),
        code@.len() == 9,
{
    let code: Vec<u8> = vec![
        ops.dup,
        ops.i32_const, 48, 0, 0, 0,
        ops.i32_store,
        ops.i32_load,
        ops.br,
    ];
    proof {
        lemma_operands();
    }
    assert(code@ =~= execute_code(*ops));
    code
}

/// The code of a word that pushes `value`.
pub fn constant(ops: &Opcodes, value: i32) -> (code: Vec<u8>)
    ensures
        code@ == constant_code(*ops, value as int),
        code@.len() == 6,
{
    let v = cell_le(value);
    let code: Vec<u8> = vec![ops.i32_const, v.0, v.1, v.2, v.3, NEXT];
    assert(cell_bytes(value as int) =~= seq![v.0, v.1, v.2, v.3]);
    assert(code@ =~= constant_code(*ops, value as int));
    code
}

/// The code of a word that calls the host function with index `index`.
pub fn call(ops: &Opcodes, index: i32) -> (code: Vec<u8>)
    ensures
        code@ == call_code(*ops, index as int),
        code@.len() == 7,
{
    let v = cell_le(index);
    let code: Vec<u8> = vec![ops.i32_const, v.0, v.1, v.2, v.3, ops.call_vm, NEXT];
    assert(cell_bytes(index as int) =~= seq![v.0, v.1, v.2, v.3]);
    assert(code@ =~= call_code(*ops, index as int));
    code
}

} // verus!
