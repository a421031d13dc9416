//! The dispatch step of threaded execution and the stack instructions that
//! the runtime adds to the instruction set of the execution engine.

use vstd::prelude::*;
use crate::cells::{cell_at, cell_bytes, in_bounds, lemma_cell_apart, store_cell};
use crate::forthvm::ForthVM;
use crate::mmap;
use crate::stacks::{
    can_pop, can_push, dsp_of, lemma_quotient_range, picked, pushed, quotient, remainder,
};

verus! {

/// Instruction: dispatch the next word of the running composite word.
pub const NEXT: u8 = 0xff;

/// Instruction: copy the second value of the parameter stack to its top.
pub const OVER: u8 = 0xfe;

/// Instruction: move the third value of the parameter stack to its top.
pub const ROT: u8 = 0xfd;

/// Instruction: replace dividend and divisor by remainder and quotient.
pub const DIV_MOD: u8 = 0xfc;

/// The program counter of threaded execution.
pub open spec fn ic_of(mem: Seq<u8>) -> int {
    cell_at(mem, mmap::IC as int)
}

/// The code field address that the program counter points at: that of the
/// word to dispatch next.
pub open spec fn next_word(mem: Seq<u8>) -> int {
    cell_at(mem, ic_of(mem))
}

/// Whether a dispatch step can be taken: the program counter points at a
/// cell, that cell at a code field, and the code field at an address.
pub open spec fn can_dispatch(mem: Seq<u8>) -> bool {
    &&& in_bounds(mem.len(), ic_of(mem), 4)
    &&& in_bounds(mem.len(), next_word(mem), 4)
    &&& 0 <= cell_at(mem, next_word(mem))
}

/// The arena after a dispatch step: the program counter is one cell further,
/// and the scratch register holds the code field address of the word that
/// was dispatched.
pub open spec fn dispatched(mem: Seq<u8>) -> Seq<u8> {
    store_cell(
        store_cell(mem, mmap::IC as int, ic_of(mem) + 4),
        mmap::A0 as int,
        next_word(mem),
    )
}

/// The arena after the value that lies `k` cells below the newest one on the
/// parameter stack was set to `value`.
pub open spec fn set_pick(mem: Seq<u8>, k: int, value: int) -> Seq<u8> {
    store_cell(mem, dsp_of(mem) + 4 + 4 * k, value)
}

/// Whether the division instruction can run on the two newest values: the
/// divisor is not 0 and the quotient fits a cell.
pub open spec fn can_divide(mem: Seq<u8>) -> bool {
    picked(mem, 0) != 0 && !(picked(mem, 1) == i32::MIN && picked(mem, 0) == -1)
}

/// What each of the added instructions needs of the arena.
pub open spec fn can_run(mem: Seq<u8>, op: u8) -> bool {
    if op == NEXT {
        can_dispatch(mem)
    } else if op == DIV_MOD {
        can_pop(mem, 2) && can_divide(mem)
    } else if op == OVER {
        can_pop(mem, 2) && can_push(mem)
    } else if op == ROT {
        can_pop(mem, 3)
    } else {
        true
    }
}

/// The arena after one of the added instructions ran; any other instruction
/// leaves it as it is.
pub open spec fn ran(mem: Seq<u8>, op: u8) -> Seq<u8> {
    if op == NEXT {
        dispatched(mem)
    } else if op == DIV_MOD {
        set_pick(
            set_pick(mem, 1, remainder(picked(mem, 1), picked(mem, 0))),
            0,
            quotient(picked(mem, 1), picked(mem, 0)),
        )
    } else if op == OVER {
        pushed(mem, picked(mem, 1))
    } else if op == ROT {
        set_pick(set_pick(set_pick(mem, 2, picked(mem, 1)), 1, picked(mem, 0)), 0, picked(mem, 2))
    } else {
        mem
    }
}

impl ForthVM {
    /// The dispatch step: reads the code field address of the next word at
    /// the program counter, advances the program counter by one cell, notes
    /// the code field address in the scratch register and returns the
    /// address of the code to run, which the code field holds.
    pub fn next(&mut self) -> (ip: usize)
        requires
            old(self).wf(),
            can_dispatch(old(self).mem()),
        ensures
            final(self).wf(),
            ip == cell_at(old(self).mem(), next_word(old(self).mem())),
            final(self).mem() == dispatched(old(self).mem()),
            final(self).names() == old(self).names(),
    {
        let ic: i32 = self.read_i32(44);
        let code_ptr: i32 = self.read_i32(ic);
        let ip: usize = self.read_i32(code_ptr) as usize;
        self.write_i32(ic + 4, 44);
        self.write_i32(code_ptr, 48);
        ip
    }

    /// ( a b -- r q ): replaces the two newest values of the parameter stack
    /// by the remainder and the quotient of the older by the newer.
    pub fn div_mod(&mut self)
        requires
            old(self).wf(),
            can_run(old(self).mem(), DIV_MOD),
        ensures
            final(self).wf(),
            final(self).mem() == ran(old(self).mem(), DIV_MOD),
            final(self).names() == old(self).names(),
    {
        let top: i32 = self.read_i32(4);
        let b: i32 = self.read_i32(top + 4);
        let a: i32 = self.read_i32(top + 8);
        proof {
            lemma_quotient_range(a as int, b as int);
        }
        let q: i32 = a / b;
        let r: i32 = a % b;
        self.write_i32(r, top + 8);
        proof {
            lemma_cell_apart(old(self).mem(), top + 8, cell_bytes(r as int), mmap::DSP as int);
        }
        self.write_i32(q, top + 4);
    }

    /// ( a b -- a b a ): pushes a copy of the second value of the parameter
    /// stack.
    pub fn over(&mut self)
        requires
            old(self).wf(),
            can_run(old(self).mem(), OVER),
        ensures
            final(self).wf(),
            final(self).mem() == ran(old(self).mem(), OVER),
            final(self).names() == old(self).names(),
    {
        let top: i32 = self.read_i32(4);
        let a: i32 = self.read_i32(top + 8);
        self.push_i32(a);
    }

    /// ( a b c -- b c a ): moves the third value of the parameter stack to
    /// its top.
    pub fn rot(&mut self)
        requires
            old(self).wf(),
            can_run(old(self).mem(), ROT),
        ensures
            final(self).wf(),
            final(self).mem() == ran(old(self).mem(), ROT),
            final(self).names() == old(self).names(),
    {
        let top: i32 = self.read_i32(4);
        let c: i32 = self.read_i32(top + 4);
        let b: i32 = self.read_i32(top + 8);
        let a: i32 = self.read_i32(top + 12);
        self.write_i32(b, top + 12);
        proof {
            lemma_cell_apart(old(self).mem(), top + 12, cell_bytes(b as int), mmap::DSP as int);
        }
        let ghost m1 = self.mem();
        self.write_i32(c, top + 8);
        proof {
            lemma_cell_apart(m1, top + 8, cell_bytes(c as int), mmap::DSP as int);
        }
        self.write_i32(a, top + 4);
    }

    /// Runs `op` if it is one of the instructions that the runtime adds to
    /// the engine's instruction set, and says whether it was one. A dispatch
    /// step sets `ip` to the address of the code to run next.
    pub fn forth_opcodes(&mut self, ip: &mut usize, op: u8) -> (known: bool)
        requires
            old(self).wf(),
            can_run(old(self).mem(), op),
        ensures
            final(self).wf(),
            known == (op == NEXT || op == DIV_MOD || op == OVER || op == ROT),
            final(self).mem() == ran(old(self).mem(), op),
            final(self).names() == old(self).names(),
            *final(ip) == if op == NEXT {
                cell_at(old(self).mem(), next_word(old(self).mem())) as usize
            } else {
                *old(ip)
            },
    {
        if op == NEXT {
            *ip = self.next();
        } else if op == DIV_MOD {
            self.div_mod();
        } else if op == OVER {
            self.over();
        } else if op == ROT {
            self.rot();
        } else {
            return false;
        }
        true
    }
}

} // verus!
