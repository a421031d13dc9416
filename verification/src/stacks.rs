//! The parameter stack and the return stack. Each grows downward from its
//! base register; its top register points at the next free cell, so the
//! newest value lies one cell above the top.

use vstd::prelude::*;
use crate::cells::{cell_at, lemma_cell_round_trip, store_cell};
use crate::forthvm::ForthVM;
use crate::mmap;

verus! {

/// The quotient of `a` by `b`, rounded toward zero.
pub open spec fn quotient(a: int, b: int) -> int {
    if a >= 0 {
        a / b
    } else {
        -((-a) / b)
    }
}

/// The remainder that belongs to `quotient`: it has the sign of `a`, and
/// `b * quotient(a, b) + remainder(a, b) == a`.
pub open spec fn remainder(a: int, b: int) -> int {
    if a >= 0 {
        a % b
    } else {
        -((-a) % b)
    }
}

/// The quotient of two cell values fits a cell, but for the least value
/// divided by -1.
pub proof fn lemma_quotient_range(a: int, b: int)
    requires
        i32::MIN <= a <= i32::MAX,
        i32::MIN <= b <= i32::MAX,
        b != 0,
        !(a == i32::MIN && b == -1),
    ensures
        i32::MIN <= quotient(a, b) <= i32::MAX,
{
    if a >= 0 {
        assert(-a <= a / b <= a) by (nonlinear_arith)
            requires
                a >= 0,
                b != 0,
        ;
    } else {
        let n = -a;
        if b == -1 {
            assert(n / b == -n) by (nonlinear_arith)
                requires
                    b == -1,
            ;
        } else if b == 1 {
            assert(n / b == n) by (nonlinear_arith)
                requires
                    b == 1,
            ;
        } else {
            assert(-n < n / b < n) by (nonlinear_arith)
                requires
                    n > 0,
                    b >= 2 || b <= -2,
            ;
        }
    }
}

/// The top register of the parameter stack.
pub open spec fn dsp_of(mem: Seq<u8>) -> int {
    cell_at(mem, mmap::DSP as int)
}

/// The value that lies `k` cells below the newest one on the parameter stack.
pub open spec fn picked(mem: Seq<u8>, k: int) -> int {
    cell_at(mem, dsp_of(mem) + 4 + 4 * k)
}

/// The arena after `value` was pushed on the parameter stack.
#[verifier::opaque]
pub open spec fn pushed(mem: Seq<u8>, value: int) -> Seq<u8> {
    store_cell(store_cell(mem, dsp_of(mem), value), mmap::DSP as int, dsp_of(mem) - 4)
}

/// The arena after the newest value was taken off the parameter stack.
#[verifier::opaque]
pub open spec fn popped(mem: Seq<u8>) -> Seq<u8> {
    store_cell(mem, mmap::DSP as int, dsp_of(mem) + 4)
}

/// Whether the parameter stack can take one more value: the cell at its top
/// lies in the arena, above the register file.
pub open spec fn can_push(mem: Seq<u8>) -> bool {
    mmap::DICT <= dsp_of(mem) && dsp_of(mem) + 4 <= mem.len()
}

/// Whether the `n` newest cells of the parameter stack lie in the arena,
/// above the register file.
pub open spec fn can_pop(mem: Seq<u8>, n: int) -> bool {
    mmap::DICT <= dsp_of(mem) + 4 && dsp_of(mem) + 4 + 4 * n <= mem.len()
}

/// The depth that a stack with the given base and top has.
pub open spec fn depth(base: int, top: int) -> int {
    quotient(base - top, 4)
}

/// Whether `post` is `pre` but for the top register of the parameter stack
/// and the cell at address `at`.
pub open spec fn same_but_stack(pre: Seq<u8>, post: Seq<u8>, at: int) -> bool {
    &&& post.len() == pre.len()
    &&& forall|i: int|
        0 <= i < pre.len() && !(mmap::DSP <= i < mmap::DSP + 4) && !(at <= i < at + 4) ==> post[i]
            == pre[i]
}

/// A push writes the value at the top of the parameter stack and moves the
/// top one cell down.
pub proof fn lemma_pushed(mem: Seq<u8>, value: int)
    requires
        can_push(mem),
        mem.len() <= i32::MAX,
        i32::MIN <= value <= i32::MAX,
    ensures
        dsp_of(pushed(mem, value)) == dsp_of(mem) - 4,
        picked(pushed(mem, value), 0) == value,
        same_but_stack(mem, pushed(mem, value), dsp_of(mem)),
{
    reveal(pushed);
    let t = dsp_of(mem);
    let m1 = store_cell(mem, t, value);
    lemma_cell_round_trip(mem, t, value);
    lemma_cell_round_trip(m1, mmap::DSP as int, t - 4);
    assert(cell_at(pushed(mem, value), t) == cell_at(m1, t));
}

/// A pop moves the top of the parameter stack one cell up and changes
/// nothing else.
pub proof fn lemma_popped(mem: Seq<u8>)
    requires
        can_pop(mem, 1),
        mem.len() <= i32::MAX - 4,
    ensures
        dsp_of(popped(mem)) == dsp_of(mem) + 4,
        same_but_stack(mem, popped(mem), mmap::DSP as int),
{
    reveal(popped);
    lemma_cell_round_trip(mem, mmap::DSP as int, dsp_of(mem) + 4);
}

impl ForthVM {
    /// Pushes `value` on the parameter stack.
    pub fn push_i32(&mut self, value: i32)
        requires
            old(self).wf(),
            can_push(old(self).mem()),
        ensures
            final(self).wf(),
            final(self).mem() == pushed(old(self).mem(), value as int),
            final(self).names() == old(self).names(),
    {
        reveal(pushed);
        let top: i32 = self.read_i32(4);
        self.write_i32(value, top);
        self.write_i32(top - 4, 4);
    }

    /// Takes the newest value off the parameter stack.
    pub fn pop_i32(&mut self) -> (value: i32)
        requires
            old(self).wf(),
            can_pop(old(self).mem(), 1),
        ensures
            final(self).wf(),
            value == picked(old(self).mem(), 0),
            final(self).mem() == popped(old(self).mem()),
            final(self).names() == old(self).names(),
    {
        reveal(popped);
        let top: i32 = self.read_i32(4) + 4;
        let value: i32 = self.read_i32(top);
        self.write_i32(top, 4);
        value
    }

    /// The number of values on the parameter stack.
    pub fn pstack_depth(&self) -> (r: i32)
        requires
            self.wf(),
            i32::MIN <= self.reg(mmap::S0) - self.reg(mmap::DSP) <= i32::MAX,
        ensures
            r == depth(self.reg(mmap::S0), self.reg(mmap::DSP)),
    {
        let base: i32 = self.read_i32(8);
        let top: i32 = self.read_i32(4);
        (base - top) / 4
    }

    /// The number of values on the return stack.
    pub fn rstack_depth(&self) -> (r: i32)
        requires
            self.wf(),
            i32::MIN <= self.reg(mmap::R0) - self.reg(mmap::RSP) <= i32::MAX,
        ensures
            r == depth(self.reg(mmap::R0), self.reg(mmap::RSP)),
    {
        let base: i32 = self.read_i32(16);
        let top: i32 = self.read_i32(12);
        (base - top) / 4
    }
}

} // verus!
