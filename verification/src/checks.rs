//! What the words need of the arena before they run, as tests that a caller
//! can make.

use vstd::prelude::*;
use crate::cells::in_bounds;
use crate::forthvm::ForthVM;
use crate::input::{buffered, input_ok, token_ok};
use crate::stacks::{can_pop, can_push};
use crate::threaded::{can_run, DIV_MOD, NEXT, OVER, ROT};
use crate::words::{can_create, stack_apart};

verus! {

impl ForthVM {
    /// Whether the `n` bytes from address `a` on lie inside the arena.
    pub fn in_arena(&self, a: i32, n: i32) -> (r: bool)
        requires
            self.wf(),
        ensures
            r == in_bounds(self.mem().len(), a as int, n as int),
    {
        let total: usize = self.memory_size();
        a >= 0 && n >= 0 && (a as i64) + (n as i64) <= total as i64
    }

    /// Whether the parameter stack can take one more value.
    pub fn stack_takes(&self) -> (r: bool)
        requires
            self.wf(),
        ensures
            r == can_push(self.mem()),
    {
        let top: i32 = self.read_i32(4);
        let total: usize = self.memory_size();
        top >= 144 && top as i64 + 4 <= total as i64
    }

    /// Whether the `n` newest cells of the parameter stack lie in the
    /// arena.
    pub fn stack_holds(&self, n: u8) -> (r: bool)
        requires
            self.wf(),
        ensures
            r == can_pop(self.mem(), n as int),
    {
        let top: i32 = self.read_i32(4);
        let total: usize = self.memory_size();
        top as i64 + 4 >= 144 && top as i64 + 4 + 4 * (n as i64) <= total as i64
    }

    /// Whether the input line buffer is in order.
    pub fn input_in_order(&self) -> (r: bool)
        requires
            self.wf(),
        ensures
            r == input_ok(self.mem()),
    {
        let buf: i32 = self.read_i32(72);
        let read: i32 = self.read_i32(76);
        let total: usize = self.memory_size();
        buf >= 144 && buf as i64 + 256 <= total as i64 && read >= 0
    }

    /// Whether every byte of the input line was read.
    pub fn line_exhausted(&self) -> (r: bool)
        requires
            self.wf(),
            input_ok(self.mem()),
        ensures
            r == (buffered(self.mem()).len() == 0),
    {
        let buf: i32 = self.read_i32(72);
        let read: i32 = self.read_i32(76);
        let len: u8 = self.read_u8(buf);
        read >= len as i32
    }

    /// Whether the input line buffer and the scratch area are in order.
    pub fn token_in_order(&self) -> (r: bool)
        requires
            self.wf(),
        ensures
            r == token_ok(self.mem()),
    {
        let scratch: i32 = self.read_i32(56);
        let buf: i32 = self.read_i32(72);
        self.input_in_order() && 144 <= scratch && scratch <= buf
    }

    /// Whether two values can be pushed without touching the scratch area
    /// or the input line buffer.
    pub fn stack_is_apart(&self) -> (r: bool)
        requires
            self.wf(),
        ensures
            r == stack_apart(self.mem()),
    {
        let top: i64 = self.read_i32(4) as i64;
        let scratch: i64 = self.read_i32(56) as i64;
        let buf: i64 = self.read_i32(72) as i64;
        let total: usize = self.memory_size();
        top - 4 >= 144 && top + 4 <= total as i64 && (top + 4 <= scratch || buf + 256 <= top - 4)
    }

    /// Whether the instruction `op` can run, if it is one that the runtime
    /// adds to the engine's instruction set.
    pub fn can_run_op(&self, op: u8) -> (r: bool)
        requires
            self.wf(),
        ensures
            r == can_run(self.mem(), op),
    {
        if op == NEXT {
            let ic: i32 = self.read_i32(44);
            if !self.in_arena(ic, 4) {
                return false;
            }
            let code_ptr: i32 = self.read_i32(ic);
            if !self.in_arena(code_ptr, 4) {
                return false;
            }
            self.read_i32(code_ptr) >= 0
        } else if op == DIV_MOD {
            if !self.stack_holds(2) {
                return false;
            }
            let top: i32 = self.read_i32(4);
            let b: i32 = self.read_i32(top + 4);
            let a: i32 = self.read_i32(top + 8);
            b != 0 && !(a == i32::MIN && b == -1)
        } else if op == OVER {
            self.stack_holds(2) && self.stack_takes()
        } else if op == ROT {
            self.stack_holds(3)
        } else {
            true
        }
    }

    /// Whether a bare header can be made for a name of `len` bytes at
    /// address `ptr`.
    pub fn can_create_header(&self, len: i32, ptr: i32) -> (r: bool)
        requires
            self.wf(),
        ensures
            r == can_create(self.mem(), len as int, ptr as int),
    {
        let here: i32 = self.here();
        let total: usize = self.memory_size();
        let n: i32 = if 0 <= len && len <= 13 {
            len
        } else {
            13
        };
        here >= 144 && here as i64 + 5 + n as i64 <= total as i64 && self.in_arena(ptr, n)
    }
}

} // verus!
