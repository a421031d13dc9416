//! The runtime instance: the byte arena with its register file, and the
//! typed accessors through which everything else reads and writes it.

use vstd::prelude::*;
use std::collections::HashMap;
use vstd::std_specs::hash::group_hash_axioms;
use crate::cells::{cell_at, in_bounds, lemma_cell_reads_back, store_byte, store_bytes, store_cell};
use crate::mmap;
use crate::{COMPILING, INTERPRETING};
use crate::opcodes::{docol, docol_code, Opcodes};
use crate::threaded::NEXT;

verus! {

broadcast use group_hash_axioms;

/// The largest arena that can be addressed by cells.
pub const MAX_MEMORY: usize = 0x7fff_ff00;

/// Sizes from which a runtime instance is laid out.
pub struct VmConfig {
    pub memory_size_bytes: usize,
    pub parameter_stack_size_cells: usize,
    pub return_stack_size_cells: usize,
    pub call_stack_size_cells: usize,
    pub locals_stack_size_cells: usize,
}

impl VmConfig {
    /// Address of the base of the engine's call stack region: the last cell
    /// of the arena.
    pub open spec fn cstack_top(&self) -> int {
        self.memory_size_bytes - 4
    }

    /// Address below the `call_stack_size_cells` cells at the top.
    pub open spec fn lstack_top(&self) -> int {
        self.cstack_top() - 4 * self.call_stack_size_cells
    }

    /// Address of the base of the return stack.
    pub open spec fn rstack_top(&self) -> int {
        self.lstack_top() - 4 * self.locals_stack_size_cells
    }

    /// Address of the base of the parameter stack.
    pub open spec fn pstack_top(&self) -> int {
        self.rstack_top() - 4 * self.return_stack_size_cells
    }

    /// Whether a runtime can be laid out: the arena holds the register file
    /// and can be addressed by cells, and the regions above the parameter
    /// stack fit in it.
    pub open spec fn valid(&self) -> bool {
        &&& mmap::DICT <= self.memory_size_bytes <= MAX_MEMORY
        &&& 0 <= self.rstack_top() - 4 * self.return_stack_size_cells
    }

    /// Whether a runtime can be laid out from these sizes.
    pub fn is_valid(&self) -> (r: bool)
        ensures
            r == self.valid(),
    {
        if self.memory_size_bytes < mmap::DICT || self.memory_size_bytes > MAX_MEMORY {
            return false;
        }
        let quarter: usize = (self.memory_size_bytes - 4) / 4;
        if self.call_stack_size_cells > quarter {
            return false;
        }
        let rest: usize = quarter - self.call_stack_size_cells;
        if self.locals_stack_size_cells > rest {
            return false;
        }
        self.return_stack_size_cells <= rest - self.locals_stack_size_cells
    }
}

/// What holds of the arena of a runtime that was just laid out from `conf`.
pub open spec fn configured(mem: Seq<u8>, conf: VmConfig, ops: Opcodes) -> bool {
    &&& mem.len() == conf.memory_size_bytes
    &&& cell_at(mem, mmap::DSP as int) == conf.pstack_top()
    &&& cell_at(mem, mmap::S0 as int) == conf.pstack_top()
    &&& cell_at(mem, mmap::RSP as int) == conf.rstack_top()
    &&& cell_at(mem, mmap::R0 as int) == conf.rstack_top()
    &&& cell_at(mem, mmap::CTOP as int) == conf.lstack_top()
    &&& cell_at(mem, mmap::CBASE as int) == conf.lstack_top()
    &&& cell_at(mem, mmap::LTOP as int) == conf.cstack_top()
    &&& cell_at(mem, mmap::LBASE as int) == conf.cstack_top()
    &&& cell_at(mem, mmap::HERE as int) == mmap::DICT
    &&& cell_at(mem, mmap::LATEST as int) == 0
    &&& cell_at(mem, mmap::IC as int) == 0
    &&& cell_at(mem, mmap::A0 as int) == 0
    &&& cell_at(mem, mmap::STATE as int) == INTERPRETING
    &&& cell_at(mem, mmap::IN_STREAM as int) == conf.rstack_top() + 4
    &&& cell_at(mem, mmap::BASE as int) == 10
    &&& cell_at(mem, mmap::START_ADR as int) == 0
    &&& mem[mmap::COLD_START as int] == NEXT
    &&& cell_at(mem, mmap::INPUT_BUFFER as int) == conf.lstack_top()
    &&& cell_at(mem, mmap::INPUT_BUFFER_IN as int) == 0
    &&& mem.subrange(mmap::DOCOL as int, mmap::DOCOL + 47) == docol_code(ops)
    &&& forall|i: int|
        (0 <= i < 4 || mmap::COLD_START < i < mmap::INPUT_BUFFER || mmap::DOCOL + 47 <= i
            < mem.len()) ==> mem[i] == 0
}

/// One runtime instance. All of its state is in the arena.
pub struct ForthVM {
    pub(crate) memory: Vec<u8>,
    pub(crate) vocabulary: HashMap<i32, String>,
}

impl ForthVM {
    /// Lays out a runtime: a zeroed arena of the configured size with the
    /// stack registers at the bases of their regions, which are carved from
    /// the top of the arena downward, the radix ten, an empty dictionary, the
    /// dispatch instruction at the entry point and the trampoline of
    /// composite words.
    pub fn from_config(conf: VmConfig, ops: &Opcodes) -> (vm: ForthVM)
        requires
            conf.valid(),
        ensures
            vm.wf(),
            configured(vm.mem(), conf, *ops),
            vm.names() == Map::<i32, Seq<char>>::empty(),
    {
        let memory: Vec<u8> = vec![0u8; conf.memory_size_bytes];
        let cstack_top: usize = memory.len() - 4;
        let lstack_top: usize = cstack_top - conf.call_stack_size_cells * 4;
        let rstack_top: usize = lstack_top - conf.locals_stack_size_cells * 4;
        let pstack_top: usize = rstack_top - conf.return_stack_size_cells * 4;
        let mut vm = ForthVM { memory, vocabulary: HashMap::new() };
        let ghost zero = vm.mem();
        assert(vm.names() =~= Map::<i32, Seq<char>>::empty());
        assert(forall|i: int| 0 <= i < zero.len() ==> zero[i] == 0);
        vm.init_cell(pstack_top as i32, 4);
        vm.init_cell(pstack_top as i32, 8);
        vm.init_cell(rstack_top as i32, 12);
        vm.init_cell(rstack_top as i32, 16);
        vm.init_cell(lstack_top as i32, 20);
        vm.init_cell(lstack_top as i32, 24);
        vm.init_cell(cstack_top as i32, 28);
        vm.init_cell(cstack_top as i32, 32);
        vm.init_cell(10, 60);
        vm.init_cell(144, 36);
        vm.init_cell(rstack_top as i32 + 4, 56);
        vm.init_cell(lstack_top as i32, 72);
        vm.init_cell(0, 76);
        let ghost m1 = vm.mem();
        vm.write_u8(NEXT, 68);
        let ghost m2 = vm.mem();
        let code = docol(ops);
        vm.write(80, code.as_slice());
        proof {
            let m = vm.mem();
            assert(m.subrange(mmap::DOCOL as int, mmap::DOCOL + 47) =~= docol_code(*ops));
            assert forall|i: int| 0 <= i < 80 implies m[i] == m2[i] by {}
            assert forall|i: int| 0 <= i < 80 && i != 68 implies m2[i] == m1[i] by {}
        }
        vm
    }

    /// A runtime over an arena that was laid out before, with an empty name
    /// table. There is none where the arena is too small for the register
    /// file or too large to be addressed by cells.
    pub fn from_memory(memory: Vec<u8>) -> (r: Option<ForthVM>)
        ensures
            match r {
                Some(vm) => {
                    &&& vm.wf()
                    &&& vm.mem() == memory@
                    &&& vm.names() == Map::<i32, Seq<char>>::empty()
                },
                None => !(mmap::DICT <= memory@.len() <= MAX_MEMORY),
            },
    {
        if memory.len() < mmap::DICT || memory.len() > MAX_MEMORY {
            return None;
        }
        let vm = ForthVM { memory, vocabulary: HashMap::new() };
        assert(vm.names() =~= Map::<i32, Seq<char>>::empty());
        Some(vm)
    }

    /// The bytes of the arena.
    pub fn memory(&self) -> (bytes: &[u8])
        ensures
            bytes@ == self.mem(),
    {
        self.memory.as_slice()
    }

    /// Replaces the contents of the arena by `bytes`.
    pub fn load(&mut self, bytes: &[u8])
        requires
            bytes@.len() == old(self).mem().len(),
        ensures
            final(self).mem() == bytes@,
            final(self).names() == old(self).names(),
    {
        self.write(0, bytes);
        assert(self.mem() =~= bytes@);
    }

    /// The name under which the code field at `cf` was defined, if any.
    pub fn word_name(&self, cf: i32) -> (r: Option<&String>)
        ensures
            match r {
                Some(name) => self.names().dom().contains(cf) && self.names()[cf] == name@,
                None => !self.names().dom().contains(cf),
            },
    {
        let r = self.vocabulary.get(&cf);
        proof {
            if self.vocabulary@.dom().contains(cf) {
                assert(self.names()[cf] == self.vocabulary@[cf]@);
            }
        }
        r
    }

    /// The arena holds the register file and the trampoline, and every
    /// address in it, with the few bytes that a header or an alignment may
    /// reach past it, fits a cell.
    pub open spec fn wf(&self) -> bool {
        mmap::DICT <= self.mem().len() <= MAX_MEMORY
    }

    /// The contents of the arena.
    pub closed spec fn mem(&self) -> Seq<u8> {
        self.memory@
    }

    /// The name table: the name under which each code field address was
    /// defined. It serves diagnostics only.
    pub closed spec fn names(&self) -> Map<i32, Seq<char>> {
        self.vocabulary@.map_values(|s: String| s@)
    }

    /// The number of bytes in the arena.
    pub fn memory_size(&self) -> (n: usize)
        ensures
            n == self.mem().len(),
    {
        self.memory.len()
    }

    /// Sets the cell at address `idx`, leaving every byte outside it alone.
    fn init_cell(&mut self, value: i32, idx: i32)
        requires
            in_bounds(old(self).mem().len(), idx as int, 4),
        ensures
            final(self).mem().len() == old(self).mem().len(),
            final(self).names() == old(self).names(),
            cell_at(final(self).mem(), idx as int) == value,
            forall|i: int|
                0 <= i < old(self).mem().len() && !(idx <= i < idx + 4) ==> final(self).mem()[i]
                    == old(self).mem()[i],
    {
        proof {
            lemma_cell_reads_back();
        }
        self.write_i32(value, idx);
    }

    /// The byte at index `i` of the arena.
    pub(crate) fn byte(&self, i: usize) -> (r: u8)
        requires
            i < self.mem().len(),
        ensures
            r == self.mem()[i as int],
    {
        self.memory[i]
    }

    /// Reads the byte at address `idx`.
    pub fn read_u8(&self, idx: i32) -> (r: u8)
        requires
            in_bounds(self.mem().len(), idx as int, 1),
        ensures
            r == self.mem()[idx as int],
    {
        self.memory[idx as usize]
    }

    /// Sets the byte at address `idx`.
    pub fn write_u8(&mut self, value: u8, idx: i32)
        requires
            in_bounds(old(self).mem().len(), idx as int, 1),
        ensures
            final(self).mem() == store_byte(old(self).mem(), idx as int, value),
            final(self).names() == old(self).names(),
    {
        self.memory.set(idx as usize, value);
        assert(self.memory@ =~= store_byte(old(self).memory@, idx as int, value));
    }

    /// Reads the cell at address `idx`.
    pub fn read_i32(&self, idx: i32) -> (r: i32)
        requires
            in_bounds(self.mem().len(), idx as int, 4),
        ensures
            r == cell_at(self.mem(), idx as int),
    {
        let i: usize = idx as usize;
        let b0: u32 = self.memory[i] as u32;
        let b1: u32 = self.memory[i + 1] as u32;
        let b2: u32 = self.memory[i + 2] as u32;
        let b3: u32 = self.memory[i + 3] as u32;
        let u: u32 = b0 + 256 * b1 + 65536 * b2 + 16777216 * b3;
        if u >= 0x8000_0000 {
            ((u - 0x8000_0000) as i32) + i32::MIN
        } else {
            u as i32
        }
    }

    /// Sets the cell at address `idx`.
    pub fn write_i32(&mut self, value: i32, idx: i32)
        requires
            in_bounds(old(self).mem().len(), idx as int, 4),
        ensures
            final(self).mem() == store_cell(old(self).mem(), idx as int, value as int),
            final(self).names() == old(self).names(),
    {
        let u: u32 = if value < 0 {
            ((value - i32::MIN) as u32) + 0x8000_0000
        } else {
            value as u32
        };
        let i: usize = idx as usize;
        self.memory.set(i, (u % 256) as u8);
        self.memory.set(i + 1, ((u / 256) % 256) as u8);
        self.memory.set(i + 2, ((u / 65536) % 256) as u8);
        self.memory.set(i + 3, ((u / 16777216) % 256) as u8);
        assert(self.memory@ =~= store_cell(old(self).memory@, idx as int, value as int));
    }

    /// Writes `bytes` into the arena from address `idx` on.
    pub fn write(&mut self, idx: usize, bytes: &[u8])
        requires
            idx + bytes@.len() <= old(self).mem().len(),
        ensures
            final(self).mem() == store_bytes(old(self).mem(), idx as int, bytes@),
            final(self).names() == old(self).names(),
    {
        let n: usize = bytes.len();
        let total: usize = self.memory.len();
        let mut k: usize = 0;
        while k < n
            invariant
                n == bytes@.len(),
                k <= n,
                idx + n <= total,
                total == self.memory@.len(),
                self.vocabulary == old(self).vocabulary,
                self.memory@ == store_bytes(old(self).memory@, idx as int, bytes@.take(k as int)),
            decreases n - k,
        {
            self.memory.set(idx + k, bytes[k]);
            assert(self.memory@ =~= store_bytes(
                old(self).memory@,
                idx as int,
                bytes@.take(k + 1),
            ));
            k = k + 1;
        }
        assert(bytes@.take(n as int) =~= bytes@);
        assert(self.memory@ =~= store_bytes(old(self).memory@, idx as int, bytes@));
    }

    /// Notes in the name table that the code field at `cf` belongs to `name`.
    pub(crate) fn remember(&mut self, cf: i32, name: &str)
        ensures
            final(self).mem() == old(self).mem(),
            final(self).names() == old(self).names().insert(cf, name@),
    {
        self.vocabulary.insert(cf, name.to_owned());
        assert(self.names() =~= old(self).names().insert(cf, name@));
    }

    /// The value of the register at address `r`.
    pub open spec fn reg(&self, r: usize) -> int {
        cell_at(self.mem(), r as int)
    }

    /// Address of the newest dictionary entry, 0 while there is none.
    pub fn latest(&self) -> (r: i32)
        requires
            self.wf(),
        ensures
            r == self.reg(mmap::LATEST),
    {
        self.read_i32(40)
    }

    pub fn set_latest(&mut self, value: i32)
        requires
            old(self).wf(),
        ensures
            final(self).mem() == store_cell(old(self).mem(), mmap::LATEST as int, value as int),
            final(self).names() == old(self).names(),
    {
        self.write_i32(value, 40)
    }

    /// Address of the next free byte of the dictionary.
    pub fn here(&self) -> (r: i32)
        requires
            self.wf(),
        ensures
            r == self.reg(mmap::HERE),
    {
        self.read_i32(36)
    }

    pub fn set_here(&mut self, value: i32)
        requires
            old(self).wf(),
        ensures
            final(self).mem() == store_cell(old(self).mem(), mmap::HERE as int, value as int),
            final(self).names() == old(self).names(),
    {
        self.write_i32(value, 36)
    }

    /// The radix of number parsing.
    pub fn base(&self) -> (r: i32)
        requires
            self.wf(),
        ensures
            r == self.reg(mmap::BASE),
    {
        self.read_i32(60)
    }

    pub fn set_base(&mut self, value: i32)
        requires
            old(self).wf(),
        ensures
            final(self).mem() == store_cell(old(self).mem(), mmap::BASE as int, value as int),
            final(self).names() == old(self).names(),
    {
        self.write_i32(value, 60)
    }

    /// The compiler state.
    pub fn state(&self) -> (r: i32)
        requires
            self.wf(),
        ensures
            r == self.reg(mmap::STATE),
    {
        self.read_i32(52)
    }

    pub fn set_state(&mut self, value: i32)
        requires
            old(self).wf(),
        ensures
            final(self).mem() == store_cell(old(self).mem(), mmap::STATE as int, value as int),
            final(self).names() == old(self).names(),
    {
        self.write_i32(value, 52)
    }

    pub fn is_compiling(&self) -> (r: bool)
        requires
            self.wf(),
        ensures
            r == (self.reg(mmap::STATE) == COMPILING),
    {
        self.state() == COMPILING
    }

    pub fn is_interpreting(&self) -> (r: bool)
        requires
            self.wf(),
        ensures
            r == (self.reg(mmap::STATE) == INTERPRETING),
    {
        self.state() == INTERPRETING
    }
}

} // verus!
