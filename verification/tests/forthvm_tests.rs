use forthvm::mmap::{self, STATE};
use forthvm::opcodes::Opcodes;
use forthvm::threaded::NEXT;
use forthvm::{ForthVM, VmConfig, HIDDEN, IMMEDIATE, LEN_MASK, MAX_WORD_LEN};

fn ops() -> Opcodes {
    Opcodes {
        i32_const: 1,
        i32_load: 2,
        i32_store: 3,
        i32_load_8: 4,
        i32_store_8: 5,
        dup: 6,
        swap: 7,
        drop: 8,
        add: 9,
        sub: 10,
        mul: 11,
        div_s: 12,
        mod_s: 13,
        inc: 14,
        dec: 15,
        eq: 16,
        eqz: 17,
        zero: 18,
        lt_s: 19,
        gt_s: 20,
        lt_u: 21,
        gt_u: 22,
        le_s: 23,
        ge_s: 24,
        min: 25,
        max: 26,
        and: 27,
        or: 28,
        xor: 29,
        not: 30,
        jzi: 31,
        brzi: 32,
        br: 33,
        call_vm: 34,
        end: 35,
    }
}

fn new_vm() -> ForthVM {
    let conf = VmConfig {
        memory_size_bytes: 0x10000,
        parameter_stack_size_cells: 256,
        return_stack_size_cells: 256,
        call_stack_size_cells: 256,
        locals_stack_size_cells: 256,
    };
    ForthVM::from_config(conf, &ops())
}

#[test]
fn test_input_buf() {
    let mut vm = new_vm();
    let s = "testing input buffer!\n".to_string();
    vm.fill_input_buffer(&s);
    let mut result = String::new();
    while let Some(c) = vm.read_next_char() {
        result.push(c as char);
    }

    assert_eq!(result, s)
}

#[test]
fn test_write_previous_idx() {
    let mut vm = new_vm();

    vm.write_i32(47, mmap::LATEST as i32);
    let here = vm.here();

    vm.write_previous_idx();

    let result = vm.read_i32(here);
    assert_eq!(result, 47);
    assert_eq!(vm.here(), here + 4);
}

#[test]
fn test_write_name_ex() {
    let mut vm = new_vm();

    let here = vm.here();

    vm.write_name("foobarooo", HIDDEN | IMMEDIATE);

    let len_byte = vm.read_u8(here);

    assert_eq!(len_byte & HIDDEN, HIDDEN, "HIDDEN flag set");
    assert_eq!(len_byte & IMMEDIATE, IMMEDIATE, "IMMEDIATE flag set");
    assert_eq!(len_byte & LEN_MASK, 9);

    // Nine name bytes are stored: one length byte and the name take ten
    // bytes, and the free-space pointer is aligned behind them.
    assert_eq!(vm.here(), here + 12);

    for (i, b) in "foobarooo".as_bytes().iter().take(MAX_WORD_LEN).enumerate() {
        assert_eq!(*b, vm.read_u8(here + 1 + i as i32));
    }
}

#[test]
fn test_write_col_def() {
    let mut vm = new_vm();
    let ops = ops();

    let drop = vm.builtin("drop", &[ops.drop, NEXT]);
    let swap = vm.builtin("swap", &[ops.swap, NEXT]);
    let dup = vm.builtin("dup", &[ops.dup, NEXT]);
    let bye = vm.builtin("bye", &[ops.end]);

    let here = vm.here();

    vm.write_colon_def(&["drop", "swap", "dup", "bye"]).unwrap();

    assert_eq!(vm.here(), here + 16);

    assert_eq!(vm.cfa(drop), vm.read_i32(here));
    assert_eq!(vm.cfa(swap), vm.read_i32(here + 4));
    assert_eq!(vm.cfa(dup), vm.read_i32(here + 8));
    assert_eq!(vm.cfa(bye), vm.read_i32(here + 12));
}

#[test]
fn test_builtin() {
    let mut vm = new_vm();
    let ops = ops();
    let state = STATE.to_le_bytes();
    let here = vm.here();

    vm.builtin(
        "state",
        &[ops.i32_const, state[0], state[1], state[2], state[3], NEXT],
    );

    assert_eq!(here, vm.latest());
    assert_eq!(vm.read_i32(vm.latest()), 0, "previous word idx");

    let word_len = vm.read_u8(vm.latest() + 4);
    assert_eq!(word_len as usize, "state".len());

    for (i, c) in "state".as_bytes().iter().enumerate() {
        assert_eq!(*c, vm.read_u8(vm.latest() + 5 + i as i32));
    }

    assert_eq!(vm.read_i32(here + 4 + 8), here + 4 + 8 + 4);

    assert_eq!(vm.here(), here + 4 + 8 + 4 + 6 + 2, "new here");
}

#[test]
fn forthvm_tests_test_find() {
    let mut vm = new_vm();
    let ops = ops();
    let state = STATE.to_le_bytes();
    let here = vm.here();

    vm.builtin(
        "state",
        &[ops.i32_const, state[0], state[1], state[2], state[3], NEXT],
    );

    vm.builtin("drop", &[ops.drop, NEXT]);
    vm.builtin("swap", &[ops.swap, NEXT]);
    vm.builtin("dup", &[ops.dup, NEXT]);
    vm.builtin("bye", &[ops.end]);

    let idx = vm.find("swap");
    assert!(idx.is_some());

    let state_idx = vm.find("state");

    assert_eq!(state_idx, Some(here));
}

#[test]
fn test_colon_def() {
    let mut vm = new_vm();
    let ops = ops();

    vm.builtin("drop", &[ops.drop, NEXT]);
    vm.builtin("swap", &[ops.swap, NEXT]);
    vm.builtin("dup", &[ops.dup, NEXT]);
    let bye_idx = vm.builtin("bye", &[ops.end]);
    assert_eq!(bye_idx, vm.latest(), "bye_idx is latest");
    let here = vm.here();
    let idx = vm.colon_def("foobar", &["drop", "swap", "bye"]).unwrap();

    assert_eq!(here, idx);
    assert_eq!(idx, vm.latest(), "latest is idx");

    assert_eq!(
        bye_idx,
        vm.read_i32(vm.latest()),
        "latest points to bye_idx"
    );

    let result = vm.find("foobar");
    assert!(result.is_some());
}
