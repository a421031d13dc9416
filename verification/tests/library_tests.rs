use forthvm::dump::print_c;
use forthvm::input::WordOutcome;
use forthvm::input_stream::{
    in_steam_from_file, in_stream_from_stdin, in_stream_is_terminal, in_stream_read_line,
    in_stream_read_piece, InputStream,
};
use forthvm::mmap;
use forthvm::number::{digit_value, parse_literal, parse_number};
use forthvm::opcodes::{
    branch, call, constant, docol, execute, exit, lit, litstring, zero_branch, Opcodes,
};
use forthvm::threaded::{DIV_MOD, NEXT, OVER, ROT};
use forthvm::cells::cell_le;
use forthvm::vocabulary::{NativeWords, VOCABULARY_ROOM, VOCABULARY_WORDS};
use forthvm::words;
use forthvm::writer::DefineError;
use forthvm::{align, ForthVM, VmConfig, HIDDEN, IMMEDIATE, LEN_MASK};

fn ops() -> Opcodes {
    Opcodes {
        i32_const: 1,
        i32_load: 2,
        i32_store: 3,
        i32_load_8: 4,
        i32_store_8: 5,
        dup: 6,
        swap: 7,
        drop: 8,
        add: 9,
        sub: 10,
        mul: 11,
        div_s: 12,
        mod_s: 13,
        inc: 14,
        dec: 15,
        eq: 16,
        eqz: 17,
        zero: 18,
        lt_s: 19,
        gt_s: 20,
        lt_u: 21,
        gt_u: 22,
        le_s: 23,
        ge_s: 24,
        min: 25,
        max: 26,
        and: 27,
        or: 28,
        xor: 29,
        not: 30,
        jzi: 31,
        brzi: 32,
        br: 33,
        call_vm: 34,
        end: 35,
    }
}

fn natives() -> NativeWords {
    NativeWords {
        key: 0,
        word: 1,
        dot: 2,
        emit: 3,
        tell: 4,
        find: 5,
        number: 6,
        comma: 7,
        create: 8,
        read_char: 9,
    }
}

fn config(memory_size_bytes: usize) -> VmConfig {
    VmConfig {
        memory_size_bytes,
        parameter_stack_size_cells: 256,
        return_stack_size_cells: 256,
        call_stack_size_cells: 256,
        locals_stack_size_cells: 256,
    }
}

fn new_vm() -> ForthVM {
    ForthVM::from_config(config(0x10000), &ops())
}

#[test]
fn align_rounds_up_to_cells() {
    assert_eq!(align(0), 0);
    assert_eq!(align(5), 8);
    assert_eq!(align(-1), 0);
    assert_eq!(align(-5), -4);
}

#[test]
fn config_is_valid_only_where_the_regions_fit() {
    assert!(config(0x10000).is_valid());
    assert!(!config(100).is_valid());
    assert!(!config(0x7fff_ff01).is_valid());
    // three regions of 256 cells and the last cell take 3076 bytes
    assert!(config(3076).is_valid());
    assert!(!config(3075).is_valid());
}

#[test]
fn from_config_lays_out_the_registers() {
    let vm = new_vm();
    let cstack_top = 0x10000 - 4;
    let lstack_top = cstack_top - 1024;
    let rstack_top = lstack_top - 1024;
    let pstack_top = rstack_top - 1024;
    assert_eq!(vm.memory_size(), 0x10000);
    assert_eq!(vm.read_i32(mmap::DSP as i32), pstack_top);
    assert_eq!(vm.read_i32(mmap::S0 as i32), pstack_top);
    assert_eq!(vm.read_i32(mmap::RSP as i32), rstack_top);
    assert_eq!(vm.read_i32(mmap::R0 as i32), rstack_top);
    assert_eq!(vm.read_i32(mmap::CTOP as i32), lstack_top);
    assert_eq!(vm.read_i32(mmap::CBASE as i32), lstack_top);
    assert_eq!(vm.read_i32(mmap::LTOP as i32), cstack_top);
    assert_eq!(vm.read_i32(mmap::LBASE as i32), cstack_top);
    assert_eq!(vm.here(), mmap::DICT as i32);
    assert_eq!(vm.latest(), 0);
    assert_eq!(vm.base(), 10);
    assert_eq!(vm.state(), 0);
    assert!(vm.is_interpreting());
    assert!(!vm.is_compiling());
    assert_eq!(vm.read_i32(mmap::IN_STREAM as i32), rstack_top + 4);
    assert_eq!(vm.read_i32(mmap::INPUT_BUFFER as i32), lstack_top);
    assert_eq!(vm.read_i32(mmap::INPUT_BUFFER_IN as i32), 0);
    assert_eq!(vm.read_u8(mmap::COLD_START as i32), NEXT);
    let code = docol(&ops());
    assert_eq!(code.len(), 47);
    assert_eq!(vm.read(mmap::DOCOL, 47), code);
    assert_eq!(vm.pstack_depth(), 0);
    assert_eq!(vm.rstack_depth(), 0);
    assert!(vm.dictionary_ok());
}

#[test]
fn docol_pushes_the_program_counter_and_enters_the_body() {
    let o = ops();
    let code = docol(&o);
    assert_eq!(
        code,
        vec![
            o.i32_const, 44, 0, 0, 0, o.i32_load, o.i32_const, 12, 0, 0, 0, o.i32_load,
            o.i32_store, o.i32_const, 12, 0, 0, 0, o.dup, o.i32_load, o.i32_const, 4, 0, 0, 0,
            o.sub, o.swap, o.i32_store, o.i32_const, 48, 0, 0, 0, o.i32_load, o.i32_const, 4, 0,
            0, 0, o.add, o.i32_const, 44, 0, 0, 0, o.i32_store, NEXT,
        ]
    );
}

#[test]
fn the_words_of_threaded_execution_hold_their_codes() {
    let o = ops();
    let mut vm = new_vm();
    vm.init_dictionary(&o, &natives()).unwrap();
    let body = |vm: &ForthVM, name: &str, n: usize| {
        let cf = vm.cfa(vm.find(name).unwrap());
        assert_eq!(vm.read_i32(cf), cf + 4, "{name}");
        vm.read(cf as usize + 4, n)
    };
    assert_eq!(body(&vm, "exit", 27), exit(&o));
    assert_eq!(body(&vm, "lit", 22), lit(&o));
    assert_eq!(body(&vm, "'", 22), lit(&o));
    assert_eq!(body(&vm, "litstring", 39), litstring(&o));
    assert_eq!(body(&vm, "branch", 13), branch(&o));
    assert_eq!(body(&vm, "execute", 9), execute(&o));
    let target = vm.cfa(vm.find("branch").unwrap()) + 4;
    assert_eq!(body(&vm, "0branch", 21), zero_branch(&o, target));
    assert_eq!(
        exit(&o),
        vec![
            o.i32_const, 12, 0, 0, 0, o.i32_load, o.i32_const, 4, 0, 0, 0, o.add, o.dup,
            o.i32_const, 12, 0, 0, 0, o.i32_store, o.i32_load, o.i32_const, 44, 0, 0, 0,
            o.i32_store, NEXT,
        ]
    );
    assert_eq!(
        zero_branch(&o, 0x0102_0304),
        vec![
            o.brzi, 4, 3, 2, 1, o.i32_const, 44, 0, 0, 0, o.dup, o.i32_load, o.i32_const, 4, 0, 0,
            0, o.add, o.swap, o.i32_store, NEXT,
        ]
    );
    assert_eq!(
        execute(&o),
        vec![o.dup, o.i32_const, 48, 0, 0, 0, o.i32_store, o.i32_load, o.br]
    );
    assert_eq!(&litstring(&o)[26..31], &[o.i32_const, 252, 255, 255, 255]);
}

#[test]
fn cells_are_little_endian_two_s_complement() {
    let mut vm = new_vm();
    vm.write_i32(0x1234_5678, 200);
    assert_eq!(vm.read(200, 4), vec![0x78, 0x56, 0x34, 0x12]);
    assert_eq!(vm.read_i32(200), 0x1234_5678);
    vm.write_i32(-2, 204);
    assert_eq!(vm.read(204, 4), vec![0xfe, 0xff, 0xff, 0xff]);
    assert_eq!(vm.read_i32(204), -2);
    vm.write_i32(i32::MIN, 208);
    assert_eq!(vm.read_i32(208), i32::MIN);
    vm.write_u8(0xab, 212);
    assert_eq!(vm.read_u8(212), 0xab);
    assert_eq!(cell_le(-2), (0xfe, 0xff, 0xff, 0xff));
    assert_eq!(cell_le(0x0102_0304), (4, 3, 2, 1));
}

#[test]
fn a_defined_word_is_found_at_its_entry() {
    let mut vm = new_vm();
    let o = ops();
    let a = vm.builtin("dup", &[o.dup, NEXT]);
    let b = vm.colon_def("twice", &["dup", "dup"]).unwrap();
    let c = vm.builtin_ex("a-name-of-20-bytes!", IMMEDIATE, &[o.end]);
    assert_eq!(vm.find("dup"), Some(a));
    assert_eq!(vm.find("twice"), Some(b));
    assert_eq!(vm.find("a-name-of-20-bytes!"), Some(c));
    assert_eq!(vm.cfa(a), align(a + 5 + 3));
    assert_eq!(vm.cfa(b), align(b + 5 + 5));
    // the name has 19 bytes, of which 13 are stored
    assert_eq!(vm.read_u8(c + 4), 19 | IMMEDIATE);
    assert_eq!(vm.cfa(c), align(c + 5 + 13));
    assert_eq!(vm.read_i32(vm.cfa(c)), vm.cfa(c) + 4);
    assert_eq!(vm.read_u8(vm.cfa(c) + 4), o.end);
    // the body of the composite word: the trampoline, then the cells
    assert_eq!(vm.read_i32(vm.cfa(b)), mmap::DOCOL as i32);
    assert_eq!(vm.read_i32(vm.cfa(b) + 4), vm.cfa(a));
    assert_eq!(vm.read_i32(vm.cfa(b) + 8), vm.cfa(a));
    assert!(vm.dictionary_ok());
}

#[test]
fn names_that_agree_in_length_and_stored_part_are_one_word() {
    let mut vm = new_vm();
    let w = vm.builtin("abcdefghijklm-first", &[NEXT]);
    assert_eq!(vm.find("abcdefghijklm-other"), Some(w));
    assert_eq!(vm.find("abcdefghijklm-longer"), None);
    assert_eq!(vm.find("abcdefghijklX-first"), None);
}

#[test]
fn the_dictionary_is_last_in_first_out() {
    let mut vm = new_vm();
    let a = vm.builtin("A", &[NEXT]);
    let b = vm.builtin("B", &[NEXT]);
    assert_eq!(vm.latest(), b);
    assert_eq!(vm.read_i32(b), a);
    assert_eq!(vm.read_i32(a), 0);
    // a newer word of the same name is found first
    let a2 = vm.builtin("A", &[NEXT]);
    assert_eq!(vm.find("A"), Some(a2));
    assert_eq!(vm.read_i32(a2), b);
}

#[test]
fn a_hidden_word_is_not_found_but_stays_in_the_chain() {
    let mut vm = new_vm();
    let o = ops();
    let old = vm.builtin("word", &[o.dup, NEXT]);
    let mid = vm.builtin("other", &[NEXT]);
    let new = vm.builtin("word", &[o.drop, NEXT]);
    let cfa = vm.cfa(new);
    assert_eq!(vm.find("word"), Some(new));
    vm.hidden(new);
    assert_eq!(vm.read_u8(new + 4) & HIDDEN, HIDDEN);
    assert_eq!(vm.read_u8(new + 4) & LEN_MASK, 4);
    // the next older word of that name is found
    assert_eq!(vm.find("word"), Some(old));
    assert_eq!(vm.find("other"), Some(mid));
    // the chain from the newest entry still passes the hidden word
    assert_eq!(vm.latest(), new);
    assert_eq!(vm.read_i32(new), mid);
    assert_eq!(vm.read_i32(mid), old);
    assert!(vm.dictionary_ok());
    // and it runs as before for whoever holds its address
    assert_eq!(vm.cfa(new), cfa);
    assert_eq!(vm.read_i32(cfa), cfa + 4);
    assert_eq!(vm.read_u8(cfa + 4), o.drop);
    vm.hidden(old);
    assert_eq!(vm.find("word"), None);
    // toggling again shows the word
    vm.hidden(new);
    assert_eq!(vm.find("word"), Some(new));
}

#[test]
fn immediate_toggles_the_flag_of_the_newest_word() {
    let mut vm = new_vm();
    let w = vm.builtin("now", &[NEXT]);
    vm.immediate();
    assert_eq!(vm.read_u8(w + 4), 3 | IMMEDIATE);
    assert_eq!(vm.find("now"), Some(w));
    vm.immediate();
    assert_eq!(vm.read_u8(w + 4), 3);
}

#[test]
fn a_name_of_more_than_31_bytes_names_no_word() {
    let mut vm = new_vm();
    vm.builtin("x", &[NEXT]);
    assert_eq!(vm.find("0123456789012345678901234567890123"), None);
    assert_eq!(vm.find(""), None);
}

#[test]
fn a_token_that_is_no_word_compiles_as_a_literal() {
    let mut vm = new_vm();
    let dup = vm.builtin("dup", &[NEXT]);
    let here = vm.here();
    vm.write_colon_def(&["dup", "4711", "-16", "+7"]).unwrap();
    assert_eq!(vm.read_i32(here), vm.cfa(dup));
    assert_eq!(vm.read_i32(here + 4), 4711);
    assert_eq!(vm.read_i32(here + 8), -16);
    assert_eq!(vm.read_i32(here + 12), 7);
    assert_eq!(vm.here(), here + 16);
    assert_eq!(vm.resolve_token("dup"), Some(vm.cfa(dup)));
    assert_eq!(vm.resolve_token("12"), Some(12));
    assert_eq!(vm.resolve_token("nothing"), None);
}

#[test]
fn an_unknown_token_defines_nothing() {
    let mut vm = new_vm();
    vm.builtin("dup", &[NEXT]);
    let here = vm.here();
    let latest = vm.latest();
    let before = vm.read(here as usize, 64);
    assert_eq!(
        vm.colon_def("bad", &["dup", "nothing", "dup"]),
        Err(DefineError::UnknownToken(1))
    );
    assert_eq!(vm.write_colon_def(&["12x"]), Err(DefineError::UnknownToken(0)));
    assert_eq!(
        vm.define_composite("bad", 0, &["dup", "dup", "?"]),
        Err(DefineError::UnknownToken(2))
    );
    assert_eq!(vm.here(), here);
    assert_eq!(vm.latest(), latest);
    assert_eq!(vm.read(here as usize, 64), before);
    assert_eq!(vm.find("bad"), None);
}

#[test]
fn a_name_that_cannot_be_told_is_refused() {
    let mut vm = new_vm();
    let here = vm.here();
    let long = "01234567890123456789012345678901";
    assert_eq!(long.len(), 32);
    assert_eq!(vm.define_primitive(long, 0, &[NEXT]), Err(DefineError::BadName));
    assert_eq!(vm.define_primitive("ok", 1, &[NEXT]), Err(DefineError::BadName));
    assert_eq!(vm.define_composite(long, 0, &[]), Err(DefineError::BadName));
    assert_eq!(vm.here(), here);
    let w = vm.define_primitive(&long[..31], IMMEDIATE, &[NEXT]).unwrap();
    assert_eq!(w, here);
    assert_eq!(vm.find(&long[..31]), Some(w));
    assert_eq!(vm.define_composite("empty", 0, &[]), Ok(vm.latest()));
}

#[test]
fn a_full_dictionary_refuses_a_definition() {
    let mut vm = ForthVM::from_config(
        VmConfig {
            memory_size_bytes: 200,
            parameter_stack_size_cells: 2,
            return_stack_size_cells: 2,
            call_stack_size_cells: 2,
            locals_stack_size_cells: 2,
        },
        &ops(),
    );
    assert_eq!(vm.here(), 144);
    // 144 + 28 + 28 = 200: the entry just fits
    assert_eq!(vm.define_primitive("a", 0, &[0; 29]), Err(DefineError::OutOfMemory));
    assert_eq!(vm.define_composite("a", 0, &["1"; 8]), Err(DefineError::OutOfMemory));
    assert_eq!(vm.define_primitive("a", 0, &[0; 28]), Ok(144));
    assert_eq!(vm.define_primitive("b", 0, &[]), Err(DefineError::OutOfMemory));
    assert_eq!(vm.init_dictionary(&ops(), &natives()), Err(DefineError::OutOfMemory));
    assert!(vm.dictionary_ok());
}

#[test]
fn the_vocabulary_fits_its_room_and_knows_its_words() {
    let mut vm = new_vm();
    let here = vm.here();
    assert_eq!(vm.init_dictionary(&ops(), &natives()), Ok(()));
    assert!(vm.here() - here <= VOCABULARY_ROOM as i32);
    assert!(vm.dictionary_ok());
    for name in [
        "state", "here", "latest", "dsp", "rsp", "s0", "r0", "base", "DOCOL", "F_IMMED",
        "F_HIDDEN", "F_LENMASK", "true", "false", "not", "drop", "2drop", "swap", "dup", "2dup",
        "?dup", "nip", "over", "rot", "-rot", "tuck", "+", "1+", "1-", "4+", "4-", "-", "*", "/",
        "mod", "/mod", "=", "0=", "0<", "0>", "<>", "<", ">", "u<", "u>", "<=", ">=", "min",
        "max", "and", "or", "xor", "invert", "!", "+!", "@", "c!", "c@", "negate", "bye",
        "execute", "lit", "litstring", "exit", ">r", "r>", "rdrop", "rsp!", "rsp@", "dsp!",
        "dsp@", "branch", "0branch", "immediate", "'", ">cfa", "[", "]", "hidden", "key", "word",
        ".", "emit", "tell", "find", "number", ",", "create", "char", ">dfa", "hide", ":", ";",
        "interpret", "quit",
    ] {
        assert!(vm.find(name).is_some(), "{name}");
    }
    assert_eq!(vm.find("quit"), Some(vm.latest()));
    // the chain holds the words of the vocabulary and no other
    let mut count = 0;
    let mut w = vm.latest();
    while w != 0 {
        count += 1;
        w = vm.read_i32(w);
    }
    assert_eq!(count, VOCABULARY_WORDS);
    assert_eq!(count, 95);
    for name in ["immediate", "[", ";"] {
        let w = vm.find(name).unwrap();
        assert_eq!(vm.read_u8(w + 4) & IMMEDIATE, IMMEDIATE, "{name}");
    }
    // the top-level loop: reset the return stack, interpret, and back
    let quit = vm.cfa(vm.find("quit").unwrap());
    assert_eq!(vm.read_i32(quit), mmap::DOCOL as i32);
    assert_eq!(vm.read_i32(quit + 4), vm.cfa(vm.find("r0").unwrap()));
    assert_eq!(vm.read_i32(quit + 8), vm.cfa(vm.find("rsp!").unwrap()));
    assert_eq!(vm.read_i32(quit + 12), vm.cfa(vm.find("interpret").unwrap()));
    assert_eq!(vm.read_i32(quit + 16), vm.cfa(vm.find("branch").unwrap()));
    assert_eq!(vm.read_i32(quit + 20), -16);
    // the word that calls the host function `find`
    let find = vm.cfa(vm.find("find").unwrap());
    assert_eq!(
        vm.read(find as usize + 4, 7),
        vec![ops().i32_const, 5, 0, 0, 0, ops().call_vm, NEXT]
    );
    // the conditional branch jumps into the code of the branch
    let branch = vm.cfa(vm.find("branch").unwrap());
    let zbranch = vm.cfa(vm.find("0branch").unwrap());
    assert_eq!(vm.read_u8(zbranch + 4), ops().brzi);
    assert_eq!(vm.read_i32(zbranch + 5), branch + 4);
}

#[test]
fn the_vocabulary_has_its_shape() {
    let mut vm = new_vm();
    vm.init_dictionary(&ops(), &natives()).unwrap();
    // the flag bytes of the compiler words
    let byte = |vm: &ForthVM, name: &str| vm.read_u8(vm.find(name).unwrap() + 4);
    assert_eq!(byte(&vm, ";"), 0x81);
    assert_eq!(byte(&vm, "["), 0x81);
    assert_eq!(byte(&vm, "]"), 0x01);
    assert_eq!(byte(&vm, ":"), 0x01);
    assert_eq!(byte(&vm, "immediate"), 0x89);
    assert_eq!(byte(&vm, "interpret"), 0x09);
    // the composite words enter through the trampoline
    for name in [">dfa", "hide", ":", ";", "interpret", "quit"] {
        let w = vm.find(name).unwrap();
        assert_eq!(vm.read_i32(vm.cfa(w)), mmap::DOCOL as i32, "{name}");
    }
    // the chain runs down on cell boundaries to the start of the dictionary
    let mut w = vm.latest();
    let mut composites = 0;
    assert_eq!(vm.here() % 4, 0);
    assert!(vm.here() > w);
    loop {
        assert_eq!(w % 4, 0);
        assert!(w >= mmap::DICT as i32);
        let field = vm.read_i32(vm.cfa(w));
        assert!(field == vm.cfa(w) + 4 || field == mmap::DOCOL as i32);
        if field == mmap::DOCOL as i32 {
            composites += 1;
        }
        let prev = vm.read_i32(w);
        assert!(prev < w);
        if prev == 0 {
            break;
        }
        w = prev;
    }
    assert_eq!(w, mmap::DICT as i32);
    assert_eq!(composites, 6);
    assert_eq!(vm.find("state"), Some(mmap::DICT as i32));
    // the name table holds each word under its code field address
    for name in ["state", "+", "0branch", "char", ";", "quit"] {
        let cf = vm.cfa(vm.find(name).unwrap());
        assert_eq!(vm.word_name(cf).map(String::as_str), Some(name));
    }
    assert_eq!(vm.word_name(0), None);
    assert_eq!(vm.state(), 0);
    assert_eq!(vm.base(), 10);
    assert_eq!(vm.pstack_depth(), 0);
}

#[test]
fn constants_and_calls_have_their_codes() {
    let o = ops();
    assert_eq!(constant(&o, 52), vec![o.i32_const, 52, 0, 0, 0, NEXT]);
    assert_eq!(constant(&o, -2), vec![o.i32_const, 0xfe, 0xff, 0xff, 0xff, NEXT]);
    assert_eq!(call(&o, 0x0102), vec![o.i32_const, 2, 1, 0, 0, o.call_vm, NEXT]);
    let mut vm = new_vm();
    vm.init_dictionary(&o, &natives()).unwrap();
    let body = |vm: &ForthVM, name: &str, n: usize| {
        vm.read(vm.cfa(vm.find(name).unwrap()) as usize + 4, n)
    };
    assert_eq!(body(&vm, "state", 6), constant(&o, mmap::STATE as i32));
    assert_eq!(body(&vm, "s0", 6), constant(&o, vm.read_i32(mmap::S0 as i32)));
    assert_eq!(body(&vm, "r0", 6), constant(&o, vm.read_i32(mmap::R0 as i32)));
    assert_eq!(body(&vm, "F_LENMASK", 6), constant(&o, LEN_MASK as i32));
    assert_eq!(body(&vm, "char", 7), call(&o, 9));
    assert_eq!(body(&vm, "+", 2), vec![o.add, NEXT]);
    assert_eq!(body(&vm, "-", 2), vec![o.sub, NEXT]);
}

#[test]
fn an_entry_must_end_inside_the_arena_with_its_padding() {
    // 201 bytes: an entry whose body ends at 199 would put the free-space
    // pointer at 200, inside; the guarded definition keeps a margin.
    let mut vm = ForthVM::from_config(
        VmConfig {
            memory_size_bytes: 201,
            parameter_stack_size_cells: 2,
            return_stack_size_cells: 2,
            call_stack_size_cells: 2,
            locals_stack_size_cells: 2,
        },
        &ops(),
    );
    let w = vm.builtin("a", &[0; 44]);
    assert_eq!(w, 144);
    assert_eq!(vm.here(), 200);
    assert!(vm.dictionary_ok());
    assert_eq!(vm.find("a"), Some(144));
}

#[test]
fn the_compiler_words_are_made_of_known_words() {
    let mut vm = new_vm();
    // in an empty dictionary the first token is unknown
    assert_eq!(vm.define_quit(), Err(DefineError::UnknownToken(0)));
    assert_eq!(vm.define_interpret(), Err(DefineError::UnknownToken(0)));
    assert_eq!(vm.define_colon(), Err(DefineError::UnknownToken(0)));
    assert_eq!(vm.define_semicolon(), Err(DefineError::UnknownToken(0)));
    assert_eq!(vm.define_hide(), Err(DefineError::UnknownToken(0)));
    assert_eq!(vm.define_to_dfa(), Err(DefineError::UnknownToken(0)));
    vm.builtin("r0", &[NEXT]);
    vm.builtin("rsp!", &[NEXT]);
    assert_eq!(vm.define_quit(), Err(DefineError::UnknownToken(2)));

    vm.init_dictionary(&ops(), &natives()).unwrap();
    let cfa = |vm: &ForthVM, name: &str| vm.cfa(vm.find(name).unwrap());
    let interpret = cfa(&vm, "interpret");
    let body: Vec<i32> = (0..58).map(|k| vm.read_i32(interpret + 4 + 4 * k)).collect();
    assert_eq!(vm.read_i32(interpret), mmap::DOCOL as i32);
    assert_eq!(body[0], cfa(&vm, "word"));
    assert_eq!(body[1], cfa(&vm, "2dup"));
    assert_eq!(body[2], cfa(&vm, "lit"));
    assert_eq!(body[3], 0);
    assert_eq!(body[5], cfa(&vm, "find"));
    // every branch lands on the start of a step of the interpreter
    assert_eq!((body[7], body[8]), (cfa(&vm, "0branch"), 56));
    assert_eq!(body[8 + 56 / 4], cfa(&vm, "r>"));
    assert_eq!((body[20], body[21]), (cfa(&vm, "branch"), 36));
    assert_eq!(body[21 + 36 / 4], cfa(&vm, "state"));
    assert_eq!((body[28], body[29]), (cfa(&vm, "0branch"), 92));
    assert_eq!(body[29 + 92 / 4], cfa(&vm, "rdrop"));
    assert_eq!((body[36], body[37]), (cfa(&vm, "0branch"), 28));
    assert_eq!(body[37 + 28 / 4], cfa(&vm, "r>"));
    assert_eq!((body[39], body[40]), (cfa(&vm, "0branch"), 8));
    assert_eq!(body[40 + 8 / 4], cfa(&vm, "execute"));
    assert_eq!((body[45], body[46]), (cfa(&vm, "0branch"), 16));
    assert_eq!(body[46 + 16 / 4], cfa(&vm, ","));
    assert_eq!((body[54], body[55]), (cfa(&vm, "lit"), 63));
    assert_eq!(body[56], cfa(&vm, "emit"));
    assert_eq!(body[57], cfa(&vm, "exit"));

    let semicolon = vm.find(";").unwrap();
    let names = ["lit", "exit", ",", "latest", "@", "hidden", "[", "exit"];
    for (k, name) in names.iter().enumerate() {
        assert_eq!(vm.read_i32(vm.cfa(semicolon) + 4 + 4 * k as i32), cfa(&vm, name));
    }
    let colon = vm.find(":").unwrap();
    let names = ["word", "create", "DOCOL", ",", "latest", "@", "hidden", "]", "exit"];
    for (k, name) in names.iter().enumerate() {
        assert_eq!(vm.read_i32(vm.cfa(colon) + 4 + 4 * k as i32), cfa(&vm, name));
    }
    // a word can be defined again; the newer one is found
    let old = vm.find("quit").unwrap();
    let new = vm.define_quit().unwrap();
    assert_eq!(vm.find("quit"), Some(new));
    assert_eq!(vm.read_i32(new), old);
    assert_eq!(vm.read_i32(vm.cfa(new) + 12), interpret);
}

#[test]
fn vm_call_defines_a_word_that_calls_the_host() {
    let mut vm = new_vm();
    let o = ops();
    let here = vm.here();
    let (index, w) = vm.vm_call("host", 0x0102, &o);
    assert_eq!(index, 0x0102);
    assert_eq!(w, here);
    assert_eq!(vm.find("host"), Some(w));
    assert_eq!(
        vm.read(vm.cfa(w) as usize + 4, 7),
        vec![o.i32_const, 2, 1, 0, 0, o.call_vm, NEXT]
    );
}

#[test]
fn a_broken_chain_is_told() {
    let mut vm = new_vm();
    let a = vm.builtin("a", &[NEXT]);
    let b = vm.builtin("b", &[NEXT]);
    assert!(vm.dictionary_ok());
    // a link that does not point down
    vm.write_i32(b, a);
    assert!(!vm.dictionary_ok());
    vm.write_i32(0, a);
    assert!(vm.dictionary_ok());
    // a newest entry outside the dictionary region
    vm.set_latest(47);
    assert!(!vm.dictionary_ok());
    vm.set_latest(b);
    // a free-space pointer below the newest header
    let here = vm.here();
    vm.set_here(b + 2);
    assert!(!vm.dictionary_ok());
    vm.set_here(here);
    assert!(vm.dictionary_ok());
}

#[test]
fn numbers_parse_in_the_given_radix() {
    assert_eq!(parse_number(b"12ab", 16), (0x12ab, 0));
    assert_eq!(parse_number(b"12AB", 16), (0x12ab, 0));
    assert_eq!(parse_number(b"12b4", 10), (0, 2));
    assert_eq!(parse_number(b"127", 10), (127, 0));
    assert_eq!(parse_number(b"-1234", 10), (-1234, 0));
    assert_eq!(parse_number(b"1010", 2), (10, 0));
    assert_eq!(parse_number(b"zz", 36), (35 * 36 + 35, 0));
    assert_eq!(parse_number(b"z", 35), (0, 1));
    assert_eq!(parse_number(b"x12", 10), (0, 3));
    assert_eq!(parse_number(b"-x12", 10), (0, 3));
    assert_eq!(parse_number(b"1-2", 10), (0, 2));
    assert_eq!(parse_number(b"+5", 10), (0, 2));
}

#[test]
fn no_digits_parse_as_zero() {
    assert_eq!(parse_number(b"", 10), (0, 0));
    assert_eq!(parse_number(b"-", 10), (0, 0));
    assert_eq!(parse_number(b"-", 2), (0, 0));
    // the radix is not looked at where there is no digit
    assert_eq!(parse_number(b"", 0), (0, 0));
    assert_eq!(parse_number(b"-", 99), (0, 0));
    assert_eq!(parse_number(b"", -1), (0, 0));
}

#[test]
fn a_number_that_does_not_fit_a_cell_wraps() {
    assert_eq!(parse_number(b"2147483647", 10), (i32::MAX, 0));
    assert_eq!(parse_number(b"2147483648", 10), (i32::MIN, 0));
    assert_eq!(parse_number(b"4294967296", 10), (0, 0));
    assert_eq!(parse_number(b"4294967297", 10), (1, 0));
    assert_eq!(parse_number(b"-2147483648", 10), (i32::MIN, 0));
    assert_eq!(parse_number(b"-2147483649", 10), (i32::MAX, 0));
    assert_eq!(parse_number(b"ffffffff", 16), (-1, 0));
}

#[test]
fn parsing_the_decimal_text_of_a_value_gives_it_back() {
    for n in [0, 1, -1, 9, 10, 99, 100, 4711, -4711, i32::MAX, i32::MIN, i32::MIN + 1] {
        let text = format!("{n}");
        assert_eq!(parse_number(text.as_bytes(), 10), (n, 0), "{n}");
        assert_eq!(parse_literal(text.as_bytes()), Some(n), "{n}");
    }
}

#[test]
fn digits_count_up_to_the_radix() {
    assert_eq!(digit_value(b'0', 10), Some(0));
    assert_eq!(digit_value(b'9', 10), Some(9));
    assert_eq!(digit_value(b'9', 9), None);
    assert_eq!(digit_value(b'a', 16), Some(10));
    assert_eq!(digit_value(b'F', 16), Some(15));
    assert_eq!(digit_value(b'g', 16), None);
    assert_eq!(digit_value(b'z', 36), Some(35));
    assert_eq!(digit_value(b'/', 36), None);
    assert_eq!(digit_value(b':', 36), None);
    assert_eq!(digit_value(b'@', 36), None);
    assert_eq!(digit_value(b'[', 36), None);
    assert_eq!(digit_value(b'`', 36), None);
    assert_eq!(digit_value(b'{', 36), None);
    assert_eq!(digit_value(200, 36), None);
}

#[test]
fn literals_are_signed_decimal_numbers_that_fit_a_cell() {
    assert_eq!(parse_literal(b"0"), Some(0));
    assert_eq!(parse_literal(b"+5"), Some(5));
    assert_eq!(parse_literal(b"-16"), Some(-16));
    assert_eq!(parse_literal(b"007"), Some(7));
    assert_eq!(parse_literal(b"2147483647"), Some(i32::MAX));
    assert_eq!(parse_literal(b"-2147483648"), Some(i32::MIN));
    assert_eq!(parse_literal(b"2147483648"), None);
    assert_eq!(parse_literal(b"-2147483649"), None);
    assert_eq!(parse_literal(b"99999999999999999999999"), None);
    assert_eq!(parse_literal(b""), None);
    assert_eq!(parse_literal(b"-"), None);
    assert_eq!(parse_literal(b"+"), None);
    assert_eq!(parse_literal(b"12a"), None);
    assert_eq!(parse_literal(b"a12"), None);
    assert_eq!(parse_literal(b"--1"), None);
    assert_eq!(parse_literal(b"1f"), None);
}

#[test]
fn the_stack_grows_downward() {
    let mut vm = new_vm();
    let base = vm.read_i32(mmap::S0 as i32);
    vm.push_i32(3);
    vm.push_i32(7);
    assert_eq!(vm.pstack_depth(), 2);
    assert_eq!(vm.read_i32(mmap::DSP as i32), base - 8);
    assert_eq!(vm.read_i32(base), 3);
    assert_eq!(vm.read_i32(base - 4), 7);
    assert_eq!(vm.pop_i32(), 7);
    assert_eq!(vm.pop_i32(), 3);
    assert_eq!(vm.pstack_depth(), 0);
}

#[test]
fn the_added_instructions_rearrange_the_stack() {
    let mut vm = new_vm();
    let mut ip = 500;
    vm.push_i32(1);
    vm.push_i32(2);
    assert!(vm.forth_opcodes(&mut ip, OVER));
    assert_eq!(vm.pstack_depth(), 3);
    assert_eq!((vm.pop_i32(), vm.pop_i32(), vm.pop_i32()), (1, 2, 1));

    vm.push_i32(1);
    vm.push_i32(2);
    vm.push_i32(3);
    assert!(vm.forth_opcodes(&mut ip, ROT));
    assert_eq!(vm.pstack_depth(), 3);
    assert_eq!((vm.pop_i32(), vm.pop_i32(), vm.pop_i32()), (1, 3, 2));
    assert_eq!(ip, 500);
}

#[test]
fn division_rounds_toward_zero() {
    let mut vm = new_vm();
    let mut ip = 0;
    for (a, b, q, r) in [
        (7, 2, 3, 1),
        (-7, 2, -3, -1),
        (7, -2, -3, 1),
        (-7, -2, 3, -1),
        (6, 3, 2, 0),
        (-6, 3, -2, 0),
        (0, 5, 0, 0),
        (i32::MIN, 1, i32::MIN, 0),
        (i32::MIN, 2, -0x4000_0000, 0),
        (i32::MAX, -1, -i32::MAX, 0),
    ] {
        vm.push_i32(a);
        vm.push_i32(b);
        assert!(vm.forth_opcodes(&mut ip, DIV_MOD));
        assert_eq!(vm.pstack_depth(), 2);
        assert_eq!(vm.pop_i32(), q, "{a} / {b}");
        assert_eq!(vm.pop_i32(), r, "{a} % {b}");
    }
}

#[test]
fn an_instruction_of_the_engine_is_left_alone() {
    let mut vm = new_vm();
    let mut ip = 77;
    let before = vm.read(0, 0x10000);
    assert!(!vm.forth_opcodes(&mut ip, 0x10));
    assert!(!vm.forth_opcodes(&mut ip, 0xfb));
    assert_eq!(ip, 77);
    assert_eq!(vm.read(0, 0x10000), before);
}

#[test]
fn a_dispatch_step_enters_the_next_word() {
    let mut vm = new_vm();
    let o = ops();
    let dup = vm.builtin("dup", &[o.dup, NEXT]);
    let body = vm.here();
    vm.compile_cell(vm.cfa(dup));
    vm.write_i32(body, mmap::IC as i32);
    let mut ip = 0;
    assert!(vm.forth_opcodes(&mut ip, NEXT));
    assert_eq!(ip as i32, vm.cfa(dup) + 4);
    assert_eq!(vm.read_i32(mmap::IC as i32), body + 4);
    assert_eq!(vm.read_i32(mmap::A0 as i32), vm.cfa(dup));
    // a run starts with a dispatch from the start cell
    let entry = vm.start_word(dup as usize);
    assert_eq!(entry, mmap::COLD_START);
    assert_eq!(vm.read_i32(mmap::START_ADR as i32), vm.cfa(dup));
    assert_eq!(vm.read_i32(mmap::IC as i32), mmap::START_ADR as i32);
    assert_eq!(vm.next() as i32, vm.cfa(dup) + 4);
}

#[test]
fn a_stream_delivers_lines() {
    let mut stream = InputStream::from_file(b"one\ntwo\n\nlast".to_vec());
    assert!(!stream.is_terminal());
    let mut line = b">".to_vec();
    assert_eq!(stream.read_line(&mut line), 4);
    assert_eq!(line, b">one\n");
    let mut line = Vec::new();
    assert_eq!(stream.read_line(&mut line), 4);
    assert_eq!(stream.read_line(&mut line), 1);
    assert_eq!(line, b"two\n\n");
    assert_eq!(stream.read_line(&mut line), 4);
    assert_eq!(line, b"two\n\nlast");
    assert_eq!(stream.read_line(&mut line), 0);
    assert_eq!(line, b"two\n\nlast");
    stream.feed(b"more");
    stream.feed(b" of it\nand");
    let mut line = Vec::new();
    assert_eq!(stream.read_line(&mut line), 11);
    assert_eq!(line, b"more of it\n");
    stream.feed(b" on\n");
    let mut line = Vec::new();
    assert_eq!(stream.read_line(&mut line), 7);
    assert_eq!(line, b"and on\n");
}

#[test]
fn a_line_is_read_whole_whatever_its_length() {
    let mut text = vec![b'x'; 300];
    text.push(b'\n');
    text.extend_from_slice(b"next");
    let mut stream = InputStream::from_file(text.clone());
    let mut line = Vec::new();
    assert_eq!(stream.read_line(&mut line), 301);
    assert_eq!(line, &text[..301]);
    assert_eq!(stream.read_line(&mut line), 4);
    assert_eq!(stream.read_line(&mut line), 0);
    assert_eq!(line, text);
    let mut slot = Some(InputStream::from_file(text.clone()));
    let mut line = Vec::new();
    assert_eq!(in_stream_read_line(&mut slot, &mut line), 301);
}

#[test]
fn a_piece_of_a_line_is_cut_to_the_limit() {
    let mut text = vec![b'x'; 300];
    text.push(b'\n');
    let mut stream = InputStream::from_file(text);
    let mut line = Vec::new();
    assert_eq!(stream.read_piece(&mut line, 255), 255);
    assert_eq!(line, vec![b'x'; 255]);
    let mut line = Vec::new();
    assert_eq!(stream.read_piece(&mut line, 255), 46);
    assert_eq!(line.last(), Some(&b'\n'));
    assert_eq!(stream.read_piece(&mut line, 255), 0);
    // a line that ends at the limit ends with its newline
    let mut text = vec![b'y'; 254];
    text.push(b'\n');
    text.push(b'z');
    let mut slot = Some(InputStream::from_file(text));
    let mut line = Vec::new();
    assert_eq!(in_stream_read_piece(&mut slot, &mut line, 255), 255);
    assert_eq!(in_stream_read_piece(&mut slot, &mut line, 0), 0);
    assert_eq!(in_stream_read_piece(&mut slot, &mut line, 255), 1);
    let mut none = None;
    assert_eq!(in_stream_read_piece(&mut none, &mut line, 255), 0);
}

#[test]
fn the_input_line_takes_a_long_line_in_pieces() {
    let mut vm = new_vm();
    let buf = vm.read_i32(mmap::INPUT_BUFFER as i32);
    let mut text: Vec<u8> = (0..600).map(|i| b'a' + (i % 26) as u8).collect();
    text.push(b'\n');
    let mut input = Some(InputStream::from_file(text.clone()));
    let mut read = Vec::new();
    for k in 0..601 {
        read.push(vm.key(&mut input, false));
        let piece = k / 255;
        let len = if piece < 2 { 255 } else { 91 };
        assert_eq!(vm.read_u8(buf), len);
        assert_eq!(vm.read_i32(mmap::INPUT_BUFFER_IN as i32), (k % 255 + 1) as i32);
    }
    assert_eq!(read, text);
    assert_eq!(vm.key(&mut input, true), b'\n');
    assert!(in_stream_is_terminal(&input));
}

#[test]
fn a_byte_of_the_line_is_read_without_the_stream() {
    let mut vm = new_vm();
    let mut input = Some(InputStream::from_file(b"cd\n".to_vec()));
    vm.fill_input_buffer("ab");
    let before = vm.read(0, 0x10000);
    assert_eq!(vm.key(&mut input, false), b'a');
    // only the read count has moved
    let mut after = vm.read(0, 0x10000);
    assert_eq!(vm.read_i32(mmap::INPUT_BUFFER_IN as i32), 1);
    after[mmap::INPUT_BUFFER_IN] = 0;
    assert_eq!(after, before);
    assert_eq!(vm.key(&mut input, false), b'b');
    // and the stream still holds its line
    let mut line = Vec::new();
    assert_eq!(in_stream_read_line(&mut input, &mut line), 3);
    assert_eq!(line, b"cd\n");
}

#[test]
fn the_current_stream_may_be_missing() {
    let mut slot: Option<InputStream> = None;
    let mut line = Vec::new();
    assert!(!in_stream_is_terminal(&slot));
    assert_eq!(in_stream_read_line(&mut slot, &mut line), 0);
    assert!(slot.is_none());
    in_stream_from_stdin(&mut slot, true);
    assert!(in_stream_is_terminal(&slot));
    assert_eq!(in_stream_read_line(&mut slot, &mut line), 0);
    in_steam_from_file(&mut slot, b"a line\n".to_vec());
    assert!(!in_stream_is_terminal(&slot));
    assert_eq!(in_stream_read_line(&mut slot, &mut line), 7);
    assert_eq!(line, b"a line\n");
    assert!(InputStream::from_stdin(true).is_terminal());
    assert!(!InputStream::from_stdin(false).is_terminal());
}

#[test]
fn the_input_line_holds_its_length_and_its_bytes() {
    let mut vm = new_vm();
    let buf = vm.read_i32(mmap::INPUT_BUFFER as i32);
    vm.write_i32(5, mmap::INPUT_BUFFER_IN as i32);
    vm.fill_input_buffer("abc");
    assert_eq!(vm.read_u8(buf), 3);
    assert_eq!(vm.read(buf as usize + 1, 3), b"abc");
    assert_eq!(vm.read_i32(mmap::INPUT_BUFFER_IN as i32), 0);
    let long = "x".repeat(255);
    vm.fill_input_buffer(&long);
    assert_eq!(vm.read_u8(buf), 255);
    for _ in 0..255 {
        assert_eq!(vm.read_next_char(), Some(b'x'));
    }
    assert_eq!(vm.read_next_char(), None);
    vm.fill_input_buffer("");
    assert_eq!(vm.read_next_char(), None);
}

#[test]
fn key_pulls_lines_and_reverts_to_the_standard_input() {
    let mut vm = new_vm();
    let mut input = Some(InputStream::from_file(b"ab\nc".to_vec()));
    vm.fill_input_buffer("x");
    assert_eq!(vm.key(&mut input, true), b'x');
    assert_eq!(vm.key(&mut input, true), b'a');
    assert_eq!(vm.key(&mut input, true), b'b');
    assert_eq!(vm.key(&mut input, true), b'\n');
    assert_eq!(vm.next_key(&mut input, true), Some(b'c'));
    assert!(!in_stream_is_terminal(&input));
    // the file is at its end: a newline is made up, and the terminal is read
    assert_eq!(vm.key(&mut input, true), b'\n');
    assert!(in_stream_is_terminal(&input));
    assert_eq!(vm.next_key(&mut input, false), None);
    assert!(!in_stream_is_terminal(&input));
    let mut none = None;
    assert_eq!(vm.key(&mut none, true), b'\n');
    assert!(in_stream_is_terminal(&none));
}

#[test]
fn word_skips_separators_and_comments() {
    let mut vm = new_vm();
    let scratch = vm.read_i32(mmap::IN_STREAM as i32);
    let mut input =
        Some(InputStream::from_file(b" \t\r\n \\ a comment \\ still\n\x0c one\ttwo\\x \\\nlast".to_vec()));
    assert_eq!(vm.word(&mut input, true), WordOutcome::Token { len: 3, addr: scratch });
    assert_eq!(vm.read(scratch as usize, 3), b"one");
    assert_eq!(vm.skip_white_space(&mut input, true), Some(b't'));
    assert_eq!(vm.word(&mut input, true), WordOutcome::Token { len: 4, addr: scratch });
    assert_eq!(vm.read(scratch as usize, 4), b"wo\\x");
    assert!(!in_stream_is_terminal(&input));
    // the last token runs to the end of the file
    assert_eq!(vm.word(&mut input, true), WordOutcome::Token { len: 4, addr: scratch });
    assert_eq!(vm.read(scratch as usize, 4), b"last");
    assert!(in_stream_is_terminal(&input));
    assert_eq!(vm.word(&mut input, false), WordOutcome::Exhausted);
    assert!(!in_stream_is_terminal(&input));
    assert_eq!(vm.skip_white_space(&mut input, false), None);
    // a comment that the input ends in holds no token
    let mut input = Some(InputStream::from_file(b"  \\ only a comment".to_vec()));
    assert_eq!(vm.word(&mut input, true), WordOutcome::Exhausted);
}

#[test]
fn a_token_that_does_not_fit_the_scratch_area_is_told() {
    let mut vm = new_vm();
    let scratch = vm.read_i32(mmap::IN_STREAM as i32);
    let buf = vm.read_i32(mmap::INPUT_BUFFER as i32);
    let room = (buf - scratch) as usize;
    assert_eq!(room, 1020);
    let mut text = vec![b'a'; room];
    text.extend_from_slice(b" ");
    text.extend_from_slice(&vec![b'b'; room + 1]);
    text.extend_from_slice(b" next ");
    let mut input = Some(InputStream::from_file(text));
    assert_eq!(
        vm.word(&mut input, false),
        WordOutcome::Token { len: room as i32, addr: scratch }
    );
    assert_eq!(vm.read(scratch as usize, room), vec![b'a'; room]);
    assert_eq!(vm.word(&mut input, false), WordOutcome::TooLong);
    // what fits was stored, the whole token was read, the buffer is whole
    assert_eq!(vm.read(scratch as usize, room), vec![b'b'; room]);
    assert_eq!(vm.word(&mut input, false), WordOutcome::Token { len: 4, addr: scratch });
    assert_eq!(vm.read(scratch as usize, 4), b"next");
}

#[test]
fn the_host_words_work_on_the_parameter_stack() {
    let mut vm = new_vm();
    let scratch = vm.read_i32(mmap::IN_STREAM as i32);
    let mut input = Some(InputStream::from_file(b"12b4 -ff x".to_vec()));

    assert_eq!(
        words::word(&mut vm, &mut input, false),
        WordOutcome::Token { len: 4, addr: scratch }
    );
    assert_eq!(vm.pstack_depth(), 2);
    words::number(&mut vm);
    assert_eq!((vm.pop_i32(), vm.pop_i32()), (2, 0));

    words::word(&mut vm, &mut input, false);
    vm.set_base(16);
    words::number(&mut vm);
    assert_eq!((vm.pop_i32(), vm.pop_i32()), (0, -255));
    assert_eq!(vm.number_at(3, scratch), (-255, 0));
    assert_eq!(vm.number_at(0, scratch), (0, 0));
    assert_eq!(vm.number_at(-1, scratch), (0, 0));

    assert_eq!(words::read_char(&mut vm, &mut input, false), Some(b'x'));
    assert_eq!(vm.pop_i32(), b'x' as i32);
    assert_eq!(words::read_char(&mut vm, &mut input, false), None);
    assert_eq!(words::word(&mut vm, &mut input, false), WordOutcome::Exhausted);
    assert_eq!(vm.pstack_depth(), 0);
    assert_eq!(words::key(&mut vm, &mut input, false), b'\n');
    assert_eq!(vm.pop_i32(), 10);

    vm.push_i32(0x141);
    assert_eq!(words::emit_char(&mut vm), 'A');
    vm.push_i32(-1);
    assert_eq!(words::emit_char(&mut vm), '\u{ff}');
    vm.push_i32(-42);
    assert_eq!(words::print_top_value(&mut vm), -42);
    vm.write_str(300, "hello");
    assert_eq!(vm.read_i32(300), 5);
    vm.push_i32(304);
    vm.push_i32(5);
    assert_eq!(words::tell(&mut vm), b"hello");
    vm.push_i32(304);
    vm.push_i32(0);
    assert_eq!(words::tell(&mut vm), b"");
    assert_eq!(words::make_string(&vm, 2, 305), b"el");
    assert_eq!(words::make_string(&vm, -3, 305), b"");
    assert_eq!(vm.pstack_depth(), 0);
}

#[test]
fn create_and_comma_build_a_word_by_hand() {
    let mut vm = new_vm();
    let o = ops();
    let dup = vm.builtin("dup", &[o.dup, NEXT]);
    vm.write_str(400, "a-very-long-name");
    let here = vm.here();
    vm.push_i32(404);
    vm.push_i32(16);
    words::create(&mut vm);
    assert_eq!(vm.pstack_depth(), 0);
    assert_eq!(vm.latest(), here);
    assert_eq!(vm.read_i32(here), dup);
    assert_eq!(vm.read_u8(here + 4), 16);
    assert_eq!(vm.read(here as usize + 5, 13), b"a-very-long-n");
    assert_eq!(vm.here(), align(here + 5 + 13));
    assert_eq!(vm.here(), vm.cfa(here));
    assert!(vm.dictionary_ok());
    vm.push_i32(mmap::DOCOL as i32);
    words::comma(&mut vm);
    vm.push_i32(vm.cfa(dup));
    words::comma(&mut vm);
    assert_eq!(vm.read_i32(vm.cfa(here)), mmap::DOCOL as i32);
    assert_eq!(vm.read_i32(vm.cfa(here) + 4), vm.cfa(dup));
    assert_eq!(vm.here(), vm.cfa(here) + 8);
    assert_eq!(vm.find("a-very-long-name"), Some(here));

    // the host word finds what a name in the arena names
    vm.write_str(400, "dup");
    vm.push_i32(404);
    vm.push_i32(3);
    words::find(&mut vm);
    assert_eq!(vm.pop_i32(), dup);
    assert_eq!(vm.find_at(3, 404), dup);
    assert_eq!(vm.find_at(2, 404), 0);
    assert_eq!(vm.find_at(-1, 404), 0);
    assert_eq!(vm.find_at(32, 404), 0);
    vm.hidden(dup);
    assert_eq!(vm.find_at(3, 404), 0);
    // a length that shows the hidden flag names no word either
    assert_eq!(vm.find_at(3 + HIDDEN as i32, 404), 0);

    // a length outside a byte is cut, and 13 bytes are stored
    let here = vm.here();
    vm.create_header(-1, 404);
    assert_eq!(vm.read_u8(here + 4), 0xff);
    assert_eq!(vm.here(), align(here + 5 + 13));
}

#[test]
fn bytes_show_as_printable_characters() {
    assert_eq!(print_c(b'a'), 'a');
    assert_eq!(print_c(b'~'), '~');
    assert_eq!(print_c(b'!'), '!');
    assert_eq!(print_c(b' '), '.');
    assert_eq!(print_c(0), '.');
    assert_eq!(print_c(127), '.');
    assert_eq!(print_c(200), '.');
}

#[test]
fn natives_must_fit_cells() {
    assert!(natives().is_valid());
    let mut n = natives();
    n.tell = 0x8000_0000;
    assert!(!n.is_valid());
}
