//! The initial vocabulary: the primitives, written in the instructions of
//! the execution engine, the words that call into the host, and the composite
//! words, among them the compiler words and the outer interpreter.

use vstd::prelude::*;
use vstd::string::{is_ascii, is_ascii_spec_bytes, StringSliceAdditionalSpecFns};
use crate::cells::cell_at;
use crate::dictionary::{code_field, dict_ok, entries, here_of, key_of};
use crate::forthvm::ForthVM;
use crate::number::{literal_of, radix_value};
use crate::opcodes::{
    branch, branch_code, call, call_code, constant, constant_code, execute, execute_code, exit,
    exit_code, lit, lit_code, litstring, litstring_code, zero_branch, zero_branch_code, Opcodes,
};
use crate::threaded::{DIV_MOD, NEXT, OVER, ROT};
use crate::writer::{
    added, extended, guarded_composite, image_with_composite, image_with_primitive, knows,
    body_cells, header_byte, lemma_composite_image, lemma_shaped_composite, lemma_shaped_none,
    lemma_shaped_primitive, lemma_shaped_trans, lemma_word_composite, lemma_word_kept,
    lemma_word_primitive, resolve,
    same_word, word_holds,
    resolved_up_to, shaped, token_bytes, well_named, DefineError, Image, ENTRY_OVERHEAD,
};
use crate::{mmap, IMMEDIATE};

verus! {

/// The index that the execution engine gave each host function when it was
/// registered there.
pub struct NativeWords {
    pub key: usize,
    pub word: usize,
    pub dot: usize,
    pub emit: usize,
    pub tell: usize,
    pub find: usize,
    pub number: usize,
    pub comma: usize,
    pub create: usize,
    pub read_char: usize,
}

impl NativeWords {
    /// Whether every index fits a cell.
    pub open spec fn valid(&self) -> bool {
        &&& self.key <= i32::MAX
        &&& self.word <= i32::MAX
        &&& self.dot <= i32::MAX
        &&& self.emit <= i32::MAX
        &&& self.tell <= i32::MAX
        &&& self.find <= i32::MAX
        &&& self.number <= i32::MAX
        &&& self.comma <= i32::MAX
        &&& self.create <= i32::MAX
        &&& self.read_char <= i32::MAX
    }

    /// Whether every index fits a cell.
    pub fn is_valid(&self) -> (r: bool)
        ensures
            r == self.valid(),
    {
        self.key <= 0x7fff_ffff && self.word <= 0x7fff_ffff && self.dot <= 0x7fff_ffff && self.emit
            <= 0x7fff_ffff && self.tell <= 0x7fff_ffff && self.find <= 0x7fff_ffff && self.number
            <= 0x7fff_ffff && self.comma <= 0x7fff_ffff && self.create <= 0x7fff_ffff
            && self.read_char <= 0x7fff_ffff
    }
}

/// Whether `name` is the name of one of the words that push the address of a register or a constant.
pub open spec fn is_register_word(name: Seq<u8>) -> bool {
    name == "state".spec_bytes()
        || name == "here".spec_bytes()
        || name == "latest".spec_bytes()
        || name == "dsp".spec_bytes()
        || name == "rsp".spec_bytes()
        || name == "s0".spec_bytes()
        || name == "r0".spec_bytes()
        || name == "base".spec_bytes()
        || name == "DOCOL".spec_bytes()
        || name == "F_IMMED".spec_bytes()
        || name == "F_HIDDEN".spec_bytes()
        || name == "F_LENMASK".spec_bytes()
        || name == "true".spec_bytes()
        || name == "false".spec_bytes()
        || name == "not".spec_bytes()
}

/// Whether `name` is the name of one of the words that rearrange the parameter stack.
pub open spec fn is_stack_word(name: Seq<u8>) -> bool {
    name == "drop".spec_bytes()
        || name == "2drop".spec_bytes()
        || name == "swap".spec_bytes()
        || name == "dup".spec_bytes()
        || name == "2dup".spec_bytes()
        || name == "?dup".spec_bytes()
        || name == "nip".spec_bytes()
        || name == "over".spec_bytes()
        || name == "rot".spec_bytes()
        || name == "-rot".spec_bytes()
        || name == "tuck".spec_bytes()
}

/// Whether `name` is the name of one of the words of arithmetic.
pub open spec fn is_arithmetic_word(name: Seq<u8>) -> bool {
    name == "+".spec_bytes()
        || name == "1+".spec_bytes()
        || name == "1-".spec_bytes()
        || name == "4+".spec_bytes()
        || name == "4-".spec_bytes()
        || name == "-".spec_bytes()
        || name == "*".spec_bytes()
        || name == "/".spec_bytes()
        || name == "mod".spec_bytes()
        || name == "/mod".spec_bytes()
}

/// Whether `name` is the name of one of the words that compare.
pub open spec fn is_comparison_word(name: Seq<u8>) -> bool {
    name == "=".spec_bytes()
        || name == "0=".spec_bytes()
        || name == "0<".spec_bytes()
        || name == "0>".spec_bytes()
        || name == "<>".spec_bytes()
        || name == "<".spec_bytes()
        || name == ">".spec_bytes()
        || name == "u<".spec_bytes()
        || name == "u>".spec_bytes()
        || name == "<=".spec_bytes()
        || name == ">=".spec_bytes()
        || name == "min".spec_bytes()
        || name == "max".spec_bytes()
}

/// Whether `name` is the name of one of the words of bitwise logic and of memory access.
pub open spec fn is_memory_word(name: Seq<u8>) -> bool {
    name == "and".spec_bytes()
        || name == "or".spec_bytes()
        || name == "xor".spec_bytes()
        || name == "invert".spec_bytes()
        || name == "!".spec_bytes()
        || name == "+!".spec_bytes()
        || name == "@".spec_bytes()
        || name == "c!".spec_bytes()
        || name == "c@".spec_bytes()
        || name == "negate".spec_bytes()
}

/// Whether `name` is the name of one of the words of threaded execution.
pub open spec fn is_control_word(name: Seq<u8>) -> bool {
    name == "bye".spec_bytes()
        || name == "execute".spec_bytes()
        || name == "lit".spec_bytes()
        || name == "litstring".spec_bytes()
        || name == "exit".spec_bytes()
}

/// Whether `name` is the name of one of the words of the return stack and of the stack pointers.
pub open spec fn is_return_stack_word(name: Seq<u8>) -> bool {
    name == ">r".spec_bytes()
        || name == "r>".spec_bytes()
        || name == "rdrop".spec_bytes()
        || name == "rsp!".spec_bytes()
        || name == "rsp@".spec_bytes()
        || name == "dsp!".spec_bytes()
        || name == "dsp@".spec_bytes()
}

/// Whether `name` is the name of one of the branches and the words that change flags and the compiler state.
pub open spec fn is_compiler_word(name: Seq<u8>) -> bool {
    name == "branch".spec_bytes()
        || name == "0branch".spec_bytes()
        || name == "immediate".spec_bytes()
        || name == "'".spec_bytes()
        || name == ">cfa".spec_bytes()
        || name == "[".spec_bytes()
        || name == "]".spec_bytes()
        || name == "hidden".spec_bytes()
}

/// Whether `name` is the name of one of the words that call into the host.
pub open spec fn is_host_word(name: Seq<u8>) -> bool {
    name == "key".spec_bytes()
        || name == "word".spec_bytes()
        || name == ".".spec_bytes()
        || name == "emit".spec_bytes()
        || name == "tell".spec_bytes()
        || name == "find".spec_bytes()
        || name == "number".spec_bytes()
        || name == ",".spec_bytes()
        || name == "create".spec_bytes()
        || name == "char".spec_bytes()
}

/// Whether `name` is the name of one of the composite words: the compiler words and the outer interpreter.
pub open spec fn is_composite_word(name: Seq<u8>) -> bool {
    name == ">dfa".spec_bytes()
        || name == "hide".spec_bytes()
        || name == ":".spec_bytes()
        || name == ";".spec_bytes()
        || name == "interpret".spec_bytes()
        || name == "quit".spec_bytes()
}

/// Whether `name` is the name of a word of one of the first `k` groups of the
/// initial vocabulary, in the order in which they are defined.
pub open spec fn in_groups(k: int, name: Seq<u8>) -> bool {
    (k >= 1 && is_register_word(name))
        || (k >= 2 && is_stack_word(name))
        || (k >= 3 && is_arithmetic_word(name))
        || (k >= 4 && is_comparison_word(name))
        || (k >= 5 && is_memory_word(name))
        || (k >= 6 && is_control_word(name))
        || (k >= 7 && is_return_stack_word(name))
        || (k >= 8 && is_compiler_word(name))
        || (k >= 9 && is_host_word(name))
        || (k >= 10 && is_composite_word(name))
}

/// Whether `name` is the name of a word of the initial vocabulary that is not
/// a composite word.
pub open spec fn is_primitive_word(name: Seq<u8>) -> bool {
    in_groups(9, name)
}

/// Whether `name` is the name of a word of the initial vocabulary.
pub open spec fn is_vocabulary(name: Seq<u8>) -> bool {
    in_groups(10, name)
}

/// The most bytes that the words that push the address of a register or a constant take in the dictionary.
pub const REGISTER_ROOM: usize = 506;

/// The most bytes that the words that rearrange the parameter stack take in the dictionary.
pub const STACK_ROOM: usize = 341;

/// The most bytes that the words of arithmetic take in the dictionary.
pub const ARITHMETIC_ROOM: usize = 310;

/// The most bytes that the words that compare take in the dictionary.
pub const COMPARISON_ROOM: usize = 393;

/// The most bytes that the words of bitwise logic and of memory access take in the dictionary.
pub const MEMORY_ROOM: usize = 307;

/// The most bytes that the words of threaded execution take in the dictionary.
pub const CONTROL_ROOM: usize = 238;

/// The most bytes that the words of the return stack and of the stack pointers take in the dictionary.
pub const RETURN_STACK_ROOM: usize = 285;

/// The most bytes that the branches and the words that change flags and the compiler state take in the dictionary.
pub const COMPILER_ROOM: usize = 378;

/// The most bytes that the words that call into the host take in the dictionary.
pub const HOST_ROOM: usize = 350;

/// The most bytes that the composite words: the compiler words and the outer interpreter take in the dictionary.
pub const COMPOSITE_ROOM: usize = 516;

/// The number of the words of the initial vocabulary.
pub const VOCABULARY_WORDS: usize = 95;

/// The most bytes that the initial vocabulary takes in the dictionary.
pub const VOCABULARY_ROOM: usize = 3624;

/// The tokens of `>dfa` ( entry -- addr ): the address of the first body cell of an entry,
/// one cell behind its code field.
pub open spec fn to_dfa_tokens() -> Seq<&'static str> {
    seq![">cfa", "4+", "exit"]
}

/// The tokens of `hide`: reads a name and toggles the hidden flag of the word that it
/// names.
pub open spec fn hide_tokens() -> Seq<&'static str> {
    seq!["word", "find", "hidden", "exit"]
}

/// The tokens of `:`: reads a name, makes a header for it, appends the address of the
/// trampoline as its code field, hides the new word and switches to
/// compiling.
pub open spec fn colon_tokens() -> Seq<&'static str> {
    seq!["word", "create", "DOCOL", ",", "latest", "@", "hidden", "]", "exit"]
}

/// The tokens of `;`: compiles `exit`, shows the word under construction again and
/// switches to interpreting. It is immediate.
pub open spec fn semicolon_tokens() -> Seq<&'static str> {
    seq!["lit", "exit", ",", "latest", "@", "hidden", "[", "exit"]
}

/// The tokens of `interpret`, the outer interpreter: reads one token and looks it up. A
/// word that is immediate, or any word while interpreting, is executed;
/// another word is compiled as its code field address. A token that is no
/// word is parsed as a number, which is left on the stack while
/// interpreting and compiled behind `lit` while compiling. A token that is
/// neither gives a question mark. The numbers behind `branch` and
/// `0branch` are the distances of the jumps in bytes, counted from the
/// cell that holds them.
pub open spec fn interpret_tokens() -> Seq<&'static str> {
    seq![
        "word", "2dup", "lit", "0", ">r", "find", "dup", "0branch", "56", "swap", "drop", "swap",
        "drop", "dup", "4+", "c@", "F_IMMED", "and", ">r", ">cfa", "branch", "36", "r>", "1+",
        ">r", ">r", "number", "0=", "0branch", "92", "state", "@", "r>", "0=", "and", "0=",
        "0branch", "28", "r>", "0branch", "8", "exit", "execute", "exit", "r>", "0branch", "16",
        "'", "lit", ",", ",", "exit", "rdrop", "rdrop", "lit", "63", "emit", "exit",
    ]
}

/// The tokens of `quit`, the top-level loop: resets the return stack and interprets,
/// over and over.
pub open spec fn quit_tokens() -> Seq<&'static str> {
    seq!["r0", "rsp!", "interpret", "branch", "-16"]
}

/// The name of each of the words that push the address of a register or a constant fits the length field of an entry.
pub proof fn lemma_register_names()
    ensures
        forall|name: Seq<u8>| #[trigger] is_register_word(name) ==> name.len() <= 31,
{
    reveal_strlit("state");
    is_ascii_spec_bytes("state");
    assert(is_ascii("state"));
    reveal_strlit("here");
    is_ascii_spec_bytes("here");
    assert(is_ascii("here"));
    reveal_strlit("latest");
    is_ascii_spec_bytes("latest");
    assert(is_ascii("latest"));
    reveal_strlit("dsp");
    is_ascii_spec_bytes("dsp");
    assert(is_ascii("dsp"));
    reveal_strlit("rsp");
    is_ascii_spec_bytes("rsp");
    assert(is_ascii("rsp"));
    reveal_strlit("s0");
    is_ascii_spec_bytes("s0");
    assert(is_ascii("s0"));
    reveal_strlit("r0");
    is_ascii_spec_bytes("r0");
    assert(is_ascii("r0"));
    reveal_strlit("base");
    is_ascii_spec_bytes("base");
    assert(is_ascii("base"));
    reveal_strlit("DOCOL");
    is_ascii_spec_bytes("DOCOL");
    assert(is_ascii("DOCOL"));
    reveal_strlit("F_IMMED");
    is_ascii_spec_bytes("F_IMMED");
    assert(is_ascii("F_IMMED"));
    reveal_strlit("F_HIDDEN");
    is_ascii_spec_bytes("F_HIDDEN");
    assert(is_ascii("F_HIDDEN"));
    reveal_strlit("F_LENMASK");
    is_ascii_spec_bytes("F_LENMASK");
    assert(is_ascii("F_LENMASK"));
    reveal_strlit("true");
    is_ascii_spec_bytes("true");
    assert(is_ascii("true"));
    reveal_strlit("false");
    is_ascii_spec_bytes("false");
    assert(is_ascii("false"));
    reveal_strlit("not");
    is_ascii_spec_bytes("not");
    assert(is_ascii("not"));
}

/// The name of each of the words that rearrange the parameter stack fits the length field of an entry.
pub proof fn lemma_stack_names()
    ensures
        forall|name: Seq<u8>| #[trigger] is_stack_word(name) ==> name.len() <= 31,
{
    reveal_strlit("drop");
    is_ascii_spec_bytes("drop");
    assert(is_ascii("drop"));
    reveal_strlit("2drop");
    is_ascii_spec_bytes("2drop");
    assert(is_ascii("2drop"));
    reveal_strlit("swap");
    is_ascii_spec_bytes("swap");
    assert(is_ascii("swap"));
    reveal_strlit("dup");
    is_ascii_spec_bytes("dup");
    assert(is_ascii("dup"));
    reveal_strlit("2dup");
    is_ascii_spec_bytes("2dup");
    assert(is_ascii("2dup"));
    reveal_strlit("?dup");
    is_ascii_spec_bytes("?dup");
    assert(is_ascii("?dup"));
    reveal_strlit("nip");
    is_ascii_spec_bytes("nip");
    assert(is_ascii("nip"));
    reveal_strlit("over");
    is_ascii_spec_bytes("over");
    assert(is_ascii("over"));
    reveal_strlit("rot");
    is_ascii_spec_bytes("rot");
    assert(is_ascii("rot"));
    reveal_strlit("-rot");
    is_ascii_spec_bytes("-rot");
    assert(is_ascii("-rot"));
    reveal_strlit("tuck");
    is_ascii_spec_bytes("tuck");
    assert(is_ascii("tuck"));
}

/// The name of each of the words of arithmetic fits the length field of an entry.
pub proof fn lemma_arithmetic_names()
    ensures
        forall|name: Seq<u8>| #[trigger] is_arithmetic_word(name) ==> name.len() <= 31,
{
    reveal_strlit("+");
    is_ascii_spec_bytes("+");
    assert(is_ascii("+"));
    reveal_strlit("1+");
    is_ascii_spec_bytes("1+");
    assert(is_ascii("1+"));
    reveal_strlit("1-");
    is_ascii_spec_bytes("1-");
    assert(is_ascii("1-"));
    reveal_strlit("4+");
    is_ascii_spec_bytes("4+");
    assert(is_ascii("4+"));
    reveal_strlit("4-");
    is_ascii_spec_bytes("4-");
    assert(is_ascii("4-"));
    reveal_strlit("-");
    is_ascii_spec_bytes("-");
    assert(is_ascii("-"));
    reveal_strlit("*");
    is_ascii_spec_bytes("*");
    assert(is_ascii("*"));
    reveal_strlit("/");
    is_ascii_spec_bytes("/");
    assert(is_ascii("/"));
    reveal_strlit("mod");
    is_ascii_spec_bytes("mod");
    assert(is_ascii("mod"));
    reveal_strlit("/mod");
    is_ascii_spec_bytes("/mod");
    assert(is_ascii("/mod"));
}

/// The name of each of the words that compare fits the length field of an entry.
pub proof fn lemma_comparison_names()
    ensures
        forall|name: Seq<u8>| #[trigger] is_comparison_word(name) ==> name.len() <= 31,
{
    reveal_strlit("=");
    is_ascii_spec_bytes("=");
    assert(is_ascii("="));
    reveal_strlit("0=");
    is_ascii_spec_bytes("0=");
    assert(is_ascii("0="));
    reveal_strlit("0<");
    is_ascii_spec_bytes("0<");
    assert(is_ascii("0<"));
    reveal_strlit("0>");
    is_ascii_spec_bytes("0>");
    assert(is_ascii("0>"));
    reveal_strlit("<>");
    is_ascii_spec_bytes("<>");
    assert(is_ascii("<>"));
    reveal_strlit("<");
    is_ascii_spec_bytes("<");
    assert(is_ascii("<"));
    reveal_strlit(">");
    is_ascii_spec_bytes(">");
    assert(is_ascii(">"));
    reveal_strlit("u<");
    is_ascii_spec_bytes("u<");
    assert(is_ascii("u<"));
    reveal_strlit("u>");
    is_ascii_spec_bytes("u>");
    assert(is_ascii("u>"));
    reveal_strlit("<=");
    is_ascii_spec_bytes("<=");
    assert(is_ascii("<="));
    reveal_strlit(">=");
    is_ascii_spec_bytes(">=");
    assert(is_ascii(">="));
    reveal_strlit("min");
    is_ascii_spec_bytes("min");
    assert(is_ascii("min"));
    reveal_strlit("max");
    is_ascii_spec_bytes("max");
    assert(is_ascii("max"));
}

/// The name of each of the words of bitwise logic and of memory access fits the length field of an entry.
pub proof fn lemma_memory_names()
    ensures
        forall|name: Seq<u8>| #[trigger] is_memory_word(name) ==> name.len() <= 31,
{
    reveal_strlit("and");
    is_ascii_spec_bytes("and");
    assert(is_ascii("and"));
    reveal_strlit("or");
    is_ascii_spec_bytes("or");
    assert(is_ascii("or"));
    reveal_strlit("xor");
    is_ascii_spec_bytes("xor");
    assert(is_ascii("xor"));
    reveal_strlit("invert");
    is_ascii_spec_bytes("invert");
    assert(is_ascii("invert"));
    reveal_strlit("!");
    is_ascii_spec_bytes("!");
    assert(is_ascii("!"));
    reveal_strlit("+!");
    is_ascii_spec_bytes("+!");
    assert(is_ascii("+!"));
    reveal_strlit("@");
    is_ascii_spec_bytes("@");
    assert(is_ascii("@"));
    reveal_strlit("c!");
    is_ascii_spec_bytes("c!");
    assert(is_ascii("c!"));
    reveal_strlit("c@");
    is_ascii_spec_bytes("c@");
    assert(is_ascii("c@"));
    reveal_strlit("negate");
    is_ascii_spec_bytes("negate");
    assert(is_ascii("negate"));
}

/// The name of each of the words of threaded execution fits the length field of an entry.
pub proof fn lemma_control_names()
    ensures
        forall|name: Seq<u8>| #[trigger] is_control_word(name) ==> name.len() <= 31,
{
    reveal_strlit("bye");
    is_ascii_spec_bytes("bye");
    assert(is_ascii("bye"));
    reveal_strlit("execute");
    is_ascii_spec_bytes("execute");
    assert(is_ascii("execute"));
    reveal_strlit("lit");
    is_ascii_spec_bytes("lit");
    assert(is_ascii("lit"));
    reveal_strlit("litstring");
    is_ascii_spec_bytes("litstring");
    assert(is_ascii("litstring"));
    reveal_strlit("exit");
    is_ascii_spec_bytes("exit");
    assert(is_ascii("exit"));
}

/// The name of each of the words of the return stack and of the stack pointers fits the length field of an entry.
pub proof fn lemma_return_stack_names()
    ensures
        forall|name: Seq<u8>| #[trigger] is_return_stack_word(name) ==> name.len() <= 31,
{
    reveal_strlit(">r");
    is_ascii_spec_bytes(">r");
    assert(is_ascii(">r"));
    reveal_strlit("r>");
    is_ascii_spec_bytes("r>");
    assert(is_ascii("r>"));
    reveal_strlit("rdrop");
    is_ascii_spec_bytes("rdrop");
    assert(is_ascii("rdrop"));
    reveal_strlit("rsp!");
    is_ascii_spec_bytes("rsp!");
    assert(is_ascii("rsp!"));
    reveal_strlit("rsp@");
    is_ascii_spec_bytes("rsp@");
    assert(is_ascii("rsp@"));
    reveal_strlit("dsp!");
    is_ascii_spec_bytes("dsp!");
    assert(is_ascii("dsp!"));
    reveal_strlit("dsp@");
    is_ascii_spec_bytes("dsp@");
    assert(is_ascii("dsp@"));
}

/// The name of each of the branches and the words that change flags and the compiler state fits the length field of an entry.
pub proof fn lemma_compiler_names()
    ensures
        forall|name: Seq<u8>| #[trigger] is_compiler_word(name) ==> name.len() <= 31,
{
    reveal_strlit("branch");
    is_ascii_spec_bytes("branch");
    assert(is_ascii("branch"));
    reveal_strlit("0branch");
    is_ascii_spec_bytes("0branch");
    assert(is_ascii("0branch"));
    reveal_strlit("immediate");
    is_ascii_spec_bytes("immediate");
    assert(is_ascii("immediate"));
    reveal_strlit("'");
    is_ascii_spec_bytes("'");
    assert(is_ascii("'"));
    reveal_strlit(">cfa");
    is_ascii_spec_bytes(">cfa");
    assert(is_ascii(">cfa"));
    reveal_strlit("[");
    is_ascii_spec_bytes("[");
    assert(is_ascii("["));
    reveal_strlit("]");
    is_ascii_spec_bytes("]");
    assert(is_ascii("]"));
    reveal_strlit("hidden");
    is_ascii_spec_bytes("hidden");
    assert(is_ascii("hidden"));
}

/// The name of each of the words that call into the host fits the length field of an entry.
pub proof fn lemma_host_names()
    ensures
        forall|name: Seq<u8>| #[trigger] is_host_word(name) ==> name.len() <= 31,
{
    reveal_strlit("key");
    is_ascii_spec_bytes("key");
    assert(is_ascii("key"));
    reveal_strlit("word");
    is_ascii_spec_bytes("word");
    assert(is_ascii("word"));
    reveal_strlit(".");
    is_ascii_spec_bytes(".");
    assert(is_ascii("."));
    reveal_strlit("emit");
    is_ascii_spec_bytes("emit");
    assert(is_ascii("emit"));
    reveal_strlit("tell");
    is_ascii_spec_bytes("tell");
    assert(is_ascii("tell"));
    reveal_strlit("find");
    is_ascii_spec_bytes("find");
    assert(is_ascii("find"));
    reveal_strlit("number");
    is_ascii_spec_bytes("number");
    assert(is_ascii("number"));
    reveal_strlit(",");
    is_ascii_spec_bytes(",");
    assert(is_ascii(","));
    reveal_strlit("create");
    is_ascii_spec_bytes("create");
    assert(is_ascii("create"));
    reveal_strlit("char");
    is_ascii_spec_bytes("char");
    assert(is_ascii("char"));
}

/// The name of each of the composite words: the compiler words and the outer interpreter fits the length field of an entry.
pub proof fn lemma_composite_names()
    ensures
        forall|name: Seq<u8>| #[trigger] is_composite_word(name) ==> name.len() <= 31,
{
    reveal_strlit(">dfa");
    is_ascii_spec_bytes(">dfa");
    assert(is_ascii(">dfa"));
    reveal_strlit("hide");
    is_ascii_spec_bytes("hide");
    assert(is_ascii("hide"));
    reveal_strlit(":");
    is_ascii_spec_bytes(":");
    assert(is_ascii(":"));
    reveal_strlit(";");
    is_ascii_spec_bytes(";");
    assert(is_ascii(";"));
    reveal_strlit("interpret");
    is_ascii_spec_bytes("interpret");
    assert(is_ascii("interpret"));
    reveal_strlit("quit");
    is_ascii_spec_bytes("quit");
    assert(is_ascii("quit"));
}

/// Each number among the tokens of the composite words is a literal.
pub proof fn lemma_literals()
    ensures
        literal_of("0".spec_bytes()).is_some(),
        literal_of("56".spec_bytes()).is_some(),
        literal_of("36".spec_bytes()).is_some(),
        literal_of("92".spec_bytes()).is_some(),
        literal_of("28".spec_bytes()).is_some(),
        literal_of("8".spec_bytes()).is_some(),
        literal_of("16".spec_bytes()).is_some(),
        literal_of("63".spec_bytes()).is_some(),
        literal_of("-16".spec_bytes()).is_some(),
{
    reveal_strlit("0");
    is_ascii_spec_bytes("0");
    assert(is_ascii("0"));
    lemma_digits1("0".spec_bytes());
    reveal_strlit("56");
    is_ascii_spec_bytes("56");
    assert(is_ascii("56"));
    lemma_digits2("56".spec_bytes());
    reveal_strlit("36");
    is_ascii_spec_bytes("36");
    assert(is_ascii("36"));
    lemma_digits2("36".spec_bytes());
    reveal_strlit("92");
    is_ascii_spec_bytes("92");
    assert(is_ascii("92"));
    lemma_digits2("92".spec_bytes());
    reveal_strlit("28");
    is_ascii_spec_bytes("28");
    assert(is_ascii("28"));
    lemma_digits2("28".spec_bytes());
    reveal_strlit("8");
    is_ascii_spec_bytes("8");
    assert(is_ascii("8"));
    lemma_digits1("8".spec_bytes());
    reveal_strlit("16");
    is_ascii_spec_bytes("16");
    assert(is_ascii("16"));
    lemma_digits2("16".spec_bytes());
    reveal_strlit("63");
    is_ascii_spec_bytes("63");
    assert(is_ascii("63"));
    lemma_digits2("63".spec_bytes());
    reveal_strlit("-16");
    is_ascii_spec_bytes("-16");
    assert(is_ascii("-16"));
    lemma_minus_digits2("-16".spec_bytes());
}

/// Each token of `>dfa` compiles to a cell where the words before it are
/// known.
pub proof fn lemma_to_dfa_resolves(mem: Seq<u8>)
    requires
        forall|name: Seq<u8>| is_primitive_word(name) ==> #[trigger] knows(mem, name),
    ensures
        token_bytes(to_dfa_tokens()).len() == 3,
        resolved_up_to(mem, token_bytes(to_dfa_tokens()), 3),
{
    let tokens = token_bytes(to_dfa_tokens());
    assert(knows(mem, ">cfa".spec_bytes()));
    assert(knows(mem, "4+".spec_bytes()));
    assert(knows(mem, "exit".spec_bytes()));
    assert forall|i: int| 0 <= i < 3 implies (#[trigger] resolve(mem, tokens[i])).is_some() by {
        if i == 0 { assert(tokens[i] == ">cfa".spec_bytes()); }
        if i == 1 { assert(tokens[i] == "4+".spec_bytes()); }
        if i == 2 { assert(tokens[i] == "exit".spec_bytes()); }
    }
}

/// Each token of `hide` compiles to a cell where the words before it are
/// known.
pub proof fn lemma_hide_resolves(mem: Seq<u8>)
    requires
        forall|name: Seq<u8>| is_primitive_word(name) ==> #[trigger] knows(mem, name),
    ensures
        token_bytes(hide_tokens()).len() == 4,
        resolved_up_to(mem, token_bytes(hide_tokens()), 4),
{
    let tokens = token_bytes(hide_tokens());
    assert(knows(mem, "word".spec_bytes()));
    assert(knows(mem, "find".spec_bytes()));
    assert(knows(mem, "hidden".spec_bytes()));
    assert(knows(mem, "exit".spec_bytes()));
    assert forall|i: int| 0 <= i < 4 implies (#[trigger] resolve(mem, tokens[i])).is_some() by {
        if i == 0 { assert(tokens[i] == "word".spec_bytes()); }
        if i == 1 { assert(tokens[i] == "find".spec_bytes()); }
        if i == 2 { assert(tokens[i] == "hidden".spec_bytes()); }
        if i == 3 { assert(tokens[i] == "exit".spec_bytes()); }
    }
}

/// Each token of `:` compiles to a cell where the words before it are
/// known.
pub proof fn lemma_colon_resolves(mem: Seq<u8>)
    requires
        forall|name: Seq<u8>| is_primitive_word(name) ==> #[trigger] knows(mem, name),
    ensures
        token_bytes(colon_tokens()).len() == 9,
        resolved_up_to(mem, token_bytes(colon_tokens()), 9),
{
    let tokens = token_bytes(colon_tokens());
    assert(knows(mem, "word".spec_bytes()));
    assert(knows(mem, "create".spec_bytes()));
    assert(knows(mem, "DOCOL".spec_bytes()));
    assert(knows(mem, ",".spec_bytes()));
    assert(knows(mem, "latest".spec_bytes()));
    assert(knows(mem, "@".spec_bytes()));
    assert(knows(mem, "hidden".spec_bytes()));
    assert(knows(mem, "]".spec_bytes()));
    assert(knows(mem, "exit".spec_bytes()));
    assert forall|i: int| 0 <= i < 9 implies (#[trigger] resolve(mem, tokens[i])).is_some() by {
        if i == 0 { assert(tokens[i] == "word".spec_bytes()); }
        if i == 1 { assert(tokens[i] == "create".spec_bytes()); }
        if i == 2 { assert(tokens[i] == "DOCOL".spec_bytes()); }
        if i == 3 { assert(tokens[i] == ",".spec_bytes()); }
        if i == 4 { assert(tokens[i] == "latest".spec_bytes()); }
        if i == 5 { assert(tokens[i] == "@".spec_bytes()); }
        if i == 6 { assert(tokens[i] == "hidden".spec_bytes()); }
        if i == 7 { assert(tokens[i] == "]".spec_bytes()); }
        if i == 8 { assert(tokens[i] == "exit".spec_bytes()); }
    }
}

/// Each token of `;` compiles to a cell where the words before it are
/// known.
pub proof fn lemma_semicolon_resolves(mem: Seq<u8>)
    requires
        forall|name: Seq<u8>| is_primitive_word(name) ==> #[trigger] knows(mem, name),
    ensures
        token_bytes(semicolon_tokens()).len() == 8,
        resolved_up_to(mem, token_bytes(semicolon_tokens()), 8),
{
    let tokens = token_bytes(semicolon_tokens());
    assert(knows(mem, "lit".spec_bytes()));
    assert(knows(mem, "exit".spec_bytes()));
    assert(knows(mem, ",".spec_bytes()));
    assert(knows(mem, "latest".spec_bytes()));
    assert(knows(mem, "@".spec_bytes()));
    assert(knows(mem, "hidden".spec_bytes()));
    assert(knows(mem, "[".spec_bytes()));
    assert forall|i: int| 0 <= i < 8 implies (#[trigger] resolve(mem, tokens[i])).is_some() by {
        if i == 0 { assert(tokens[i] == "lit".spec_bytes()); }
        if i == 1 { assert(tokens[i] == "exit".spec_bytes()); }
        if i == 2 { assert(tokens[i] == ",".spec_bytes()); }
        if i == 3 { assert(tokens[i] == "latest".spec_bytes()); }
        if i == 4 { assert(tokens[i] == "@".spec_bytes()); }
        if i == 5 { assert(tokens[i] == "hidden".spec_bytes()); }
        if i == 6 { assert(tokens[i] == "[".spec_bytes()); }
        if i == 7 { assert(tokens[i] == "exit".spec_bytes()); }
    }
}

/// Each token of `interpret` compiles to a cell where the words before it are
/// known.
pub proof fn lemma_interpret_resolves(mem: Seq<u8>)
    requires
        forall|name: Seq<u8>| is_primitive_word(name) ==> #[trigger] knows(mem, name),
    ensures
        token_bytes(interpret_tokens()).len() == 58,
        resolved_up_to(mem, token_bytes(interpret_tokens()), 58),
{
    let tokens = token_bytes(interpret_tokens());
    lemma_literals();
    assert(knows(mem, "word".spec_bytes()));
    assert(knows(mem, "2dup".spec_bytes()));
    assert(knows(mem, "lit".spec_bytes()));
    assert(resolve(mem, "0".spec_bytes()).is_some());
    assert(knows(mem, ">r".spec_bytes()));
    assert(knows(mem, "find".spec_bytes()));
    assert(knows(mem, "dup".spec_bytes()));
    assert(knows(mem, "0branch".spec_bytes()));
    assert(resolve(mem, "56".spec_bytes()).is_some());
    assert(knows(mem, "swap".spec_bytes()));
    assert(knows(mem, "drop".spec_bytes()));
    assert(knows(mem, "4+".spec_bytes()));
    assert(knows(mem, "c@".spec_bytes()));
    assert(knows(mem, "F_IMMED".spec_bytes()));
    assert(knows(mem, "and".spec_bytes()));
    assert(knows(mem, ">cfa".spec_bytes()));
    assert(knows(mem, "branch".spec_bytes()));
    assert(resolve(mem, "36".spec_bytes()).is_some());
    assert(knows(mem, "r>".spec_bytes()));
    assert(knows(mem, "1+".spec_bytes()));
    assert(knows(mem, "number".spec_bytes()));
    assert(knows(mem, "0=".spec_bytes()));
    assert(resolve(mem, "92".spec_bytes()).is_some());
    assert(knows(mem, "state".spec_bytes()));
    assert(knows(mem, "@".spec_bytes()));
    assert(resolve(mem, "28".spec_bytes()).is_some());
    assert(resolve(mem, "8".spec_bytes()).is_some());
    assert(knows(mem, "exit".spec_bytes()));
    assert(knows(mem, "execute".spec_bytes()));
    assert(resolve(mem, "16".spec_bytes()).is_some());
    assert(knows(mem, "'".spec_bytes()));
    assert(knows(mem, ",".spec_bytes()));
    assert(knows(mem, "rdrop".spec_bytes()));
    assert(resolve(mem, "63".spec_bytes()).is_some());
    assert(knows(mem, "emit".spec_bytes()));
    assert forall|i: int| 0 <= i < 58 implies (#[trigger] resolve(mem, tokens[i])).is_some() by {
        if i == 0 { assert(tokens[i] == "word".spec_bytes()); }
        if i == 1 { assert(tokens[i] == "2dup".spec_bytes()); }
        if i == 2 { assert(tokens[i] == "lit".spec_bytes()); }
        if i == 3 { assert(tokens[i] == "0".spec_bytes()); }
        if i == 4 { assert(tokens[i] == ">r".spec_bytes()); }
        if i == 5 { assert(tokens[i] == "find".spec_bytes()); }
        if i == 6 { assert(tokens[i] == "dup".spec_bytes()); }
        if i == 7 { assert(tokens[i] == "0branch".spec_bytes()); }
        if i == 8 { assert(tokens[i] == "56".spec_bytes()); }
        if i == 9 { assert(tokens[i] == "swap".spec_bytes()); }
        if i == 10 { assert(tokens[i] == "drop".spec_bytes()); }
        if i == 11 { assert(tokens[i] == "swap".spec_bytes()); }
        if i == 12 { assert(tokens[i] == "drop".spec_bytes()); }
        if i == 13 { assert(tokens[i] == "dup".spec_bytes()); }
        if i == 14 { assert(tokens[i] == "4+".spec_bytes()); }
        if i == 15 { assert(tokens[i] == "c@".spec_bytes()); }
        if i == 16 { assert(tokens[i] == "F_IMMED".spec_bytes()); }
        if i == 17 { assert(tokens[i] == "and".spec_bytes()); }
        if i == 18 { assert(tokens[i] == ">r".spec_bytes()); }
        if i == 19 { assert(tokens[i] == ">cfa".spec_bytes()); }
        if i == 20 { assert(tokens[i] == "branch".spec_bytes()); }
        if i == 21 { assert(tokens[i] == "36".spec_bytes()); }
        if i == 22 { assert(tokens[i] == "r>".spec_bytes()); }
        if i == 23 { assert(tokens[i] == "1+".spec_bytes()); }
        if i == 24 { assert(tokens[i] == ">r".spec_bytes()); }
        if i == 25 { assert(tokens[i] == ">r".spec_bytes()); }
        if i == 26 { assert(tokens[i] == "number".spec_bytes()); }
        if i == 27 { assert(tokens[i] == "0=".spec_bytes()); }
        if i == 28 { assert(tokens[i] == "0branch".spec_bytes()); }
        if i == 29 { assert(tokens[i] == "92".spec_bytes()); }
        if i == 30 { assert(tokens[i] == "state".spec_bytes()); }
        if i == 31 { assert(tokens[i] == "@".spec_bytes()); }
        if i == 32 { assert(tokens[i] == "r>".spec_bytes()); }
        if i == 33 { assert(tokens[i] == "0=".spec_bytes()); }
        if i == 34 { assert(tokens[i] == "and".spec_bytes()); }
        if i == 35 { assert(tokens[i] == "0=".spec_bytes()); }
        if i == 36 { assert(tokens[i] == "0branch".spec_bytes()); }
        if i == 37 { assert(tokens[i] == "28".spec_bytes()); }
        if i == 38 { assert(tokens[i] == "r>".spec_bytes()); }
        if i == 39 { assert(tokens[i] == "0branch".spec_bytes()); }
        if i == 40 { assert(tokens[i] == "8".spec_bytes()); }
        if i == 41 { assert(tokens[i] == "exit".spec_bytes()); }
        if i == 42 { assert(tokens[i] == "execute".spec_bytes()); }
        if i == 43 { assert(tokens[i] == "exit".spec_bytes()); }
        if i == 44 { assert(tokens[i] == "r>".spec_bytes()); }
        if i == 45 { assert(tokens[i] == "0branch".spec_bytes()); }
        if i == 46 { assert(tokens[i] == "16".spec_bytes()); }
        if i == 47 { assert(tokens[i] == "'".spec_bytes()); }
        if i == 48 { assert(tokens[i] == "lit".spec_bytes()); }
        if i == 49 { assert(tokens[i] == ",".spec_bytes()); }
        if i == 50 { assert(tokens[i] == ",".spec_bytes()); }
        if i == 51 { assert(tokens[i] == "exit".spec_bytes()); }
        if i == 52 { assert(tokens[i] == "rdrop".spec_bytes()); }
        if i == 53 { assert(tokens[i] == "rdrop".spec_bytes()); }
        if i == 54 { assert(tokens[i] == "lit".spec_bytes()); }
        if i == 55 { assert(tokens[i] == "63".spec_bytes()); }
        if i == 56 { assert(tokens[i] == "emit".spec_bytes()); }
        if i == 57 { assert(tokens[i] == "exit".spec_bytes()); }
    }
}

/// Each token of `quit` compiles to a cell where the words before it are
/// known.
pub proof fn lemma_quit_resolves(mem: Seq<u8>)
    requires
        forall|name: Seq<u8>| is_primitive_word(name) ==> #[trigger] knows(mem, name),
        knows(mem, "interpret".spec_bytes()),
    ensures
        token_bytes(quit_tokens()).len() == 5,
        resolved_up_to(mem, token_bytes(quit_tokens()), 5),
{
    let tokens = token_bytes(quit_tokens());
    lemma_literals();
    assert(knows(mem, "r0".spec_bytes()));
    assert(knows(mem, "rsp!".spec_bytes()));
    assert(knows(mem, "branch".spec_bytes()));
    assert(resolve(mem, "-16".spec_bytes()).is_some());
    assert forall|i: int| 0 <= i < 5 implies (#[trigger] resolve(mem, tokens[i])).is_some() by {
        if i == 0 { assert(tokens[i] == "r0".spec_bytes()); }
        if i == 1 { assert(tokens[i] == "rsp!".spec_bytes()); }
        if i == 2 { assert(tokens[i] == "interpret".spec_bytes()); }
        if i == 3 { assert(tokens[i] == "branch".spec_bytes()); }
        if i == 4 { assert(tokens[i] == "-16".spec_bytes()); }
    }
}

/// The state after the words that push the address of a register or a constant were defined, in this order.
pub open spec fn with_register_words(img: Image, ops: Opcodes) -> Image {
    let first = img;
    let img = image_with_primitive(img, "state", 0, constant_code(ops, 52));
    let img = image_with_primitive(img, "here", 0, constant_code(ops, 36));
    let img = image_with_primitive(img, "latest", 0, constant_code(ops, 40));
    let img = image_with_primitive(img, "dsp", 0, constant_code(ops, 4));
    let img = image_with_primitive(img, "rsp", 0, constant_code(ops, 12));
    let img = image_with_primitive(img, "s0", 0, constant_code(ops, cell_at(first.mem, mmap::S0 as int)));
    let img = image_with_primitive(img, "r0", 0, constant_code(ops, cell_at(first.mem, mmap::R0 as int)));
    let img = image_with_primitive(img, "base", 0, constant_code(ops, 60));
    let img = image_with_primitive(img, "DOCOL", 0, constant_code(ops, 80));
    let img = image_with_primitive(img, "F_IMMED", 0, constant_code(ops, 128));
    let img = image_with_primitive(img, "F_HIDDEN", 0, constant_code(ops, 32));
    let img = image_with_primitive(img, "F_LENMASK", 0, constant_code(ops, 31));
    let img = image_with_primitive(img, "true", 0, constant_code(ops, 1));
    let img = image_with_primitive(img, "false", 0, constant_code(ops, 0));
    let img = image_with_primitive(img, "not", 0, seq![ops.eqz, NEXT]);
    img
}

/// The state after the words that rearrange the parameter stack were defined, in this order.
pub open spec fn with_stack_words(img: Image, ops: Opcodes) -> Image {
    let first = img;
    let img = image_with_primitive(img, "drop", 0, seq![ops.drop, NEXT]);
    let img = image_with_primitive(img, "2drop", 0, seq![ops.drop, ops.drop, NEXT]);
    let img = image_with_primitive(img, "swap", 0, seq![ops.swap, NEXT]);
    let img = image_with_primitive(img, "dup", 0, seq![ops.dup, NEXT]);
    let img = image_with_primitive(img, "2dup", 0, seq![OVER, OVER, NEXT]);
    let img = image_with_primitive(img, "?dup", 0, seq![ops.dup, ops.jzi, 5, 0, 0, 0, ops.dup, NEXT]);
    let img = image_with_primitive(img, "nip", 0, seq![ops.swap, ops.drop, NEXT]);
    let img = image_with_primitive(img, "over", 0, seq![OVER, NEXT]);
    let img = image_with_primitive(img, "rot", 0, seq![ROT, NEXT]);
    let img = image_with_primitive(img, "-rot", 0, seq![ROT, ROT, NEXT]);
    let img = image_with_primitive(img, "tuck", 0, seq![ops.swap, OVER, NEXT]);
    img
}

/// The state after the words of arithmetic were defined, in this order.
pub open spec fn with_arithmetic_words(img: Image, ops: Opcodes) -> Image {
    let first = img;
    let img = image_with_primitive(img, "+", 0, seq![ops.add, NEXT]);
    let img = image_with_primitive(img, "1+", 0, seq![ops.inc, NEXT]);
    let img = image_with_primitive(img, "1-", 0, seq![ops.dec, NEXT]);
    let img = image_with_primitive(img, "4+", 0, seq![ops.i32_const, 4, 0, 0, 0, ops.add, NEXT]);
    let img = image_with_primitive(img, "4-", 0, seq![ops.i32_const, 4, 0, 0, 0, ops.sub, NEXT]);
    let img = image_with_primitive(img, "-", 0, seq![ops.sub, NEXT]);
    let img = image_with_primitive(img, "*", 0, seq![ops.mul, NEXT]);
    let img = image_with_primitive(img, "/", 0, seq![ops.div_s, NEXT]);
    let img = image_with_primitive(img, "mod", 0, seq![ops.mod_s, NEXT]);
    let img = image_with_primitive(img, "/mod", 0, seq![DIV_MOD, NEXT]);
    img
}

/// The state after the words that compare were defined, in this order.
pub open spec fn with_comparison_words(img: Image, ops: Opcodes) -> Image {
    let first = img;
    let img = image_with_primitive(img, "=", 0, seq![ops.eq, NEXT]);
    let img = image_with_primitive(img, "0=", 0, seq![ops.eqz, NEXT]);
    let img = image_with_primitive(img, "0<", 0, seq![ops.zero, ops.lt_s, NEXT]);
    let img = image_with_primitive(img, "0>", 0, seq![ops.zero, ops.gt_s, NEXT]);
    let img = image_with_primitive(img, "<>", 0, seq![ops.eq, ops.eqz, NEXT]);
    let img = image_with_primitive(img, "<", 0, seq![ops.lt_s, NEXT]);
    let img = image_with_primitive(img, ">", 0, seq![ops.gt_s, NEXT]);
    let img = image_with_primitive(img, "u<", 0, seq![ops.lt_u, NEXT]);
    let img = image_with_primitive(img, "u>", 0, seq![ops.gt_u, NEXT]);
    let img = image_with_primitive(img, "<=", 0, seq![ops.le_s, NEXT]);
    let img = image_with_primitive(img, ">=", 0, seq![ops.ge_s, NEXT]);
    let img = image_with_primitive(img, "min", 0, seq![ops.min, NEXT]);
    let img = image_with_primitive(img, "max", 0, seq![ops.max, NEXT]);
    img
}

/// The state after the words of bitwise logic and of memory access were defined, in this order.
pub open spec fn with_memory_words(img: Image, ops: Opcodes) -> Image {
    let first = img;
    let img = image_with_primitive(img, "and", 0, seq![ops.and, NEXT]);
    let img = image_with_primitive(img, "or", 0, seq![ops.or, NEXT]);
    let img = image_with_primitive(img, "xor", 0, seq![ops.xor, NEXT]);
    let img = image_with_primitive(img, "invert", 0, seq![ops.not, NEXT]);
    let img = image_with_primitive(img, "!", 0, seq![ops.i32_store, NEXT]);
    let img = image_with_primitive(img, "+!", 0, seq![ops.dup, ops.i32_load, ROT, ops.add, ops.swap, ops.i32_store, NEXT]);
    let img = image_with_primitive(img, "@", 0, seq![ops.i32_load, NEXT]);
    let img = image_with_primitive(img, "c!", 0, seq![ops.i32_store_8, NEXT]);
    let img = image_with_primitive(img, "c@", 0, seq![ops.i32_load_8, NEXT]);
    let img = image_with_primitive(img, "negate", 0, seq![ops.zero, ops.swap, ops.sub, NEXT]);
    img
}

/// The state after the words of threaded execution were defined, in this order.
pub open spec fn with_control_words(img: Image, ops: Opcodes) -> Image {
    let first = img;
    let img = image_with_primitive(img, "bye", 0, seq![ops.end]);
    let img = image_with_primitive(img, "execute", 0, execute_code(ops));
    let img = image_with_primitive(img, "lit", 0, lit_code(ops));
    let img = image_with_primitive(img, "litstring", 0, litstring_code(ops));
    let img = image_with_primitive(img, "exit", 0, exit_code(ops));
    img
}

/// The state after the words of the return stack and of the stack pointers were defined, in this order.
pub open spec fn with_return_stack_words(img: Image, ops: Opcodes) -> Image {
    let first = img;
    let img = image_with_primitive(img, ">r", 0, seq![ops.i32_const, 12, 0, 0, 0, ops.i32_load, ops.i32_store, ops.i32_const, 12, 0, 0, 0, ops.dup, ops.i32_load, ops.i32_const, 4, 0, 0, 0, ops.sub, ops.swap, ops.i32_store, NEXT]);
    let img = image_with_primitive(img, "r>", 0, seq![ops.i32_const, 12, 0, 0, 0, ops.i32_load, ops.i32_const, 4, 0, 0, 0, ops.add, ops.dup, ops.i32_load, ops.swap, ops.i32_const, 12, 0, 0, 0, ops.i32_store, NEXT]);
    let img = image_with_primitive(img, "rdrop", 0, seq![ops.i32_const, 12, 0, 0, 0, ops.dup, ops.i32_load, ops.i32_const, 4, 0, 0, 0, ops.add, ops.swap, ops.i32_store, NEXT]);
    let img = image_with_primitive(img, "rsp!", 0, seq![ops.i32_const, 12, 0, 0, 0, ops.i32_store, NEXT]);
    let img = image_with_primitive(img, "rsp@", 0, seq![ops.i32_const, 12, 0, 0, 0, ops.i32_load, NEXT]);
    let img = image_with_primitive(img, "dsp!", 0, seq![ops.i32_const, 4, 0, 0, 0, ops.i32_store, NEXT]);
    let img = image_with_primitive(img, "dsp@", 0, seq![ops.i32_const, 4, 0, 0, 0, ops.i32_load, NEXT]);
    img
}

/// The state after the branches and the words that change flags and the compiler state were defined, in this order.
pub open spec fn with_compiler_words(img: Image, ops: Opcodes) -> Image {
    let first = img;
    let before = img;
    let img = image_with_primitive(img, "branch", 0, branch_code(ops));
    let target = code_field(img.mem, here_of(before.mem)) + 4;
    let img = image_with_primitive(img, "0branch", 0, zero_branch_code(ops, target));
    let img = image_with_primitive(img, "immediate", IMMEDIATE, seq![ops.i32_const, 40, 0, 0, 0, ops.i32_load, ops.i32_const, 4, 0, 0, 0, ops.add, ops.dup, ops.i32_load_8, ops.i32_const, 128, 0, 0, 0, ops.xor, ops.swap, ops.i32_store_8, NEXT]);
    let img = image_with_primitive(img, "'", 0, lit_code(ops));
    let img = image_with_primitive(img, ">cfa", 0, seq![ops.i32_const, 4, 0, 0, 0, ops.add, ops.dup, ops.i32_load_8, ops.i32_const, 31, 0, 0, 0, ops.and, ops.i32_const, 13, 0, 0, 0, ops.min, ops.add, ops.i32_const, 4, 0, 0, 0, ops.add, ops.i32_const, 252, 255, 255, 255, ops.and, NEXT]);
    let img = image_with_primitive(img, "[", IMMEDIATE, seq![ops.i32_const, 0, 0, 0, 0, ops.i32_const, 52, 0, 0, 0, ops.i32_store, NEXT]);
    let img = image_with_primitive(img, "]", 0, seq![ops.i32_const, 1, 0, 0, 0, ops.i32_const, 52, 0, 0, 0, ops.i32_store, NEXT]);
    let img = image_with_primitive(img, "hidden", 0, seq![ops.i32_const, 4, 0, 0, 0, ops.add, ops.dup, ops.i32_load_8, ops.i32_const, 32, 0, 0, 0, ops.xor, ops.swap, ops.i32_store_8, NEXT]);
    img
}

/// The state after the words that call into the host were defined, in this order.
pub open spec fn with_host_words(img: Image, ops: Opcodes, natives: NativeWords) -> Image {
    let first = img;
    let img = image_with_primitive(img, "key", 0, call_code(ops, natives.key as int));
    let img = image_with_primitive(img, "word", 0, call_code(ops, natives.word as int));
    let img = image_with_primitive(img, ".", 0, call_code(ops, natives.dot as int));
    let img = image_with_primitive(img, "emit", 0, call_code(ops, natives.emit as int));
    let img = image_with_primitive(img, "tell", 0, call_code(ops, natives.tell as int));
    let img = image_with_primitive(img, "find", 0, call_code(ops, natives.find as int));
    let img = image_with_primitive(img, "number", 0, call_code(ops, natives.number as int));
    let img = image_with_primitive(img, ",", 0, call_code(ops, natives.comma as int));
    let img = image_with_primitive(img, "create", 0, call_code(ops, natives.create as int));
    let img = image_with_primitive(img, "char", 0, call_code(ops, natives.read_char as int));
    img
}

/// The state after the composite words: the compiler words and the outer interpreter were defined, in this order.
pub open spec fn with_composite_words(img: Image) -> Image {
    let first = img;
    let img = image_with_composite(img, ">dfa", 0, to_dfa_tokens());
    let img = image_with_composite(img, "hide", 0, hide_tokens());
    let img = image_with_composite(img, ":", 0, colon_tokens());
    let img = image_with_composite(img, ";", IMMEDIATE, semicolon_tokens());
    let img = image_with_composite(img, "interpret", 0, interpret_tokens());
    let img = image_with_composite(img, "quit", 0, quit_tokens());
    img
}

/// The state after the initial vocabulary was defined: its groups, in this
/// order.
pub open spec fn vocabulary_image(img: Image, ops: Opcodes, natives: NativeWords) -> Image {
    let img = with_register_words(img, ops);
    let img = with_stack_words(img, ops);
    let img = with_arithmetic_words(img, ops);
    let img = with_comparison_words(img, ops);
    let img = with_memory_words(img, ops);
    let img = with_control_words(img, ops);
    let img = with_return_stack_words(img, ops);
    let img = with_compiler_words(img, ops);
    let img = with_host_words(img, ops, natives);
    let img = with_composite_words(img);
    img
}

/// The length/flags bytes of the compiler words.
pub proof fn lemma_flag_bytes()
    ensures
        header_byte("[".spec_bytes().len() as int, IMMEDIATE) == 0x81,
        header_byte("]".spec_bytes().len() as int, 0) == 0x01,
        header_byte(">dfa".spec_bytes().len() as int, 0) == 0x04,
        header_byte("hide".spec_bytes().len() as int, 0) == 0x04,
        header_byte(":".spec_bytes().len() as int, 0) == 0x01,
        header_byte(";".spec_bytes().len() as int, IMMEDIATE) == 0x81,
        header_byte("interpret".spec_bytes().len() as int, 0) == 0x09,
        header_byte("quit".spec_bytes().len() as int, 0) == 0x04,
{
    reveal_strlit("[");
    is_ascii_spec_bytes("[");
    assert(is_ascii("["));
    reveal_strlit("]");
    is_ascii_spec_bytes("]");
    assert(is_ascii("]"));
    reveal_strlit(">dfa");
    is_ascii_spec_bytes(">dfa");
    assert(is_ascii(">dfa"));
    reveal_strlit("hide");
    is_ascii_spec_bytes("hide");
    assert(is_ascii("hide"));
    reveal_strlit(":");
    is_ascii_spec_bytes(":");
    assert(is_ascii(":"));
    reveal_strlit(";");
    is_ascii_spec_bytes(";");
    assert(is_ascii(";"));
    reveal_strlit("interpret");
    is_ascii_spec_bytes("interpret");
    assert(is_ascii("interpret"));
    reveal_strlit("quit");
    is_ascii_spec_bytes("quit");
    assert(is_ascii("quit"));
    assert((1u8 | 0x80) == 0x81 && (1u8 | 0) == 1 && (4u8 | 0) == 4 && (9u8 | 0) == 9) by (bit_vector);
}

/// No word that is defined after `[` has its name.
pub proof fn lemma_left_bracket_apart()
    ensures
        !same_word("[".spec_bytes(), "]".spec_bytes()),
        !same_word("[".spec_bytes(), "hidden".spec_bytes()),
        !same_word("[".spec_bytes(), "key".spec_bytes()),
        !same_word("[".spec_bytes(), "word".spec_bytes()),
        !same_word("[".spec_bytes(), ".".spec_bytes()),
        !same_word("[".spec_bytes(), "emit".spec_bytes()),
        !same_word("[".spec_bytes(), "tell".spec_bytes()),
        !same_word("[".spec_bytes(), "find".spec_bytes()),
        !same_word("[".spec_bytes(), "number".spec_bytes()),
        !same_word("[".spec_bytes(), ",".spec_bytes()),
        !same_word("[".spec_bytes(), "create".spec_bytes()),
        !same_word("[".spec_bytes(), "char".spec_bytes()),
        !same_word("[".spec_bytes(), ">dfa".spec_bytes()),
        !same_word("[".spec_bytes(), "hide".spec_bytes()),
        !same_word("[".spec_bytes(), ":".spec_bytes()),
        !same_word("[".spec_bytes(), ";".spec_bytes()),
        !same_word("[".spec_bytes(), "interpret".spec_bytes()),
        !same_word("[".spec_bytes(), "quit".spec_bytes()),
{
    reveal_strlit("[");
    is_ascii_spec_bytes("[");
    assert(is_ascii("["));
    reveal_strlit("]");
    is_ascii_spec_bytes("]");
    assert(is_ascii("]"));
    reveal_strlit("hidden");
    is_ascii_spec_bytes("hidden");
    assert(is_ascii("hidden"));
    reveal_strlit("key");
    is_ascii_spec_bytes("key");
    assert(is_ascii("key"));
    reveal_strlit("word");
    is_ascii_spec_bytes("word");
    assert(is_ascii("word"));
    reveal_strlit(".");
    is_ascii_spec_bytes(".");
    assert(is_ascii("."));
    reveal_strlit("emit");
    is_ascii_spec_bytes("emit");
    assert(is_ascii("emit"));
    reveal_strlit("tell");
    is_ascii_spec_bytes("tell");
    assert(is_ascii("tell"));
    reveal_strlit("find");
    is_ascii_spec_bytes("find");
    assert(is_ascii("find"));
    reveal_strlit("number");
    is_ascii_spec_bytes("number");
    assert(is_ascii("number"));
    reveal_strlit(",");
    is_ascii_spec_bytes(",");
    assert(is_ascii(","));
    reveal_strlit("create");
    is_ascii_spec_bytes("create");
    assert(is_ascii("create"));
    reveal_strlit("char");
    is_ascii_spec_bytes("char");
    assert(is_ascii("char"));
    reveal_strlit(">dfa");
    is_ascii_spec_bytes(">dfa");
    assert(is_ascii(">dfa"));
    reveal_strlit("hide");
    is_ascii_spec_bytes("hide");
    assert(is_ascii("hide"));
    reveal_strlit(":");
    is_ascii_spec_bytes(":");
    assert(is_ascii(":"));
    reveal_strlit(";");
    is_ascii_spec_bytes(";");
    assert(is_ascii(";"));
    reveal_strlit("interpret");
    is_ascii_spec_bytes("interpret");
    assert(is_ascii("interpret"));
    reveal_strlit("quit");
    is_ascii_spec_bytes("quit");
    assert(is_ascii("quit"));
    assert(key_of("[".spec_bytes())[0] != key_of("]".spec_bytes())[0]);
    assert(key_of("[".spec_bytes())[0] != key_of(".".spec_bytes())[0]);
    assert(key_of("[".spec_bytes())[0] != key_of(",".spec_bytes())[0]);
    assert(key_of("[".spec_bytes())[0] != key_of(":".spec_bytes())[0]);
    assert(key_of("[".spec_bytes())[0] != key_of(";".spec_bytes())[0]);
}

/// No word that is defined after `]` has its name.
pub proof fn lemma_right_bracket_apart()
    ensures
        !same_word("]".spec_bytes(), "hidden".spec_bytes()),
        !same_word("]".spec_bytes(), "key".spec_bytes()),
        !same_word("]".spec_bytes(), "word".spec_bytes()),
        !same_word("]".spec_bytes(), ".".spec_bytes()),
        !same_word("]".spec_bytes(), "emit".spec_bytes()),
        !same_word("]".spec_bytes(), "tell".spec_bytes()),
        !same_word("]".spec_bytes(), "find".spec_bytes()),
        !same_word("]".spec_bytes(), "number".spec_bytes()),
        !same_word("]".spec_bytes(), ",".spec_bytes()),
        !same_word("]".spec_bytes(), "create".spec_bytes()),
        !same_word("]".spec_bytes(), "char".spec_bytes()),
        !same_word("]".spec_bytes(), ">dfa".spec_bytes()),
        !same_word("]".spec_bytes(), "hide".spec_bytes()),
        !same_word("]".spec_bytes(), ":".spec_bytes()),
        !same_word("]".spec_bytes(), ";".spec_bytes()),
        !same_word("]".spec_bytes(), "interpret".spec_bytes()),
        !same_word("]".spec_bytes(), "quit".spec_bytes()),
{
    reveal_strlit("]");
    is_ascii_spec_bytes("]");
    assert(is_ascii("]"));
    reveal_strlit("hidden");
    is_ascii_spec_bytes("hidden");
    assert(is_ascii("hidden"));
    reveal_strlit("key");
    is_ascii_spec_bytes("key");
    assert(is_ascii("key"));
    reveal_strlit("word");
    is_ascii_spec_bytes("word");
    assert(is_ascii("word"));
    reveal_strlit(".");
    is_ascii_spec_bytes(".");
    assert(is_ascii("."));
    reveal_strlit("emit");
    is_ascii_spec_bytes("emit");
    assert(is_ascii("emit"));
    reveal_strlit("tell");
    is_ascii_spec_bytes("tell");
    assert(is_ascii("tell"));
    reveal_strlit("find");
    is_ascii_spec_bytes("find");
    assert(is_ascii("find"));
    reveal_strlit("number");
    is_ascii_spec_bytes("number");
    assert(is_ascii("number"));
    reveal_strlit(",");
    is_ascii_spec_bytes(",");
    assert(is_ascii(","));
    reveal_strlit("create");
    is_ascii_spec_bytes("create");
    assert(is_ascii("create"));
    reveal_strlit("char");
    is_ascii_spec_bytes("char");
    assert(is_ascii("char"));
    reveal_strlit(">dfa");
    is_ascii_spec_bytes(">dfa");
    assert(is_ascii(">dfa"));
    reveal_strlit("hide");
    is_ascii_spec_bytes("hide");
    assert(is_ascii("hide"));
    reveal_strlit(":");
    is_ascii_spec_bytes(":");
    assert(is_ascii(":"));
    reveal_strlit(";");
    is_ascii_spec_bytes(";");
    assert(is_ascii(";"));
    reveal_strlit("interpret");
    is_ascii_spec_bytes("interpret");
    assert(is_ascii("interpret"));
    reveal_strlit("quit");
    is_ascii_spec_bytes("quit");
    assert(is_ascii("quit"));
    assert(key_of("]".spec_bytes())[0] != key_of(".".spec_bytes())[0]);
    assert(key_of("]".spec_bytes())[0] != key_of(",".spec_bytes())[0]);
    assert(key_of("]".spec_bytes())[0] != key_of(":".spec_bytes())[0]);
    assert(key_of("]".spec_bytes())[0] != key_of(";".spec_bytes())[0]);
}

/// No word that is defined after `>dfa` has its name.
pub proof fn lemma_to_dfa_apart()
    ensures
        !same_word(">dfa".spec_bytes(), "hide".spec_bytes()),
        !same_word(">dfa".spec_bytes(), ":".spec_bytes()),
        !same_word(">dfa".spec_bytes(), ";".spec_bytes()),
        !same_word(">dfa".spec_bytes(), "interpret".spec_bytes()),
        !same_word(">dfa".spec_bytes(), "quit".spec_bytes()),
{
    reveal_strlit(">dfa");
    is_ascii_spec_bytes(">dfa");
    assert(is_ascii(">dfa"));
    reveal_strlit("hide");
    is_ascii_spec_bytes("hide");
    assert(is_ascii("hide"));
    reveal_strlit(":");
    is_ascii_spec_bytes(":");
    assert(is_ascii(":"));
    reveal_strlit(";");
    is_ascii_spec_bytes(";");
    assert(is_ascii(";"));
    reveal_strlit("interpret");
    is_ascii_spec_bytes("interpret");
    assert(is_ascii("interpret"));
    reveal_strlit("quit");
    is_ascii_spec_bytes("quit");
    assert(is_ascii("quit"));
    assert(key_of(">dfa".spec_bytes())[0] != key_of("hide".spec_bytes())[0]);
    assert(key_of(">dfa".spec_bytes())[0] != key_of("quit".spec_bytes())[0]);
}

/// No word that is defined after `hide` has its name.
pub proof fn lemma_hide_apart()
    ensures
        !same_word("hide".spec_bytes(), ":".spec_bytes()),
        !same_word("hide".spec_bytes(), ";".spec_bytes()),
        !same_word("hide".spec_bytes(), "interpret".spec_bytes()),
        !same_word("hide".spec_bytes(), "quit".spec_bytes()),
{
    reveal_strlit("hide");
    is_ascii_spec_bytes("hide");
    assert(is_ascii("hide"));
    reveal_strlit(":");
    is_ascii_spec_bytes(":");
    assert(is_ascii(":"));
    reveal_strlit(";");
    is_ascii_spec_bytes(";");
    assert(is_ascii(";"));
    reveal_strlit("interpret");
    is_ascii_spec_bytes("interpret");
    assert(is_ascii("interpret"));
    reveal_strlit("quit");
    is_ascii_spec_bytes("quit");
    assert(is_ascii("quit"));
    assert(key_of("hide".spec_bytes())[0] != key_of("quit".spec_bytes())[0]);
}

/// No word that is defined after `:` has its name.
pub proof fn lemma_colon_apart()
    ensures
        !same_word(":".spec_bytes(), ";".spec_bytes()),
        !same_word(":".spec_bytes(), "interpret".spec_bytes()),
        !same_word(":".spec_bytes(), "quit".spec_bytes()),
{
    reveal_strlit(":");
    is_ascii_spec_bytes(":");
    assert(is_ascii(":"));
    reveal_strlit(";");
    is_ascii_spec_bytes(";");
    assert(is_ascii(";"));
    reveal_strlit("interpret");
    is_ascii_spec_bytes("interpret");
    assert(is_ascii("interpret"));
    reveal_strlit("quit");
    is_ascii_spec_bytes("quit");
    assert(is_ascii("quit"));
    assert(key_of(":".spec_bytes())[0] != key_of(";".spec_bytes())[0]);
}

/// No word that is defined after `;` has its name.
pub proof fn lemma_semicolon_apart()
    ensures
        !same_word(";".spec_bytes(), "interpret".spec_bytes()),
        !same_word(";".spec_bytes(), "quit".spec_bytes()),
{
    reveal_strlit(";");
    is_ascii_spec_bytes(";");
    assert(is_ascii(";"));
    reveal_strlit("interpret");
    is_ascii_spec_bytes("interpret");
    assert(is_ascii("interpret"));
    reveal_strlit("quit");
    is_ascii_spec_bytes("quit");
    assert(is_ascii("quit"));
}

/// No word that is defined after `interpret` has its name.
pub proof fn lemma_interpret_apart()
    ensures
        !same_word("interpret".spec_bytes(), "quit".spec_bytes()),
{
    reveal_strlit("interpret");
    is_ascii_spec_bytes("interpret");
    assert(is_ascii("interpret"));
    reveal_strlit("quit");
    is_ascii_spec_bytes("quit");
    assert(is_ascii("quit"));
}

/// Whether the dictionary in `mem` has `room` free bytes: the free-space
/// pointer lies in the dictionary region, and `room` bytes behind it lie in
/// the arena.
pub open spec fn fits(mem: Seq<u8>, room: int) -> bool {
    mmap::DICT <= here_of(mem) && here_of(mem) + room <= mem.len()
}

/// A dictionary extends itself by nothing.
pub proof fn lemma_extended_refl(mem: Seq<u8>)
    requires
        dict_ok(mem),
    ensures
        extended(mem, mem, 0),
{
    reveal(extended);
}

/// What extends an extension of a dictionary extends the dictionary, by no
/// more than both together; and by any larger number of bytes too.
pub proof fn lemma_extended_trans(a: Seq<u8>, b: Seq<u8>, c: Seq<u8>, k1: int, k2: int, k: int)
    requires
        extended(a, b, k1),
        extended(b, c, k2),
        k1 + k2 <= k,
    ensures
        extended(a, c, k),
        forall|other: Seq<u8>| knows(b, other) ==> #[trigger] knows(c, other),
{
    reveal(extended);
    assert forall|other: Seq<u8>| knows(a, other) implies #[trigger] knows(c, other) by {
        assert(knows(b, other));
    }
}

/// What extends a dictionary by some bytes extends it by any larger number
/// of bytes.
pub proof fn lemma_extended_more(a: Seq<u8>, b: Seq<u8>, k1: int, k: int)
    requires
        extended(a, b, k1),
        k1 <= k,
    ensures
        extended(a, b, k),
{
    reveal(extended);
}

/// Where an extension of a dictionary lacks room, the dictionary lacked the
/// room for both.
pub proof fn lemma_unfit(a: Seq<u8>, b: Seq<u8>, k1: int, k2: int, k: int)
    requires
        extended(a, b, k1),
        !fits(b, k2),
        k1 + k2 <= k,
    ensures
        !fits(a, k),
{
    reveal(extended);
}

/// A text of one decimal digit is the literal of that digit.
pub proof fn lemma_digits1(s: Seq<u8>)
    requires
        s.len() == 1,
        48 <= s[0] <= 57,
    ensures
        literal_of(s) == Some(s[0] - 48),
{
    assert(s.drop_last().len() == 0);
    assert(radix_value(s.drop_last(), 10) == 0);
}

/// A text of two decimal digits is the literal that they spell.
pub proof fn lemma_digits2(s: Seq<u8>)
    requires
        s.len() == 2,
        48 <= s[0] <= 57,
        48 <= s[1] <= 57,
    ensures
        literal_of(s) == Some(10 * (s[0] - 48) + (s[1] - 48)),
{
    let t = s.drop_last();
    assert(t.len() == 1 && t[0] == s[0]);
    assert(t.drop_last().len() == 0);
    assert(radix_value(t.drop_last(), 10) == 0);
    assert(radix_value(t, 10) == s[0] - 48);
}

/// A minus sign before two decimal digits is the literal of the negative
/// number.
pub proof fn lemma_minus_digits2(s: Seq<u8>)
    requires
        s.len() == 3,
        s[0] == 45,
        48 <= s[1] <= 57,
        48 <= s[2] <= 57,
    ensures
        literal_of(s) == Some(-(10 * (s[1] - 48) + (s[2] - 48))),
{
    let b = s.skip(1);
    assert(b.len() == 2 && b[0] == s[1] && b[1] == s[2]);
    let t = b.drop_last();
    assert(t.len() == 1 && t[0] == b[0]);
    assert(t.drop_last().len() == 0);
    assert(radix_value(t.drop_last(), 10) == 0);
    assert(radix_value(t, 10) == b[0] - 48);
    assert(radix_value(b, 10) == 10 * (b[0] - 48) + (b[1] - 48));
}

/// Whether the `n` newest entries of the dictionary in `post` are new, and
/// behind them lie the entries of the dictionary in `pre`, all of them and
/// in their order.
#[verifier::opaque]
pub open spec fn newest(pre: Seq<u8>, post: Seq<u8>, n: int) -> bool {
    &&& 0 <= n
    &&& entries(post).len() == entries(pre).len() + n
    &&& entries(post).skip(n) == entries(pre)
}

/// No entry of a dictionary is new to it.
pub proof fn lemma_newest_none(mem: Seq<u8>)
    ensures
        newest(mem, mem, 0),
{
    reveal(newest);
    assert(entries(mem).skip(0) =~= entries(mem));
}

/// An entry that was added is the one newest entry.
pub proof fn lemma_newest_one(pre: Seq<u8>, post: Seq<u8>, w: int, name: Seq<u8>, flags: u8)
    requires
        dict_ok(pre),
        added(pre, post, w, name, flags),
        well_named(name.len() as int, flags),
        here_of(post) <= post.len(),
    ensures
        newest(pre, post, 1),
{
    reveal(newest);
    reveal(added);
    assert(entries(post).skip(1) =~= entries(pre));
}

/// The newest entries of a dictionary and those that were the newest before
/// them are its newest entries together.
pub proof fn lemma_newest_trans(a: Seq<u8>, b: Seq<u8>, c: Seq<u8>, n1: int, n2: int)
    requires
        newest(a, b, n1),
        newest(b, c, n2),
    ensures
        newest(a, c, n1 + n2),
{
    reveal(newest);
    assert(entries(c).skip(n1 + n2) =~= entries(c).skip(n2).skip(n1));
}

/// The shaped newest entries of a dictionary and those that were the newest
/// before them are its shaped newest entries together.
pub proof fn lemma_shaped_more(a: Seq<u8>, b: Seq<u8>, c: Seq<u8>, n1: int, n2: int, room: int)
    requires
        shaped(a, b, n1),
        shaped(b, c, n2),
        newest(b, c, n2),
        extended(b, c, room),
    ensures
        shaped(a, c, n1 + n2),
{
    reveal(newest);
    lemma_shaped_trans(a, b, c, n1, n2, room);
}

/// Whether the dictionary in `mem` knows every name of `names`.
#[verifier::opaque]
pub open spec fn known_all(mem: Seq<u8>, names: Set<Seq<u8>>) -> bool {
    forall|name: Seq<u8>| names.contains(name) ==> #[trigger] knows(mem, name)
}

/// A dictionary that knows every name of a set knows each of them.
pub proof fn lemma_known(mem: Seq<u8>, names: Set<Seq<u8>>, name: Seq<u8>)
    requires
        known_all(mem, names),
        names.contains(name),
    ensures
        knows(mem, name),
{
    reveal(known_all);
}

/// An extension of a dictionary that knows the words of the first `k`
/// groups of the vocabulary knows them too.
pub proof fn lemma_carry(pre: Seq<u8>, post: Seq<u8>, room: int, k: int)
    requires
        extended(pre, post, room),
        forall|name: Seq<u8>| in_groups(k, name) ==> #[trigger] knows(pre, name),
    ensures
        forall|name: Seq<u8>| in_groups(k, name) ==> #[trigger] knows(post, name),
{
    reveal(extended);
}

/// How far the vocabulary has come: the arena `origin` that it is added to,
/// the number `count` of the words defined so far, the most bytes `room`
/// that they take, their names `known`, and the most bytes `limit` that the
/// words to define may take.
pub struct Progress {
    pub origin: Seq<u8>,
    pub count: int,
    pub room: int,
    pub known: Set<Seq<u8>>,
    pub limit: int,
}

impl Progress {
    /// Nothing is defined yet.
    pub open spec fn start(origin: Seq<u8>, limit: int) -> Progress {
        Progress { origin, count: 0, room: 0, known: Set::empty(), limit }
    }

    /// One more word is defined, with a body of `body` bytes.
    pub open spec fn with(self, name: Seq<u8>, body: int) -> Progress {
        Progress {
            count: self.count + 1,
            room: self.room + ENTRY_OVERHEAD + body,
            known: self.known.insert(name),
            ..self
        }
    }

    /// Whether the arena `mem` is where the vocabulary has come to.
    pub open spec fn reached(self, mem: Seq<u8>) -> bool {
        &&& extended(self.origin, mem, self.room)
        &&& newest(self.origin, mem, self.count)
        &&& shaped(self.origin, mem, self.count)
        &&& known_all(mem, self.known)
        &&& self.room <= self.limit
    }

    /// Whether the arena `mem` is where the vocabulary ran out of room.
    pub open spec fn stuck(self, mem: Seq<u8>) -> bool {
        extended(self.origin, mem, self.limit) && !fits(self.origin, self.limit)
    }
}

/// Where nothing is defined yet, the vocabulary has come to its origin.
pub proof fn lemma_start(origin: Seq<u8>, limit: int)
    requires
        dict_ok(origin),
        0 <= limit,
    ensures
        Progress::start(origin, limit).reached(origin),
{
    reveal(extended);
    reveal(known_all);
    lemma_newest_none(origin);
    lemma_shaped_none(origin);
}

/// A composite word of the vocabulary whose tokens compile to cells takes
/// the vocabulary one word further, or finds it out of room.
pub proof fn lemma_composite_step(
    p: Progress,
    pre: Seq<u8>,
    post: Seq<u8>,
    name: Seq<u8>,
    flags: u8,
    tokens: Seq<Seq<u8>>,
    r: Result<i32, DefineError>,
)
    requires
        dict_ok(pre),
        p.reached(pre),
        p.room + ENTRY_OVERHEAD + 4 * tokens.len() <= p.limit,
        name.len() <= 31,
        flags == 0 || flags == IMMEDIATE,
        resolved_up_to(pre, tokens, tokens.len() as int),
        guarded_composite(pre, post, name, flags, tokens, r),
    ensures
        dict_ok(post),
        match r {
            Ok(w) => {
                &&& p.with(name, 4 * tokens.len() as int).reached(post)
                &&& added(pre, post, here_of(pre), name, flags)
                &&& well_named(name.len() as int, flags)
                &&& word_holds(post, name, header_byte(name.len() as int, flags), true)
            },
            Err(e) => e == DefineError::OutOfMemory && p.stuck(post),
        },
{
    assert(0u8 & 0x1f == 0 && 0x80u8 & 0x1f == 0 && 0u8 & 0x20 == 0 && 0x80u8 & 0x20 == 0)
        by (bit_vector);
    if let Ok(w) = r {
        assert(word_holds(post, name, header_byte(name.len() as int, flags), true)) by {
            reveal(guarded_composite);
            lemma_word_composite(pre, post, name, flags, body_cells(pre, tokens));
        }
        assert(shaped(p.origin, post, p.count + 1)) by {
            reveal(guarded_composite);
            lemma_shaped_composite(
                p.origin,
                pre,
                post,
                w as int,
                name,
                flags,
                body_cells(pre, tokens),
                p.count,
            );
        }
    }
    reveal(extended);
    reveal(known_all);
    reveal(guarded_composite);
    match r {
        Ok(w) => {
            lemma_extended_trans(
                p.origin,
                pre,
                post,
                p.room,
                ENTRY_OVERHEAD + 4 * tokens.len(),
                p.room + ENTRY_OVERHEAD + 4 * tokens.len(),
            );
            lemma_newest_one(pre, post, w as int, name, flags);
            lemma_newest_trans(p.origin, pre, post, p.count, 1);
        },
        Err(e) => {
            if let DefineError::UnknownToken(i) = e {
                assert(resolve(pre, tokens[i as int]).is_some());
            }
        },
    }
}

impl ForthVM {
    /// Defines one primitive of the vocabulary, where there is room for it.
    fn add_primitive(
        &mut self,
        name: &str,
        flags: u8,
        code: Vec<u8>,
        Ghost(p): Ghost<Progress>,
    ) -> (r: Result<i32, DefineError>)
        requires
            old(self).dict_ok(),
            p.reached(old(self).mem()),
            p.room + ENTRY_OVERHEAD + code@.len() <= p.limit,
            name.spec_bytes().len() <= 31,
            flags == 0 || flags == IMMEDIATE,
        ensures
            final(self).dict_ok(),
            match r {
                Ok(w) => {
                    &&& p.with(name.spec_bytes(), code@.len() as int).reached(final(self).mem())
                    &&& final(self).image() == image_with_primitive(
                        old(self).image(),
                        name,
                        flags,
                        code@,
                    )
                    &&& w == here_of(old(self).mem())
                    &&& mmap::DICT <= w
                    &&& w + 5 <= final(self).mem().len()
                    &&& added(
                        old(self).mem(),
                        final(self).mem(),
                        here_of(old(self).mem()),
                        name.spec_bytes(),
                        flags,
                    )
                    &&& well_named(name.spec_bytes().len() as int, flags)
                    &&& word_holds(
                        final(self).mem(),
                        name.spec_bytes(),
                        header_byte(name.spec_bytes().len() as int, flags),
                        false,
                    )
                },
                Err(e) => e == DefineError::OutOfMemory && p.stuck(final(self).mem()),
            },
    {
        proof {
            assert(0u8 & 0x1f == 0 && 0x80u8 & 0x1f == 0 && 0u8 & 0x20 == 0 && 0x80u8 & 0x20 == 0)
                by (bit_vector);
        }
        let ghost pre = self.mem();
        match self.define_primitive(name, flags, code.as_slice()) {
            Ok(w) => {
                proof {
                    lemma_shaped_primitive(
                        p.origin,
                        pre,
                        self.mem(),
                        w as int,
                        name.spec_bytes(),
                        flags,
                        code@,
                        p.count,
                    );
                    lemma_word_primitive(pre, self.mem(), name.spec_bytes(), flags, code@);
                    lemma_extended_trans(
                        p.origin,
                        pre,
                        self.mem(),
                        p.room,
                        ENTRY_OVERHEAD + code@.len(),
                        p.room + ENTRY_OVERHEAD + code@.len(),
                    );
                    reveal(extended);
                    reveal(known_all);
                    lemma_newest_one(pre, self.mem(), w as int, name.spec_bytes(), flags);
                    lemma_newest_trans(p.origin, pre, self.mem(), p.count, 1);
                }
                Ok(w)
            },
            Err(_) => {
                proof {
                    reveal(extended);
                }
                Err(DefineError::OutOfMemory)
            },
        }
    }

    /// Defines `>dfa` ( entry -- addr ): the address of the first body cell of an entry,
    /// one cell behind its code field.
    pub fn define_to_dfa(&mut self) -> (r: Result<i32, DefineError>)
        requires
            old(self).dict_ok(),
        ensures
            final(self).wf(),
            guarded_composite(
                old(self).mem(),
                final(self).mem(),
                ">dfa".spec_bytes(),
                0,
                token_bytes(to_dfa_tokens()),
                r,
            ),
            final(self).names() == match r {
                Ok(w) => old(self).names().insert(
                    code_field(final(self).mem(), w as int) as i32,
                    ">dfa"@,
                ),
                Err(_) => old(self).names(),
            },
    {
        let calls: Vec<&'static str> = vec![">cfa", "4+", "exit"];
        assert(calls@ =~= to_dfa_tokens());
        self.define_composite(">dfa", 0, calls.as_slice())
    }

    /// Defines `hide`: reads a name and toggles the hidden flag of the word that it
    /// names.
    pub fn define_hide(&mut self) -> (r: Result<i32, DefineError>)
        requires
            old(self).dict_ok(),
        ensures
            final(self).wf(),
            guarded_composite(
                old(self).mem(),
                final(self).mem(),
                "hide".spec_bytes(),
                0,
                token_bytes(hide_tokens()),
                r,
            ),
            final(self).names() == match r {
                Ok(w) => old(self).names().insert(
                    code_field(final(self).mem(), w as int) as i32,
                    "hide"@,
                ),
                Err(_) => old(self).names(),
            },
    {
        let calls: Vec<&'static str> = vec!["word", "find", "hidden", "exit"];
        assert(calls@ =~= hide_tokens());
        self.define_composite("hide", 0, calls.as_slice())
    }

    /// Defines `:`: reads a name, makes a header for it, appends the address of the
    /// trampoline as its code field, hides the new word and switches to
    /// compiling.
    pub fn define_colon(&mut self) -> (r: Result<i32, DefineError>)
        requires
            old(self).dict_ok(),
        ensures
            final(self).wf(),
            guarded_composite(
                old(self).mem(),
                final(self).mem(),
                ":".spec_bytes(),
                0,
                token_bytes(colon_tokens()),
                r,
            ),
            final(self).names() == match r {
                Ok(w) => old(self).names().insert(
                    code_field(final(self).mem(), w as int) as i32,
                    ":"@,
                ),
                Err(_) => old(self).names(),
            },
    {
        let calls: Vec<&'static str> = vec![
            "word", "create", "DOCOL", ",", "latest", "@", "hidden", "]", "exit",
        ];
        assert(calls@ =~= colon_tokens());
        self.define_composite(":", 0, calls.as_slice())
    }

    /// Defines `;`: compiles `exit`, shows the word under construction again and
    /// switches to interpreting. It is immediate.
    pub fn define_semicolon(&mut self) -> (r: Result<i32, DefineError>)
        requires
            old(self).dict_ok(),
        ensures
            final(self).wf(),
            guarded_composite(
                old(self).mem(),
                final(self).mem(),
                ";".spec_bytes(),
                IMMEDIATE,
                token_bytes(semicolon_tokens()),
                r,
            ),
            final(self).names() == match r {
                Ok(w) => old(self).names().insert(
                    code_field(final(self).mem(), w as int) as i32,
                    ";"@,
                ),
                Err(_) => old(self).names(),
            },
    {
        let calls: Vec<&'static str> = vec![
            "lit", "exit", ",", "latest", "@", "hidden", "[", "exit",
        ];
        assert(calls@ =~= semicolon_tokens());
        self.define_composite(";", IMMEDIATE, calls.as_slice())
    }

    /// Defines `interpret`, the outer interpreter: reads one token and looks it up. A
    /// word that is immediate, or any word while interpreting, is executed;
    /// another word is compiled as its code field address. A token that is no
    /// word is parsed as a number, which is left on the stack while
    /// interpreting and compiled behind `lit` while compiling. A token that is
    /// neither gives a question mark. The numbers behind `branch` and
    /// `0branch` are the distances of the jumps in bytes, counted from the
    /// cell that holds them.
    pub fn define_interpret(&mut self) -> (r: Result<i32, DefineError>)
        requires
            old(self).dict_ok(),
        ensures
            final(self).wf(),
            guarded_composite(
                old(self).mem(),
                final(self).mem(),
                "interpret".spec_bytes(),
                0,
                token_bytes(interpret_tokens()),
                r,
            ),
            final(self).names() == match r {
                Ok(w) => old(self).names().insert(
                    code_field(final(self).mem(), w as int) as i32,
                    "interpret"@,
                ),
                Err(_) => old(self).names(),
            },
    {
        let calls: Vec<&'static str> = vec![
            "word", "2dup", "lit", "0", ">r", "find", "dup", "0branch", "56", "swap", "drop",
            "swap", "drop", "dup", "4+", "c@", "F_IMMED", "and", ">r", ">cfa", "branch", "36",
            "r>", "1+", ">r", ">r", "number", "0=", "0branch", "92", "state", "@", "r>", "0=",
            "and", "0=", "0branch", "28", "r>", "0branch", "8", "exit", "execute", "exit", "r>",
            "0branch", "16", "'", "lit", ",", ",", "exit", "rdrop", "rdrop", "lit", "63", "emit",
            "exit",
        ];
        assert(calls@ =~= interpret_tokens());
        self.define_composite("interpret", 0, calls.as_slice())
    }

    /// Defines `quit`, the top-level loop: resets the return stack and interprets,
    /// over and over.
    pub fn define_quit(&mut self) -> (r: Result<i32, DefineError>)
        requires
            old(self).dict_ok(),
        ensures
            final(self).wf(),
            guarded_composite(
                old(self).mem(),
                final(self).mem(),
                "quit".spec_bytes(),
                0,
                token_bytes(quit_tokens()),
                r,
            ),
            final(self).names() == match r {
                Ok(w) => old(self).names().insert(
                    code_field(final(self).mem(), w as int) as i32,
                    "quit"@,
                ),
                Err(_) => old(self).names(),
            },
    {
        let calls: Vec<&'static str> = vec!["r0", "rsp!", "interpret", "branch", "-16"];
        assert(calls@ =~= quit_tokens());
        self.define_composite("quit", 0, calls.as_slice())
    }

    /// Defines the words that push the address of a register or a constant.
    #[verifier::rlimit(100)]
    fn init_register_words(&mut self, ops: &Opcodes) -> (r: Result<(), DefineError>)
        requires
            old(self).dict_ok(),
        ensures
            final(self).dict_ok(),
            extended(old(self).mem(), final(self).mem(), REGISTER_ROOM as int),
            match r {
                Ok(()) => {
                    &&& final(self).image() == with_register_words(old(self).image(), *ops)
                    &&& newest(old(self).mem(), final(self).mem(), 15)
                    &&& shaped(old(self).mem(), final(self).mem(), 15)
                    &&& forall|name: Seq<u8>|
                        is_register_word(name) ==> #[trigger] knows(final(self).mem(), name)
                },
                Err(e) => e == DefineError::OutOfMemory && !fits(old(self).mem(), REGISTER_ROOM as int),
            },
    {
        let ghost origin = self.mem();
        let ghost mut p = Progress::start(origin, REGISTER_ROOM as int);
        proof {
            lemma_start(origin, REGISTER_ROOM as int);
            lemma_register_names();
        }
        let s0: i32 = self.read_i32(8);
        let r0: i32 = self.read_i32(16);
        assert(is_register_word("state".spec_bytes()));
        let code: Vec<u8> = constant(ops, 52);
        self.add_primitive("state", 0, code, Ghost(p))?;
        proof {
            p = p.with("state".spec_bytes(), 6);
        }
        assert(is_register_word("here".spec_bytes()));
        let code: Vec<u8> = constant(ops, 36);
        self.add_primitive("here", 0, code, Ghost(p))?;
        proof {
            p = p.with("here".spec_bytes(), 6);
        }
        assert(is_register_word("latest".spec_bytes()));
        let code: Vec<u8> = constant(ops, 40);
        self.add_primitive("latest", 0, code, Ghost(p))?;
        proof {
            p = p.with("latest".spec_bytes(), 6);
        }
        assert(is_register_word("dsp".spec_bytes()));
        let code: Vec<u8> = constant(ops, 4);
        self.add_primitive("dsp", 0, code, Ghost(p))?;
        proof {
            p = p.with("dsp".spec_bytes(), 6);
        }
        assert(is_register_word("rsp".spec_bytes()));
        let code: Vec<u8> = constant(ops, 12);
        self.add_primitive("rsp", 0, code, Ghost(p))?;
        proof {
            p = p.with("rsp".spec_bytes(), 6);
        }
        assert(is_register_word("s0".spec_bytes()));
        let code: Vec<u8> = constant(ops, s0);
        self.add_primitive("s0", 0, code, Ghost(p))?;
        proof {
            p = p.with("s0".spec_bytes(), 6);
        }
        assert(is_register_word("r0".spec_bytes()));
        let code: Vec<u8> = constant(ops, r0);
        self.add_primitive("r0", 0, code, Ghost(p))?;
        proof {
            p = p.with("r0".spec_bytes(), 6);
        }
        assert(is_register_word("base".spec_bytes()));
        let code: Vec<u8> = constant(ops, 60);
        self.add_primitive("base", 0, code, Ghost(p))?;
        proof {
            p = p.with("base".spec_bytes(), 6);
        }
        assert(is_register_word("DOCOL".spec_bytes()));
        let code: Vec<u8> = constant(ops, 80);
        self.add_primitive("DOCOL", 0, code, Ghost(p))?;
        proof {
            p = p.with("DOCOL".spec_bytes(), 6);
        }
        assert(is_register_word("F_IMMED".spec_bytes()));
        let code: Vec<u8> = constant(ops, 128);
        self.add_primitive("F_IMMED", 0, code, Ghost(p))?;
        proof {
            p = p.with("F_IMMED".spec_bytes(), 6);
        }
        assert(is_register_word("F_HIDDEN".spec_bytes()));
        let code: Vec<u8> = constant(ops, 32);
        self.add_primitive("F_HIDDEN", 0, code, Ghost(p))?;
        proof {
            p = p.with("F_HIDDEN".spec_bytes(), 6);
        }
        assert(is_register_word("F_LENMASK".spec_bytes()));
        let code: Vec<u8> = constant(ops, 31);
        self.add_primitive("F_LENMASK", 0, code, Ghost(p))?;
        proof {
            p = p.with("F_LENMASK".spec_bytes(), 6);
        }
        assert(is_register_word("true".spec_bytes()));
        let code: Vec<u8> = constant(ops, 1);
        self.add_primitive("true", 0, code, Ghost(p))?;
        proof {
            p = p.with("true".spec_bytes(), 6);
        }
        assert(is_register_word("false".spec_bytes()));
        let code: Vec<u8> = constant(ops, 0);
        self.add_primitive("false", 0, code, Ghost(p))?;
        proof {
            p = p.with("false".spec_bytes(), 6);
        }
        assert(is_register_word("not".spec_bytes()));
        let code: Vec<u8> = vec![ops.eqz, NEXT];
        assert(code@ =~= seq![ops.eqz, NEXT]);
        self.add_primitive("not", 0, code, Ghost(p))?;
        proof {
            p = p.with("not".spec_bytes(), 2);
        }
        proof {
            reveal(known_all);
        }
        Ok(())
    }

    /// Defines the words that rearrange the parameter stack.
    #[verifier::rlimit(100)]
    fn init_stack_words(&mut self, ops: &Opcodes) -> (r: Result<(), DefineError>)
        requires
            old(self).dict_ok(),
        ensures
            final(self).dict_ok(),
            extended(old(self).mem(), final(self).mem(), STACK_ROOM as int),
            match r {
                Ok(()) => {
                    &&& final(self).image() == with_stack_words(old(self).image(), *ops)
                    &&& newest(old(self).mem(), final(self).mem(), 11)
                    &&& shaped(old(self).mem(), final(self).mem(), 11)
                    &&& forall|name: Seq<u8>|
                        is_stack_word(name) ==> #[trigger] knows(final(self).mem(), name)
                },
                Err(e) => e == DefineError::OutOfMemory && !fits(old(self).mem(), STACK_ROOM as int),
            },
    {
        let ghost origin = self.mem();
        let ghost mut p = Progress::start(origin, STACK_ROOM as int);
        proof {
            lemma_start(origin, STACK_ROOM as int);
            lemma_stack_names();
        }
        assert(is_stack_word("drop".spec_bytes()));
        let code: Vec<u8> = vec![ops.drop, NEXT];
        assert(code@ =~= seq![ops.drop, NEXT]);
        self.add_primitive("drop", 0, code, Ghost(p))?;
        proof {
            p = p.with("drop".spec_bytes(), 2);
        }
        assert(is_stack_word("2drop".spec_bytes()));
        let code: Vec<u8> = vec![ops.drop, ops.drop, NEXT];
        assert(code@ =~= seq![ops.drop, ops.drop, NEXT]);
        self.add_primitive("2drop", 0, code, Ghost(p))?;
        proof {
            p = p.with("2drop".spec_bytes(), 3);
        }
        assert(is_stack_word("swap".spec_bytes()));
        let code: Vec<u8> = vec![ops.swap, NEXT];
        assert(code@ =~= seq![ops.swap, NEXT]);
        self.add_primitive("swap", 0, code, Ghost(p))?;
        proof {
            p = p.with("swap".spec_bytes(), 2);
        }
        assert(is_stack_word("dup".spec_bytes()));
        let code: Vec<u8> = vec![ops.dup, NEXT];
        assert(code@ =~= seq![ops.dup, NEXT]);
        self.add_primitive("dup", 0, code, Ghost(p))?;
        proof {
            p = p.with("dup".spec_bytes(), 2);
        }
        assert(is_stack_word("2dup".spec_bytes()));
        let code: Vec<u8> = vec![OVER, OVER, NEXT];
        assert(code@ =~= seq![OVER, OVER, NEXT]);
        self.add_primitive("2dup", 0, code, Ghost(p))?;
        proof {
            p = p.with("2dup".spec_bytes(), 3);
        }
        assert(is_stack_word("?dup".spec_bytes()));
        let code: Vec<u8> = vec![ops.dup, ops.jzi, 5, 0, 0, 0, ops.dup, NEXT];
        assert(code@ =~= seq![ops.dup, ops.jzi, 5, 0, 0, 0, ops.dup, NEXT]);
        self.add_primitive("?dup", 0, code, Ghost(p))?;
        proof {
            p = p.with("?dup".spec_bytes(), 8);
        }
        assert(is_stack_word("nip".spec_bytes()));
        let code: Vec<u8> = vec![ops.swap, ops.drop, NEXT];
        assert(code@ =~= seq![ops.swap, ops.drop, NEXT]);
        self.add_primitive("nip", 0, code, Ghost(p))?;
        proof {
            p = p.with("nip".spec_bytes(), 3);
        }
        assert(is_stack_word("over".spec_bytes()));
        let code: Vec<u8> = vec![OVER, NEXT];
        assert(code@ =~= seq![OVER, NEXT]);
        self.add_primitive("over", 0, code, Ghost(p))?;
        proof {
            p = p.with("over".spec_bytes(), 2);
        }
        assert(is_stack_word("rot".spec_bytes()));
        let code: Vec<u8> = vec![ROT, NEXT];
        assert(code@ =~= seq![ROT, NEXT]);
        self.add_primitive("rot", 0, code, Ghost(p))?;
        proof {
            p = p.with("rot".spec_bytes(), 2);
        }
        assert(is_stack_word("-rot".spec_bytes()));
        let code: Vec<u8> = vec![ROT, ROT, NEXT];
        assert(code@ =~= seq![ROT, ROT, NEXT]);
        self.add_primitive("-rot", 0, code, Ghost(p))?;
        proof {
            p = p.with("-rot".spec_bytes(), 3);
        }
        assert(is_stack_word("tuck".spec_bytes()));
        let code: Vec<u8> = vec![ops.swap, OVER, NEXT];
        assert(code@ =~= seq![ops.swap, OVER, NEXT]);
        self.add_primitive("tuck", 0, code, Ghost(p))?;
        proof {
            p = p.with("tuck".spec_bytes(), 3);
        }
        proof {
            reveal(known_all);
        }
        Ok(())
    }

    /// Defines the words of arithmetic.
    #[verifier::rlimit(100)]
    fn init_arithmetic_words(&mut self, ops: &Opcodes) -> (r: Result<(), DefineError>)
        requires
            old(self).dict_ok(),
        ensures
            final(self).dict_ok(),
            extended(old(self).mem(), final(self).mem(), ARITHMETIC_ROOM as int),
            match r {
                Ok(()) => {
                    &&& final(self).image() == with_arithmetic_words(old(self).image(), *ops)
                    &&& newest(old(self).mem(), final(self).mem(), 10)
                    &&& shaped(old(self).mem(), final(self).mem(), 10)
                    &&& forall|name: Seq<u8>|
                        is_arithmetic_word(name) ==> #[trigger] knows(final(self).mem(), name)
                },
                Err(e) => e == DefineError::OutOfMemory && !fits(old(self).mem(), ARITHMETIC_ROOM as int),
            },
    {
        let ghost origin = self.mem();
        let ghost mut p = Progress::start(origin, ARITHMETIC_ROOM as int);
        proof {
            lemma_start(origin, ARITHMETIC_ROOM as int);
            lemma_arithmetic_names();
        }
        assert(is_arithmetic_word("+".spec_bytes()));
        let code: Vec<u8> = vec![ops.add, NEXT];
        assert(code@ =~= seq![ops.add, NEXT]);
        self.add_primitive("+", 0, code, Ghost(p))?;
        proof {
            p = p.with("+".spec_bytes(), 2);
        }
        assert(is_arithmetic_word("1+".spec_bytes()));
        let code: Vec<u8> = vec![ops.inc, NEXT];
        assert(code@ =~= seq![ops.inc, NEXT]);
        self.add_primitive("1+", 0, code, Ghost(p))?;
        proof {
            p = p.with("1+".spec_bytes(), 2);
        }
        assert(is_arithmetic_word("1-".spec_bytes()));
        let code: Vec<u8> = vec![ops.dec, NEXT];
        assert(code@ =~= seq![ops.dec, NEXT]);
        self.add_primitive("1-", 0, code, Ghost(p))?;
        proof {
            p = p.with("1-".spec_bytes(), 2);
        }
        assert(is_arithmetic_word("4+".spec_bytes()));
        let code: Vec<u8> = vec![ops.i32_const, 4, 0, 0, 0, ops.add, NEXT];
        assert(code@ =~= seq![ops.i32_const, 4, 0, 0, 0, ops.add, NEXT]);
        self.add_primitive("4+", 0, code, Ghost(p))?;
        proof {
            p = p.with("4+".spec_bytes(), 7);
        }
        assert(is_arithmetic_word("4-".spec_bytes()));
        let code: Vec<u8> = vec![ops.i32_const, 4, 0, 0, 0, ops.sub, NEXT];
        assert(code@ =~= seq![ops.i32_const, 4, 0, 0, 0, ops.sub, NEXT]);
        self.add_primitive("4-", 0, code, Ghost(p))?;
        proof {
            p = p.with("4-".spec_bytes(), 7);
        }
        assert(is_arithmetic_word("-".spec_bytes()));
        let code: Vec<u8> = vec![ops.sub, NEXT];
        assert(code@ =~= seq![ops.sub, NEXT]);
        self.add_primitive("-", 0, code, Ghost(p))?;
        proof {
            p = p.with("-".spec_bytes(), 2);
        }
        assert(is_arithmetic_word("*".spec_bytes()));
        let code: Vec<u8> = vec![ops.mul, NEXT];
        assert(code@ =~= seq![ops.mul, NEXT]);
        self.add_primitive("*", 0, code, Ghost(p))?;
        proof {
            p = p.with("*".spec_bytes(), 2);
        }
        assert(is_arithmetic_word("/".spec_bytes()));
        let code: Vec<u8> = vec![ops.div_s, NEXT];
        assert(code@ =~= seq![ops.div_s, NEXT]);
        self.add_primitive("/", 0, code, Ghost(p))?;
        proof {
            p = p.with("/".spec_bytes(), 2);
        }
        assert(is_arithmetic_word("mod".spec_bytes()));
        let code: Vec<u8> = vec![ops.mod_s, NEXT];
        assert(code@ =~= seq![ops.mod_s, NEXT]);
        self.add_primitive("mod", 0, code, Ghost(p))?;
        proof {
            p = p.with("mod".spec_bytes(), 2);
        }
        assert(is_arithmetic_word("/mod".spec_bytes()));
        let code: Vec<u8> = vec![DIV_MOD, NEXT];
        assert(code@ =~= seq![DIV_MOD, NEXT]);
        self.add_primitive("/mod", 0, code, Ghost(p))?;
        proof {
            p = p.with("/mod".spec_bytes(), 2);
        }
        proof {
            reveal(known_all);
        }
        Ok(())
    }

    /// Defines the words that compare.
    #[verifier::rlimit(100)]
    fn init_comparison_words(&mut self, ops: &Opcodes) -> (r: Result<(), DefineError>)
        requires
            old(self).dict_ok(),
        ensures
            final(self).dict_ok(),
            extended(old(self).mem(), final(self).mem(), COMPARISON_ROOM as int),
            match r {
                Ok(()) => {
                    &&& final(self).image() == with_comparison_words(old(self).image(), *ops)
                    &&& newest(old(self).mem(), final(self).mem(), 13)
                    &&& shaped(old(self).mem(), final(self).mem(), 13)
                    &&& forall|name: Seq<u8>|
                        is_comparison_word(name) ==> #[trigger] knows(final(self).mem(), name)
                },
                Err(e) => e == DefineError::OutOfMemory && !fits(old(self).mem(), COMPARISON_ROOM as int),
            },
    {
        let ghost origin = self.mem();
        let ghost mut p = Progress::start(origin, COMPARISON_ROOM as int);
        proof {
            lemma_start(origin, COMPARISON_ROOM as int);
            lemma_comparison_names();
        }
        assert(is_comparison_word("=".spec_bytes()));
        let code: Vec<u8> = vec![ops.eq, NEXT];
        assert(code@ =~= seq![ops.eq, NEXT]);
        self.add_primitive("=", 0, code, Ghost(p))?;
        proof {
            p = p.with("=".spec_bytes(), 2);
        }
        assert(is_comparison_word("0=".spec_bytes()));
        let code: Vec<u8> = vec![ops.eqz, NEXT];
        assert(code@ =~= seq![ops.eqz, NEXT]);
        self.add_primitive("0=", 0, code, Ghost(p))?;
        proof {
            p = p.with("0=".spec_bytes(), 2);
        }
        assert(is_comparison_word("0<".spec_bytes()));
        let code: Vec<u8> = vec![ops.zero, ops.lt_s, NEXT];
        assert(code@ =~= seq![ops.zero, ops.lt_s, NEXT]);
        self.add_primitive("0<", 0, code, Ghost(p))?;
        proof {
            p = p.with("0<".spec_bytes(), 3);
        }
        assert(is_comparison_word("0>".spec_bytes()));
        let code: Vec<u8> = vec![ops.zero, ops.gt_s, NEXT];
        assert(code@ =~= seq![ops.zero, ops.gt_s, NEXT]);
        self.add_primitive("0>", 0, code, Ghost(p))?;
        proof {
            p = p.with("0>".spec_bytes(), 3);
        }
        assert(is_comparison_word("<>".spec_bytes()));
        let code: Vec<u8> = vec![ops.eq, ops.eqz, NEXT];
        assert(code@ =~= seq![ops.eq, ops.eqz, NEXT]);
        self.add_primitive("<>", 0, code, Ghost(p))?;
        proof {
            p = p.with("<>".spec_bytes(), 3);
        }
        assert(is_comparison_word("<".spec_bytes()));
        let code: Vec<u8> = vec![ops.lt_s, NEXT];
        assert(code@ =~= seq![ops.lt_s, NEXT]);
        self.add_primitive("<", 0, code, Ghost(p))?;
        proof {
            p = p.with("<".spec_bytes(), 2);
        }
        assert(is_comparison_word(">".spec_bytes()));
        let code: Vec<u8> = vec![ops.gt_s, NEXT];
        assert(code@ =~= seq![ops.gt_s, NEXT]);
        self.add_primitive(">", 0, code, Ghost(p))?;
        proof {
            p = p.with(">".spec_bytes(), 2);
        }
        assert(is_comparison_word("u<".spec_bytes()));
        let code: Vec<u8> = vec![ops.lt_u, NEXT];
        assert(code@ =~= seq![ops.lt_u, NEXT]);
        self.add_primitive("u<", 0, code, Ghost(p))?;
        proof {
            p = p.with("u<".spec_bytes(), 2);
        }
        assert(is_comparison_word("u>".spec_bytes()));
        let code: Vec<u8> = vec![ops.gt_u, NEXT];
        assert(code@ =~= seq![ops.gt_u, NEXT]);
        self.add_primitive("u>", 0, code, Ghost(p))?;
        proof {
            p = p.with("u>".spec_bytes(), 2);
        }
        assert(is_comparison_word("<=".spec_bytes()));
        let code: Vec<u8> = vec![ops.le_s, NEXT];
        assert(code@ =~= seq![ops.le_s, NEXT]);
        self.add_primitive("<=", 0, code, Ghost(p))?;
        proof {
            p = p.with("<=".spec_bytes(), 2);
        }
        assert(is_comparison_word(">=".spec_bytes()));
        let code: Vec<u8> = vec![ops.ge_s, NEXT];
        assert(code@ =~= seq![ops.ge_s, NEXT]);
        self.add_primitive(">=", 0, code, Ghost(p))?;
        proof {
            p = p.with(">=".spec_bytes(), 2);
        }
        assert(is_comparison_word("min".spec_bytes()));
        let code: Vec<u8> = vec![ops.min, NEXT];
        assert(code@ =~= seq![ops.min, NEXT]);
        self.add_primitive("min", 0, code, Ghost(p))?;
        proof {
            p = p.with("min".spec_bytes(), 2);
        }
        assert(is_comparison_word("max".spec_bytes()));
        let code: Vec<u8> = vec![ops.max, NEXT];
        assert(code@ =~= seq![ops.max, NEXT]);
        self.add_primitive("max", 0, code, Ghost(p))?;
        proof {
            p = p.with("max".spec_bytes(), 2);
        }
        proof {
            reveal(known_all);
        }
        Ok(())
    }

    /// Defines the words of bitwise logic and of memory access.
    #[verifier::rlimit(100)]
    fn init_memory_words(&mut self, ops: &Opcodes) -> (r: Result<(), DefineError>)
        requires
            old(self).dict_ok(),
        ensures
            final(self).dict_ok(),
            extended(old(self).mem(), final(self).mem(), MEMORY_ROOM as int),
            match r {
                Ok(()) => {
                    &&& final(self).image() == with_memory_words(old(self).image(), *ops)
                    &&& newest(old(self).mem(), final(self).mem(), 10)
                    &&& shaped(old(self).mem(), final(self).mem(), 10)
                    &&& forall|name: Seq<u8>|
                        is_memory_word(name) ==> #[trigger] knows(final(self).mem(), name)
                },
                Err(e) => e == DefineError::OutOfMemory && !fits(old(self).mem(), MEMORY_ROOM as int),
            },
    {
        let ghost origin = self.mem();
        let ghost mut p = Progress::start(origin, MEMORY_ROOM as int);
        proof {
            lemma_start(origin, MEMORY_ROOM as int);
            lemma_memory_names();
        }
        assert(is_memory_word("and".spec_bytes()));
        let code: Vec<u8> = vec![ops.and, NEXT];
        assert(code@ =~= seq![ops.and, NEXT]);
        self.add_primitive("and", 0, code, Ghost(p))?;
        proof {
            p = p.with("and".spec_bytes(), 2);
        }
        assert(is_memory_word("or".spec_bytes()));
        let code: Vec<u8> = vec![ops.or, NEXT];
        assert(code@ =~= seq![ops.or, NEXT]);
        self.add_primitive("or", 0, code, Ghost(p))?;
        proof {
            p = p.with("or".spec_bytes(), 2);
        }
        assert(is_memory_word("xor".spec_bytes()));
        let code: Vec<u8> = vec![ops.xor, NEXT];
        assert(code@ =~= seq![ops.xor, NEXT]);
        self.add_primitive("xor", 0, code, Ghost(p))?;
        proof {
            p = p.with("xor".spec_bytes(), 2);
        }
        assert(is_memory_word("invert".spec_bytes()));
        let code: Vec<u8> = vec![ops.not, NEXT];
        assert(code@ =~= seq![ops.not, NEXT]);
        self.add_primitive("invert", 0, code, Ghost(p))?;
        proof {
            p = p.with("invert".spec_bytes(), 2);
        }
        assert(is_memory_word("!".spec_bytes()));
        let code: Vec<u8> = vec![ops.i32_store, NEXT];
        assert(code@ =~= seq![ops.i32_store, NEXT]);
        self.add_primitive("!", 0, code, Ghost(p))?;
        proof {
            p = p.with("!".spec_bytes(), 2);
        }
        assert(is_memory_word("+!".spec_bytes()));
        let code: Vec<u8> = vec![
            ops.dup, ops.i32_load, ROT, ops.add, ops.swap, ops.i32_store, NEXT,
        ];
        assert(code@ =~= seq![ops.dup, ops.i32_load, ROT, ops.add, ops.swap, ops.i32_store, NEXT]);
        self.add_primitive("+!", 0, code, Ghost(p))?;
        proof {
            p = p.with("+!".spec_bytes(), 7);
        }
        assert(is_memory_word("@".spec_bytes()));
        let code: Vec<u8> = vec![ops.i32_load, NEXT];
        assert(code@ =~= seq![ops.i32_load, NEXT]);
        self.add_primitive("@", 0, code, Ghost(p))?;
        proof {
            p = p.with("@".spec_bytes(), 2);
        }
        assert(is_memory_word("c!".spec_bytes()));
        let code: Vec<u8> = vec![ops.i32_store_8, NEXT];
        assert(code@ =~= seq![ops.i32_store_8, NEXT]);
        self.add_primitive("c!", 0, code, Ghost(p))?;
        proof {
            p = p.with("c!".spec_bytes(), 2);
        }
        assert(is_memory_word("c@".spec_bytes()));
        let code: Vec<u8> = vec![ops.i32_load_8, NEXT];
        assert(code@ =~= seq![ops.i32_load_8, NEXT]);
        self.add_primitive("c@", 0, code, Ghost(p))?;
        proof {
            p = p.with("c@".spec_bytes(), 2);
        }
        assert(is_memory_word("negate".spec_bytes()));
        let code: Vec<u8> = vec![ops.zero, ops.swap, ops.sub, NEXT];
        assert(code@ =~= seq![ops.zero, ops.swap, ops.sub, NEXT]);
        self.add_primitive("negate", 0, code, Ghost(p))?;
        proof {
            p = p.with("negate".spec_bytes(), 4);
        }
        proof {
            reveal(known_all);
        }
        Ok(())
    }

    /// Defines the words of threaded execution.
    #[verifier::rlimit(100)]
    fn init_control_words(&mut self, ops: &Opcodes) -> (r: Result<(), DefineError>)
        requires
            old(self).dict_ok(),
        ensures
            final(self).dict_ok(),
            extended(old(self).mem(), final(self).mem(), CONTROL_ROOM as int),
            match r {
                Ok(()) => {
                    &&& final(self).image() == with_control_words(old(self).image(), *ops)
                    &&& newest(old(self).mem(), final(self).mem(), 5)
                    &&& shaped(old(self).mem(), final(self).mem(), 5)
                    &&& forall|name: Seq<u8>|
                        is_control_word(name) ==> #[trigger] knows(final(self).mem(), name)
                },
                Err(e) => e == DefineError::OutOfMemory && !fits(old(self).mem(), CONTROL_ROOM as int),
            },
    {
        let ghost origin = self.mem();
        let ghost mut p = Progress::start(origin, CONTROL_ROOM as int);
        proof {
            lemma_start(origin, CONTROL_ROOM as int);
            lemma_control_names();
        }
        assert(is_control_word("bye".spec_bytes()));
        let code: Vec<u8> = vec![ops.end];
        assert(code@ =~= seq![ops.end]);
        self.add_primitive("bye", 0, code, Ghost(p))?;
        proof {
            p = p.with("bye".spec_bytes(), 1);
        }
        assert(is_control_word("execute".spec_bytes()));
        let code: Vec<u8> = execute(ops);
        self.add_primitive("execute", 0, code, Ghost(p))?;
        proof {
            p = p.with("execute".spec_bytes(), 9);
        }
        assert(is_control_word("lit".spec_bytes()));
        let code: Vec<u8> = lit(ops);
        self.add_primitive("lit", 0, code, Ghost(p))?;
        proof {
            p = p.with("lit".spec_bytes(), 22);
        }
        assert(is_control_word("litstring".spec_bytes()));
        let code: Vec<u8> = litstring(ops);
        self.add_primitive("litstring", 0, code, Ghost(p))?;
        proof {
            p = p.with("litstring".spec_bytes(), 39);
        }
        assert(is_control_word("exit".spec_bytes()));
        let code: Vec<u8> = exit(ops);
        self.add_primitive("exit", 0, code, Ghost(p))?;
        proof {
            p = p.with("exit".spec_bytes(), 27);
        }
        proof {
            reveal(known_all);
        }
        Ok(())
    }

    /// Defines the words of the return stack and of the stack pointers.
    #[verifier::rlimit(100)]
    fn init_return_stack_words(&mut self, ops: &Opcodes) -> (r: Result<(), DefineError>)
        requires
            old(self).dict_ok(),
        ensures
            final(self).dict_ok(),
            extended(old(self).mem(), final(self).mem(), RETURN_STACK_ROOM as int),
            match r {
                Ok(()) => {
                    &&& final(self).image() == with_return_stack_words(old(self).image(), *ops)
                    &&& newest(old(self).mem(), final(self).mem(), 7)
                    &&& shaped(old(self).mem(), final(self).mem(), 7)
                    &&& forall|name: Seq<u8>|
                        is_return_stack_word(name) ==> #[trigger] knows(final(self).mem(), name)
                },
                Err(e) => e == DefineError::OutOfMemory && !fits(old(self).mem(), RETURN_STACK_ROOM as int),
            },
    {
        let ghost origin = self.mem();
        let ghost mut p = Progress::start(origin, RETURN_STACK_ROOM as int);
        proof {
            lemma_start(origin, RETURN_STACK_ROOM as int);
            lemma_return_stack_names();
        }
        assert(is_return_stack_word(">r".spec_bytes()));
        let code: Vec<u8> = vec![
            ops.i32_const, 12, 0, 0, 0, ops.i32_load, ops.i32_store, ops.i32_const, 12, 0, 0, 0,
            ops.dup, ops.i32_load, ops.i32_const, 4, 0, 0, 0, ops.sub, ops.swap, ops.i32_store,
            NEXT,
        ];
        assert(code@ =~= {
            seq![ops.i32_const, 12, 0, 0, 0, ops.i32_load, ops.i32_store, ops.i32_const, 12, 0, 0, 0, ops.dup, ops.i32_load, ops.i32_const, 4, 0, 0, 0, ops.sub, ops.swap, ops.i32_store, NEXT]
        });
        self.add_primitive(">r", 0, code, Ghost(p))?;
        proof {
            p = p.with(">r".spec_bytes(), 23);
        }
        assert(is_return_stack_word("r>".spec_bytes()));
        let code: Vec<u8> = vec![
            ops.i32_const, 12, 0, 0, 0, ops.i32_load, ops.i32_const, 4, 0, 0, 0, ops.add, ops.dup,
            ops.i32_load, ops.swap, ops.i32_const, 12, 0, 0, 0, ops.i32_store, NEXT,
        ];
        assert(code@ =~= {
            seq![ops.i32_const, 12, 0, 0, 0, ops.i32_load, ops.i32_const, 4, 0, 0, 0, ops.add, ops.dup, ops.i32_load, ops.swap, ops.i32_const, 12, 0, 0, 0, ops.i32_store, NEXT]
        });
        self.add_primitive("r>", 0, code, Ghost(p))?;
        proof {
            p = p.with("r>".spec_bytes(), 22);
        }
        assert(is_return_stack_word("rdrop".spec_bytes()));
        let code: Vec<u8> = vec![
            ops.i32_const, 12, 0, 0, 0, ops.dup, ops.i32_load, ops.i32_const, 4, 0, 0, 0, ops.add,
            ops.swap, ops.i32_store, NEXT,
        ];
        assert(code@ =~= {
            seq![ops.i32_const, 12, 0, 0, 0, ops.dup, ops.i32_load, ops.i32_const, 4, 0, 0, 0, ops.add, ops.swap, ops.i32_store, NEXT]
        });
        self.add_primitive("rdrop", 0, code, Ghost(p))?;
        proof {
            p = p.with("rdrop".spec_bytes(), 16);
        }
        assert(is_return_stack_word("rsp!".spec_bytes()));
        let code: Vec<u8> = vec![ops.i32_const, 12, 0, 0, 0, ops.i32_store, NEXT];
        assert(code@ =~= seq![ops.i32_const, 12, 0, 0, 0, ops.i32_store, NEXT]);
        self.add_primitive("rsp!", 0, code, Ghost(p))?;
        proof {
            p = p.with("rsp!".spec_bytes(), 7);
        }
        assert(is_return_stack_word("rsp@".spec_bytes()));
        let code: Vec<u8> = vec![ops.i32_const, 12, 0, 0, 0, ops.i32_load, NEXT];
        assert(code@ =~= seq![ops.i32_const, 12, 0, 0, 0, ops.i32_load, NEXT]);
        self.add_primitive("rsp@", 0, code, Ghost(p))?;
        proof {
            p = p.with("rsp@".spec_bytes(), 7);
        }
        assert(is_return_stack_word("dsp!".spec_bytes()));
        let code: Vec<u8> = vec![ops.i32_const, 4, 0, 0, 0, ops.i32_store, NEXT];
        assert(code@ =~= seq![ops.i32_const, 4, 0, 0, 0, ops.i32_store, NEXT]);
        self.add_primitive("dsp!", 0, code, Ghost(p))?;
        proof {
            p = p.with("dsp!".spec_bytes(), 7);
        }
        assert(is_return_stack_word("dsp@".spec_bytes()));
        let code: Vec<u8> = vec![ops.i32_const, 4, 0, 0, 0, ops.i32_load, NEXT];
        assert(code@ =~= seq![ops.i32_const, 4, 0, 0, 0, ops.i32_load, NEXT]);
        self.add_primitive("dsp@", 0, code, Ghost(p))?;
        proof {
            p = p.with("dsp@".spec_bytes(), 7);
        }
        proof {
            reveal(known_all);
        }
        Ok(())
    }

    /// Defines the branches and the words that change flags and the compiler state.
    #[verifier::rlimit(100)]
    fn init_compiler_words(&mut self, ops: &Opcodes) -> (r: Result<(), DefineError>)
        requires
            old(self).dict_ok(),
        ensures
            final(self).dict_ok(),
            extended(old(self).mem(), final(self).mem(), COMPILER_ROOM as int),
            match r {
                Ok(()) => {
                    &&& final(self).image() == with_compiler_words(old(self).image(), *ops)
                    &&& newest(old(self).mem(), final(self).mem(), 8)
                    &&& shaped(old(self).mem(), final(self).mem(), 8)
                    &&& word_holds(final(self).mem(), "[".spec_bytes(), 0x81, false)
                    &&& word_holds(final(self).mem(), "]".spec_bytes(), 0x01, false)
                    &&& forall|name: Seq<u8>|
                        is_compiler_word(name) ==> #[trigger] knows(final(self).mem(), name)
                },
                Err(e) => e == DefineError::OutOfMemory && !fits(old(self).mem(), COMPILER_ROOM as int),
            },
    {
        let ghost origin = self.mem();
        let ghost mut p = Progress::start(origin, COMPILER_ROOM as int);
        proof {
            lemma_start(origin, COMPILER_ROOM as int);
            lemma_compiler_names();
        }
        proof {
            lemma_flag_bytes();
            lemma_left_bracket_apart();
            lemma_right_bracket_apart();
        }
        assert(is_compiler_word("branch".spec_bytes()));
        let code: Vec<u8> = branch(ops);
        let branch: i32 = self.add_primitive("branch", 0, code, Ghost(p))?;
        proof {
            p = p.with("branch".spec_bytes(), 13);
        }
        let target: i32 = self.cfa(branch) + 4;
        assert(is_compiler_word("0branch".spec_bytes()));
        let code: Vec<u8> = zero_branch(ops, target);
        self.add_primitive("0branch", 0, code, Ghost(p))?;
        proof {
            p = p.with("0branch".spec_bytes(), 21);
        }
        assert(is_compiler_word("immediate".spec_bytes()));
        let code: Vec<u8> = vec![
            ops.i32_const, 40, 0, 0, 0, ops.i32_load, ops.i32_const, 4, 0, 0, 0, ops.add, ops.dup,
            ops.i32_load_8, ops.i32_const, 128, 0, 0, 0, ops.xor, ops.swap, ops.i32_store_8, NEXT,
        ];
        assert(code@ =~= {
            seq![ops.i32_const, 40, 0, 0, 0, ops.i32_load, ops.i32_const, 4, 0, 0, 0, ops.add, ops.dup, ops.i32_load_8, ops.i32_const, 128, 0, 0, 0, ops.xor, ops.swap, ops.i32_store_8, NEXT]
        });
        self.add_primitive("immediate", IMMEDIATE, code, Ghost(p))?;
        proof {
            p = p.with("immediate".spec_bytes(), 23);
        }
        assert(is_compiler_word("'".spec_bytes()));
        let code: Vec<u8> = lit(ops);
        self.add_primitive("'", 0, code, Ghost(p))?;
        proof {
            p = p.with("'".spec_bytes(), 22);
        }
        assert(is_compiler_word(">cfa".spec_bytes()));
        let code: Vec<u8> = vec![
            ops.i32_const, 4, 0, 0, 0, ops.add, ops.dup, ops.i32_load_8, ops.i32_const, 31, 0, 0,
            0, ops.and, ops.i32_const, 13, 0, 0, 0, ops.min, ops.add, ops.i32_const, 4, 0, 0, 0,
            ops.add, ops.i32_const, 252, 255, 255, 255, ops.and, NEXT,
        ];
        assert(code@ =~= {
            seq![ops.i32_const, 4, 0, 0, 0, ops.add, ops.dup, ops.i32_load_8, ops.i32_const, 31, 0, 0, 0, ops.and, ops.i32_const, 13, 0, 0, 0, ops.min, ops.add, ops.i32_const, 4, 0, 0, 0, ops.add, ops.i32_const, 252, 255, 255, 255, ops.and, NEXT]
        });
        self.add_primitive(">cfa", 0, code, Ghost(p))?;
        proof {
            p = p.with(">cfa".spec_bytes(), 34);
        }
        assert(is_compiler_word("[".spec_bytes()));
        let code: Vec<u8> = vec![
            ops.i32_const, 0, 0, 0, 0, ops.i32_const, 52, 0, 0, 0, ops.i32_store, NEXT,
        ];
        assert(code@ =~= {
            seq![ops.i32_const, 0, 0, 0, 0, ops.i32_const, 52, 0, 0, 0, ops.i32_store, NEXT]
        });
        self.add_primitive("[", IMMEDIATE, code, Ghost(p))?;
        proof {
            p = p.with("[".spec_bytes(), 12);
        }
        assert(is_compiler_word("]".spec_bytes()));
        let ghost pre = self.mem();
        let code: Vec<u8> = vec![
            ops.i32_const, 1, 0, 0, 0, ops.i32_const, 52, 0, 0, 0, ops.i32_store, NEXT,
        ];
        assert(code@ =~= {
            seq![ops.i32_const, 1, 0, 0, 0, ops.i32_const, 52, 0, 0, 0, ops.i32_store, NEXT]
        });
        self.add_primitive("]", 0, code, Ghost(p))?;
        proof {
            p = p.with("]".spec_bytes(), 12);
        }
        proof {
            lemma_word_kept(pre, self.mem(), "]".spec_bytes(), 0, "[".spec_bytes(), 0x81, false);
        }
        assert(is_compiler_word("hidden".spec_bytes()));
        let ghost pre = self.mem();
        let code: Vec<u8> = vec![
            ops.i32_const, 4, 0, 0, 0, ops.add, ops.dup, ops.i32_load_8, ops.i32_const, 32, 0, 0,
            0, ops.xor, ops.swap, ops.i32_store_8, NEXT,
        ];
        assert(code@ =~= {
            seq![ops.i32_const, 4, 0, 0, 0, ops.add, ops.dup, ops.i32_load_8, ops.i32_const, 32, 0, 0, 0, ops.xor, ops.swap, ops.i32_store_8, NEXT]
        });
        self.add_primitive("hidden", 0, code, Ghost(p))?;
        proof {
            p = p.with("hidden".spec_bytes(), 17);
        }
        proof {
            lemma_word_kept(pre, self.mem(), "hidden".spec_bytes(), 0, "[".spec_bytes(), 0x81, false);
            lemma_word_kept(pre, self.mem(), "hidden".spec_bytes(), 0, "]".spec_bytes(), 0x01, false);
        }
        proof {
            reveal(known_all);
        }
        Ok(())
    }

    /// Defines the words that call into the host.
    #[verifier::rlimit(100)]
    fn init_host_words(&mut self, ops: &Opcodes, natives: &NativeWords) -> (r: Result<(), DefineError>)
        requires
            old(self).dict_ok(),
            natives.valid(),
            word_holds(old(self).mem(), "[".spec_bytes(), 0x81, false),
            word_holds(old(self).mem(), "]".spec_bytes(), 0x01, false),
        ensures
            final(self).dict_ok(),
            extended(old(self).mem(), final(self).mem(), HOST_ROOM as int),
            match r {
                Ok(()) => {
                    &&& final(self).image() == with_host_words(old(self).image(), *ops, *natives)
                    &&& newest(old(self).mem(), final(self).mem(), 10)
                    &&& shaped(old(self).mem(), final(self).mem(), 10)
                    &&& word_holds(final(self).mem(), "[".spec_bytes(), 0x81, false)
                    &&& word_holds(final(self).mem(), "]".spec_bytes(), 0x01, false)
                    &&& forall|name: Seq<u8>|
                        is_host_word(name) ==> #[trigger] knows(final(self).mem(), name)
                },
                Err(e) => e == DefineError::OutOfMemory && !fits(old(self).mem(), HOST_ROOM as int),
            },
    {
        let ghost origin = self.mem();
        let ghost mut p = Progress::start(origin, HOST_ROOM as int);
        proof {
            lemma_start(origin, HOST_ROOM as int);
            lemma_host_names();
        }
        proof {
            lemma_flag_bytes();
            lemma_left_bracket_apart();
            lemma_right_bracket_apart();
        }
        assert(is_host_word("key".spec_bytes()));
        let ghost pre = self.mem();
        let code: Vec<u8> = call(ops, natives.key as i32);
        self.add_primitive("key", 0, code, Ghost(p))?;
        proof {
            p = p.with("key".spec_bytes(), 7);
        }
        proof {
            lemma_word_kept(pre, self.mem(), "key".spec_bytes(), 0, "[".spec_bytes(), 0x81, false);
            lemma_word_kept(pre, self.mem(), "key".spec_bytes(), 0, "]".spec_bytes(), 0x01, false);
        }
        assert(is_host_word("word".spec_bytes()));
        let ghost pre = self.mem();
        let code: Vec<u8> = call(ops, natives.word as i32);
        self.add_primitive("word", 0, code, Ghost(p))?;
        proof {
            p = p.with("word".spec_bytes(), 7);
        }
        proof {
            lemma_word_kept(pre, self.mem(), "word".spec_bytes(), 0, "[".spec_bytes(), 0x81, false);
            lemma_word_kept(pre, self.mem(), "word".spec_bytes(), 0, "]".spec_bytes(), 0x01, false);
        }
        assert(is_host_word(".".spec_bytes()));
        let ghost pre = self.mem();
        let code: Vec<u8> = call(ops, natives.dot as i32);
        self.add_primitive(".", 0, code, Ghost(p))?;
        proof {
            p = p.with(".".spec_bytes(), 7);
        }
        proof {
            lemma_word_kept(pre, self.mem(), ".".spec_bytes(), 0, "[".spec_bytes(), 0x81, false);
            lemma_word_kept(pre, self.mem(), ".".spec_bytes(), 0, "]".spec_bytes(), 0x01, false);
        }
        assert(is_host_word("emit".spec_bytes()));
        let ghost pre = self.mem();
        let code: Vec<u8> = call(ops, natives.emit as i32);
        self.add_primitive("emit", 0, code, Ghost(p))?;
        proof {
            p = p.with("emit".spec_bytes(), 7);
        }
        proof {
            lemma_word_kept(pre, self.mem(), "emit".spec_bytes(), 0, "[".spec_bytes(), 0x81, false);
            lemma_word_kept(pre, self.mem(), "emit".spec_bytes(), 0, "]".spec_bytes(), 0x01, false);
        }
        assert(is_host_word("tell".spec_bytes()));
        let ghost pre = self.mem();
        let code: Vec<u8> = call(ops, natives.tell as i32);
        self.add_primitive("tell", 0, code, Ghost(p))?;
        proof {
            p = p.with("tell".spec_bytes(), 7);
        }
        proof {
            lemma_word_kept(pre, self.mem(), "tell".spec_bytes(), 0, "[".spec_bytes(), 0x81, false);
            lemma_word_kept(pre, self.mem(), "tell".spec_bytes(), 0, "]".spec_bytes(), 0x01, false);
        }
        assert(is_host_word("find".spec_bytes()));
        let ghost pre = self.mem();
        let code: Vec<u8> = call(ops, natives.find as i32);
        self.add_primitive("find", 0, code, Ghost(p))?;
        proof {
            p = p.with("find".spec_bytes(), 7);
        }
        proof {
            lemma_word_kept(pre, self.mem(), "find".spec_bytes(), 0, "[".spec_bytes(), 0x81, false);
            lemma_word_kept(pre, self.mem(), "find".spec_bytes(), 0, "]".spec_bytes(), 0x01, false);
        }
        assert(is_host_word("number".spec_bytes()));
        let ghost pre = self.mem();
        let code: Vec<u8> = call(ops, natives.number as i32);
        self.add_primitive("number", 0, code, Ghost(p))?;
        proof {
            p = p.with("number".spec_bytes(), 7);
        }
        proof {
            lemma_word_kept(pre, self.mem(), "number".spec_bytes(), 0, "[".spec_bytes(), 0x81, false);
            lemma_word_kept(pre, self.mem(), "number".spec_bytes(), 0, "]".spec_bytes(), 0x01, false);
        }
        assert(is_host_word(",".spec_bytes()));
        let ghost pre = self.mem();
        let code: Vec<u8> = call(ops, natives.comma as i32);
        self.add_primitive(",", 0, code, Ghost(p))?;
        proof {
            p = p.with(",".spec_bytes(), 7);
        }
        proof {
            lemma_word_kept(pre, self.mem(), ",".spec_bytes(), 0, "[".spec_bytes(), 0x81, false);
            lemma_word_kept(pre, self.mem(), ",".spec_bytes(), 0, "]".spec_bytes(), 0x01, false);
        }
        assert(is_host_word("create".spec_bytes()));
        let ghost pre = self.mem();
        let code: Vec<u8> = call(ops, natives.create as i32);
        self.add_primitive("create", 0, code, Ghost(p))?;
        proof {
            p = p.with("create".spec_bytes(), 7);
        }
        proof {
            lemma_word_kept(pre, self.mem(), "create".spec_bytes(), 0, "[".spec_bytes(), 0x81, false);
            lemma_word_kept(pre, self.mem(), "create".spec_bytes(), 0, "]".spec_bytes(), 0x01, false);
        }
        assert(is_host_word("char".spec_bytes()));
        let ghost pre = self.mem();
        let code: Vec<u8> = call(ops, natives.read_char as i32);
        self.add_primitive("char", 0, code, Ghost(p))?;
        proof {
            p = p.with("char".spec_bytes(), 7);
        }
        proof {
            lemma_word_kept(pre, self.mem(), "char".spec_bytes(), 0, "[".spec_bytes(), 0x81, false);
            lemma_word_kept(pre, self.mem(), "char".spec_bytes(), 0, "]".spec_bytes(), 0x01, false);
        }
        proof {
            reveal(known_all);
        }
        Ok(())
    }

    /// Defines the composite words: the compiler words and the outer interpreter.
    #[verifier::rlimit(100)]
    fn init_composite_words(&mut self) -> (r: Result<(), DefineError>)
        requires
            old(self).dict_ok(),
            forall|name: Seq<u8>|
                is_primitive_word(name) ==> #[trigger] knows(old(self).mem(), name),
            word_holds(old(self).mem(), "[".spec_bytes(), 0x81, false),
            word_holds(old(self).mem(), "]".spec_bytes(), 0x01, false),
        ensures
            final(self).dict_ok(),
            extended(old(self).mem(), final(self).mem(), COMPOSITE_ROOM as int),
            match r {
                Ok(()) => {
                    &&& final(self).image() == with_composite_words(old(self).image())
                    &&& newest(old(self).mem(), final(self).mem(), 6)
                    &&& shaped(old(self).mem(), final(self).mem(), 6)
                    &&& word_holds(final(self).mem(), "[".spec_bytes(), 0x81, false)
                    &&& word_holds(final(self).mem(), "]".spec_bytes(), 0x01, false)
                    &&& word_holds(final(self).mem(), ">dfa".spec_bytes(), 0x04, true)
                    &&& word_holds(final(self).mem(), "hide".spec_bytes(), 0x04, true)
                    &&& word_holds(final(self).mem(), ":".spec_bytes(), 0x01, true)
                    &&& word_holds(final(self).mem(), ";".spec_bytes(), 0x81, true)
                    &&& word_holds(final(self).mem(), "interpret".spec_bytes(), 0x09, true)
                    &&& word_holds(final(self).mem(), "quit".spec_bytes(), 0x04, true)
                    &&& forall|name: Seq<u8>|
                        is_composite_word(name) ==> #[trigger] knows(final(self).mem(), name)
                },
                Err(e) => e == DefineError::OutOfMemory && !fits(old(self).mem(), COMPOSITE_ROOM as int),
            },
    {
        let ghost origin = self.mem();
        let ghost mut p = Progress::start(origin, COMPOSITE_ROOM as int);
        proof {
            lemma_start(origin, COMPOSITE_ROOM as int);
            lemma_composite_names();
        }
        proof {
            lemma_flag_bytes();
            lemma_left_bracket_apart();
            lemma_right_bracket_apart();
            lemma_to_dfa_apart();
            lemma_hide_apart();
            lemma_colon_apart();
            lemma_semicolon_apart();
            lemma_interpret_apart();
        }
        assert(is_composite_word(">dfa".spec_bytes()));
        proof {
            lemma_carry(origin, self.mem(), p.room, 9);
            lemma_to_dfa_resolves(self.mem());
        }
        let ghost pre = self.mem();
        let ghost pre_image = self.image();
        let r = self.define_to_dfa();
        proof {
            lemma_composite_step(
                p,
                pre,
                self.mem(),
                ">dfa".spec_bytes(),
                0,
                token_bytes(to_dfa_tokens()),
                r,
            );
        }
        if r.is_ok() {
            proof {
                lemma_composite_image(pre_image, self.image(), ">dfa", 0, to_dfa_tokens(), r);
            }
        }
        r?;
        proof {
            p = p.with(">dfa".spec_bytes(), 12);
        }
        proof {
            lemma_word_kept(pre, self.mem(), ">dfa".spec_bytes(), 0, "[".spec_bytes(), 0x81, false);
            lemma_word_kept(pre, self.mem(), ">dfa".spec_bytes(), 0, "]".spec_bytes(), 0x01, false);
        }
        assert(is_composite_word("hide".spec_bytes()));
        proof {
            lemma_carry(origin, self.mem(), p.room, 9);
            lemma_hide_resolves(self.mem());
        }
        let ghost pre = self.mem();
        let ghost pre_image = self.image();
        let r = self.define_hide();
        proof {
            lemma_composite_step(
                p,
                pre,
                self.mem(),
                "hide".spec_bytes(),
                0,
                token_bytes(hide_tokens()),
                r,
            );
        }
        if r.is_ok() {
            proof {
                lemma_composite_image(pre_image, self.image(), "hide", 0, hide_tokens(), r);
            }
        }
        r?;
        proof {
            p = p.with("hide".spec_bytes(), 16);
        }
        proof {
            lemma_word_kept(pre, self.mem(), "hide".spec_bytes(), 0, "[".spec_bytes(), 0x81, false);
            lemma_word_kept(pre, self.mem(), "hide".spec_bytes(), 0, "]".spec_bytes(), 0x01, false);
            lemma_word_kept(pre, self.mem(), "hide".spec_bytes(), 0, ">dfa".spec_bytes(), 0x04, true);
        }
        assert(is_composite_word(":".spec_bytes()));
        proof {
            lemma_carry(origin, self.mem(), p.room, 9);
            lemma_colon_resolves(self.mem());
        }
        let ghost pre = self.mem();
        let ghost pre_image = self.image();
        let r = self.define_colon();
        proof {
            lemma_composite_step(
                p,
                pre,
                self.mem(),
                ":".spec_bytes(),
                0,
                token_bytes(colon_tokens()),
                r,
            );
        }
        if r.is_ok() {
            proof {
                lemma_composite_image(pre_image, self.image(), ":", 0, colon_tokens(), r);
            }
        }
        r?;
        proof {
            p = p.with(":".spec_bytes(), 36);
        }
        proof {
            lemma_word_kept(pre, self.mem(), ":".spec_bytes(), 0, "[".spec_bytes(), 0x81, false);
            lemma_word_kept(pre, self.mem(), ":".spec_bytes(), 0, "]".spec_bytes(), 0x01, false);
            lemma_word_kept(pre, self.mem(), ":".spec_bytes(), 0, ">dfa".spec_bytes(), 0x04, true);
            lemma_word_kept(pre, self.mem(), ":".spec_bytes(), 0, "hide".spec_bytes(), 0x04, true);
        }
        assert(is_composite_word(";".spec_bytes()));
        proof {
            lemma_carry(origin, self.mem(), p.room, 9);
            lemma_semicolon_resolves(self.mem());
        }
        let ghost pre = self.mem();
        let ghost pre_image = self.image();
        let r = self.define_semicolon();
        proof {
            lemma_composite_step(
                p,
                pre,
                self.mem(),
                ";".spec_bytes(),
                IMMEDIATE,
                token_bytes(semicolon_tokens()),
                r,
            );
        }
        if r.is_ok() {
            proof {
                lemma_composite_image(pre_image, self.image(), ";", IMMEDIATE, semicolon_tokens(), r);
            }
        }
        r?;
        proof {
            p = p.with(";".spec_bytes(), 32);
        }
        proof {
            lemma_word_kept(pre, self.mem(), ";".spec_bytes(), IMMEDIATE, "[".spec_bytes(), 0x81, false);
            lemma_word_kept(pre, self.mem(), ";".spec_bytes(), IMMEDIATE, "]".spec_bytes(), 0x01, false);
            lemma_word_kept(pre, self.mem(), ";".spec_bytes(), IMMEDIATE, ">dfa".spec_bytes(), 0x04, true);
            lemma_word_kept(pre, self.mem(), ";".spec_bytes(), IMMEDIATE, "hide".spec_bytes(), 0x04, true);
            lemma_word_kept(pre, self.mem(), ";".spec_bytes(), IMMEDIATE, ":".spec_bytes(), 0x01, true);
        }
        assert(is_composite_word("interpret".spec_bytes()));
        proof {
            lemma_carry(origin, self.mem(), p.room, 9);
            lemma_interpret_resolves(self.mem());
        }
        let ghost pre = self.mem();
        let ghost pre_image = self.image();
        let r = self.define_interpret();
        proof {
            lemma_composite_step(
                p,
                pre,
                self.mem(),
                "interpret".spec_bytes(),
                0,
                token_bytes(interpret_tokens()),
                r,
            );
        }
        if r.is_ok() {
            proof {
                lemma_composite_image(pre_image, self.image(), "interpret", 0, interpret_tokens(), r);
            }
        }
        r?;
        proof {
            p = p.with("interpret".spec_bytes(), 232);
        }
        proof {
            lemma_word_kept(pre, self.mem(), "interpret".spec_bytes(), 0, "[".spec_bytes(), 0x81, false);
            lemma_word_kept(pre, self.mem(), "interpret".spec_bytes(), 0, "]".spec_bytes(), 0x01, false);
            lemma_word_kept(pre, self.mem(), "interpret".spec_bytes(), 0, ">dfa".spec_bytes(), 0x04, true);
            lemma_word_kept(pre, self.mem(), "interpret".spec_bytes(), 0, "hide".spec_bytes(), 0x04, true);
            lemma_word_kept(pre, self.mem(), "interpret".spec_bytes(), 0, ":".spec_bytes(), 0x01, true);
            lemma_word_kept(pre, self.mem(), "interpret".spec_bytes(), 0, ";".spec_bytes(), 0x81, true);
        }
        assert(is_composite_word("quit".spec_bytes()));
        proof {
            lemma_carry(origin, self.mem(), p.room, 9);
            lemma_known(self.mem(), p.known, "interpret".spec_bytes());
            lemma_quit_resolves(self.mem());
        }
        let ghost pre = self.mem();
        let ghost pre_image = self.image();
        let r = self.define_quit();
        proof {
            lemma_composite_step(
                p,
                pre,
                self.mem(),
                "quit".spec_bytes(),
                0,
                token_bytes(quit_tokens()),
                r,
            );
        }
        if r.is_ok() {
            proof {
                lemma_composite_image(pre_image, self.image(), "quit", 0, quit_tokens(), r);
            }
        }
        r?;
        proof {
            p = p.with("quit".spec_bytes(), 20);
        }
        proof {
            lemma_word_kept(pre, self.mem(), "quit".spec_bytes(), 0, "[".spec_bytes(), 0x81, false);
            lemma_word_kept(pre, self.mem(), "quit".spec_bytes(), 0, "]".spec_bytes(), 0x01, false);
            lemma_word_kept(pre, self.mem(), "quit".spec_bytes(), 0, ">dfa".spec_bytes(), 0x04, true);
            lemma_word_kept(pre, self.mem(), "quit".spec_bytes(), 0, "hide".spec_bytes(), 0x04, true);
            lemma_word_kept(pre, self.mem(), "quit".spec_bytes(), 0, ":".spec_bytes(), 0x01, true);
            lemma_word_kept(pre, self.mem(), "quit".spec_bytes(), 0, ";".spec_bytes(), 0x81, true);
            lemma_word_kept(pre, self.mem(), "quit".spec_bytes(), 0, "interpret".spec_bytes(), 0x09, true);
        }
        proof {
            reveal(known_all);
        }
        Ok(())
    }

    /// Adds the initial vocabulary to the dictionary: the primitives, the
    /// words that call the host functions with the indexes `natives`, and
    /// the composite words, of which `quit`, the top-level loop, is the
    /// last. Where the dictionary has room for it, the arena and the name
    /// table are those of `vocabulary_image`: each word is defined in its
    /// turn, with its flags, its code or its tokens. Every word of the
    /// vocabulary is known afterwards, and so is every word that was known
    /// before; the new entries have their shape; and the compiler words are
    /// found with their length/flags bytes and, where they are composite,
    /// with the trampoline's address in their code fields. Where the room
    /// runs out, the words that were added up to then stay.
    pub fn init_dictionary(&mut self, ops: &Opcodes, natives: &NativeWords) -> (r: Result<
        (),
        DefineError,
    >)
        requires
            old(self).dict_ok(),
            natives.valid(),
        ensures
            final(self).dict_ok(),
            extended(old(self).mem(), final(self).mem(), VOCABULARY_ROOM as int),
            match r {
                Ok(()) => {
                    &&& final(self).image() == vocabulary_image(old(self).image(), *ops, *natives)
                    &&& newest(old(self).mem(), final(self).mem(), VOCABULARY_WORDS as int)
                    &&& shaped(old(self).mem(), final(self).mem(), VOCABULARY_WORDS as int)
                    &&& word_holds(final(self).mem(), "[".spec_bytes(), 0x81, false)
                    &&& word_holds(final(self).mem(), "]".spec_bytes(), 0x01, false)
                    &&& word_holds(final(self).mem(), ">dfa".spec_bytes(), 0x04, true)
                    &&& word_holds(final(self).mem(), "hide".spec_bytes(), 0x04, true)
                    &&& word_holds(final(self).mem(), ":".spec_bytes(), 0x01, true)
                    &&& word_holds(final(self).mem(), ";".spec_bytes(), 0x81, true)
                    &&& word_holds(final(self).mem(), "interpret".spec_bytes(), 0x09, true)
                    &&& word_holds(final(self).mem(), "quit".spec_bytes(), 0x04, true)
                    &&& forall|name: Seq<u8>|
                        is_vocabulary(name) ==> #[trigger] knows(final(self).mem(), name)
                },
                Err(e) => e == DefineError::OutOfMemory && !fits(
                    old(self).mem(),
                    VOCABULARY_ROOM as int,
                ),
            },
            fits(old(self).mem(), VOCABULARY_ROOM as int) ==> r.is_ok(),
    {
        let ghost origin = self.mem();
        proof {
            lemma_extended_refl(origin);
            lemma_newest_none(origin);
            lemma_shaped_none(origin);
        }
        let ghost before = self.mem();
        let step = self.init_register_words(ops);
        proof {
            lemma_extended_trans(origin, before, self.mem(), 0, REGISTER_ROOM as int, 506);
            lemma_extended_more(origin, self.mem(), 506, VOCABULARY_ROOM as int);
            if step.is_err() {
                lemma_unfit(origin, before, 0, REGISTER_ROOM as int, VOCABULARY_ROOM as int);
            } else {
                lemma_carry(before, self.mem(), REGISTER_ROOM as int, 0);
                lemma_shaped_more(origin, before, self.mem(), 0, 15, REGISTER_ROOM as int);
                lemma_newest_trans(origin, before, self.mem(), 0, 15);
            }
        }
        step?;
        let ghost before = self.mem();
        let step = self.init_stack_words(ops);
        proof {
            lemma_extended_trans(origin, before, self.mem(), 506, STACK_ROOM as int, 847);
            lemma_extended_more(origin, self.mem(), 847, VOCABULARY_ROOM as int);
            if step.is_err() {
                lemma_unfit(origin, before, 506, STACK_ROOM as int, VOCABULARY_ROOM as int);
            } else {
                lemma_carry(before, self.mem(), STACK_ROOM as int, 1);
                lemma_shaped_more(origin, before, self.mem(), 15, 11, STACK_ROOM as int);
                lemma_newest_trans(origin, before, self.mem(), 15, 11);
            }
        }
        step?;
        let ghost before = self.mem();
        let step = self.init_arithmetic_words(ops);
        proof {
            lemma_extended_trans(origin, before, self.mem(), 847, ARITHMETIC_ROOM as int, 1157);
            lemma_extended_more(origin, self.mem(), 1157, VOCABULARY_ROOM as int);
            if step.is_err() {
                lemma_unfit(origin, before, 847, ARITHMETIC_ROOM as int, VOCABULARY_ROOM as int);
            } else {
                lemma_carry(before, self.mem(), ARITHMETIC_ROOM as int, 2);
                lemma_shaped_more(origin, before, self.mem(), 26, 10, ARITHMETIC_ROOM as int);
                lemma_newest_trans(origin, before, self.mem(), 26, 10);
            }
        }
        step?;
        let ghost before = self.mem();
        let step = self.init_comparison_words(ops);
        proof {
            lemma_extended_trans(origin, before, self.mem(), 1157, COMPARISON_ROOM as int, 1550);
            lemma_extended_more(origin, self.mem(), 1550, VOCABULARY_ROOM as int);
            if step.is_err() {
                lemma_unfit(origin, before, 1157, COMPARISON_ROOM as int, VOCABULARY_ROOM as int);
            } else {
                lemma_carry(before, self.mem(), COMPARISON_ROOM as int, 3);
                lemma_shaped_more(origin, before, self.mem(), 36, 13, COMPARISON_ROOM as int);
                lemma_newest_trans(origin, before, self.mem(), 36, 13);
            }
        }
        step?;
        let ghost before = self.mem();
        let step = self.init_memory_words(ops);
        proof {
            lemma_extended_trans(origin, before, self.mem(), 1550, MEMORY_ROOM as int, 1857);
            lemma_extended_more(origin, self.mem(), 1857, VOCABULARY_ROOM as int);
            if step.is_err() {
                lemma_unfit(origin, before, 1550, MEMORY_ROOM as int, VOCABULARY_ROOM as int);
            } else {
                lemma_carry(before, self.mem(), MEMORY_ROOM as int, 4);
                lemma_shaped_more(origin, before, self.mem(), 49, 10, MEMORY_ROOM as int);
                lemma_newest_trans(origin, before, self.mem(), 49, 10);
            }
        }
        step?;
        let ghost before = self.mem();
        let step = self.init_control_words(ops);
        proof {
            lemma_extended_trans(origin, before, self.mem(), 1857, CONTROL_ROOM as int, 2095);
            lemma_extended_more(origin, self.mem(), 2095, VOCABULARY_ROOM as int);
            if step.is_err() {
                lemma_unfit(origin, before, 1857, CONTROL_ROOM as int, VOCABULARY_ROOM as int);
            } else {
                lemma_carry(before, self.mem(), CONTROL_ROOM as int, 5);
                lemma_shaped_more(origin, before, self.mem(), 59, 5, CONTROL_ROOM as int);
                lemma_newest_trans(origin, before, self.mem(), 59, 5);
            }
        }
        step?;
        let ghost before = self.mem();
        let step = self.init_return_stack_words(ops);
        proof {
            lemma_extended_trans(origin, before, self.mem(), 2095, RETURN_STACK_ROOM as int, 2380);
            lemma_extended_more(origin, self.mem(), 2380, VOCABULARY_ROOM as int);
            if step.is_err() {
                lemma_unfit(origin, before, 2095, RETURN_STACK_ROOM as int, VOCABULARY_ROOM as int);
            } else {
                lemma_carry(before, self.mem(), RETURN_STACK_ROOM as int, 6);
                lemma_shaped_more(origin, before, self.mem(), 64, 7, RETURN_STACK_ROOM as int);
                lemma_newest_trans(origin, before, self.mem(), 64, 7);
            }
        }
        step?;
        let ghost before = self.mem();
        let step = self.init_compiler_words(ops);
        proof {
            lemma_extended_trans(origin, before, self.mem(), 2380, COMPILER_ROOM as int, 2758);
            lemma_extended_more(origin, self.mem(), 2758, VOCABULARY_ROOM as int);
            if step.is_err() {
                lemma_unfit(origin, before, 2380, COMPILER_ROOM as int, VOCABULARY_ROOM as int);
            } else {
                lemma_carry(before, self.mem(), COMPILER_ROOM as int, 7);
                lemma_shaped_more(origin, before, self.mem(), 71, 8, COMPILER_ROOM as int);
                lemma_newest_trans(origin, before, self.mem(), 71, 8);
            }
        }
        step?;
        let ghost before = self.mem();
        let step = self.init_host_words(ops, natives);
        proof {
            lemma_extended_trans(origin, before, self.mem(), 2758, HOST_ROOM as int, 3108);
            lemma_extended_more(origin, self.mem(), 3108, VOCABULARY_ROOM as int);
            if step.is_err() {
                lemma_unfit(origin, before, 2758, HOST_ROOM as int, VOCABULARY_ROOM as int);
            } else {
                lemma_carry(before, self.mem(), HOST_ROOM as int, 8);
                lemma_shaped_more(origin, before, self.mem(), 79, 10, HOST_ROOM as int);
                lemma_newest_trans(origin, before, self.mem(), 79, 10);
            }
        }
        step?;
        let ghost before = self.mem();
        let step = self.init_composite_words();
        proof {
            lemma_extended_trans(origin, before, self.mem(), 3108, COMPOSITE_ROOM as int, 3624);
            lemma_extended_more(origin, self.mem(), 3624, VOCABULARY_ROOM as int);
            if step.is_err() {
                lemma_unfit(origin, before, 3108, COMPOSITE_ROOM as int, VOCABULARY_ROOM as int);
            } else {
                lemma_carry(before, self.mem(), COMPOSITE_ROOM as int, 9);
                lemma_shaped_more(origin, before, self.mem(), 89, 6, COMPOSITE_ROOM as int);
                lemma_newest_trans(origin, before, self.mem(), 89, 6);
            }
        }
        step?;
        Ok(())
    }
}

} // verus!
