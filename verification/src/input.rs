//! The word-level input interface: the input line buffer in the arena, and
//! the words that read characters and tokens from it, pulling a fresh line
//! from the current input stream when the buffer is exhausted.

use vstd::prelude::*;
use vstd::string::StringSliceAdditionalSpecFns;
use crate::cells::{
    cell_at, in_bounds, lemma_cell_apart, lemma_cell_round_trip, store_byte, store_bytes,
    store_cell,
};
use crate::forthvm::ForthVM;
use crate::input_stream::{
    in_stream_from_stdin, in_stream_read_piece, lemma_line_bound, piece_len, stream_pending,
    InputStream,
    stream_terminal, MAX_LINE, NEWLINE,
};
use crate::mmap;

verus! {

/// The byte that starts a comment, which runs to the end of its line.
pub const BACKSLASH: u8 = 92;

/// The address of the input line buffer: one length byte, then the line.
pub open spec fn buffer_of(mem: Seq<u8>) -> int {
    cell_at(mem, mmap::INPUT_BUFFER as int)
}

/// The count of the bytes of the input line that were read.
pub open spec fn buffer_in(mem: Seq<u8>) -> int {
    cell_at(mem, mmap::INPUT_BUFFER_IN as int)
}

/// The input line buffer lies in the arena, above the register file, with
/// room for the longest line, and its read count is not negative.
pub open spec fn input_ok(mem: Seq<u8>) -> bool {
    &&& mmap::DICT <= buffer_of(mem)
    &&& buffer_of(mem) + 1 + MAX_LINE <= mem.len()
    &&& 0 <= buffer_in(mem)
}

/// The bytes of the input line that were not read yet.
pub open spec fn buffered(mem: Seq<u8>) -> Seq<u8> {
    let buf = buffer_of(mem);
    if buffer_in(mem) < mem[buf] {
        mem.subrange(buf + 1 + buffer_in(mem), buf + 1 + mem[buf])
    } else {
        Seq::empty()
    }
}

/// The arena after `line`, of at most `MAX_LINE` bytes, was made the input
/// line, with nothing read yet.
pub open spec fn filled(mem: Seq<u8>, line: Seq<u8>) -> Seq<u8> {
    let buf = buffer_of(mem);
    store_cell(
        store_bytes(store_byte(mem, buf, line.len() as u8), buf + 1, line),
        mmap::INPUT_BUFFER_IN as int,
        0,
    )
}

/// A line that fits the buffer is all unread after it was filled in, and
/// nothing outside the buffer and its read count has changed.
pub proof fn lemma_filled(mem: Seq<u8>, line: Seq<u8>)
    requires
        mmap::DICT <= buffer_of(mem),
        buffer_of(mem) + 1 + MAX_LINE <= mem.len() <= i32::MAX,
        line.len() <= MAX_LINE,
    ensures
        filled(mem, line).len() == mem.len(),
        input_ok(filled(mem, line)),
        buffer_of(filled(mem, line)) == buffer_of(mem),
        buffer_in(filled(mem, line)) == 0,
        buffered(filled(mem, line)) == line,
        forall|i: int|
            0 <= i < mem.len() && !(buffer_of(mem) <= i < buffer_of(mem) + 1 + line.len()) && !(
            mmap::INPUT_BUFFER_IN <= i < mmap::INPUT_BUFFER_IN + 4) ==> filled(mem, line)[i]
                == mem[i],
{
    let buf = buffer_of(mem);
    let m1 = store_byte(mem, buf, line.len() as u8);
    let m2 = store_bytes(m1, buf + 1, line);
    lemma_cell_round_trip(m2, mmap::INPUT_BUFFER_IN as int, 0);
    let post = filled(mem, line);
    assert(cell_at(post, mmap::INPUT_BUFFER as int) == cell_at(mem, mmap::INPUT_BUFFER as int));
    assert(post[buf] == line.len());
    assert(buffered(post) =~= line);
}

/// Reading one byte of the input line leaves the rest of it unread.
pub proof fn lemma_advanced(mem: Seq<u8>)
    requires
        input_ok(mem),
        mem.len() <= i32::MAX,
        buffered(mem).len() > 0,
    ensures
        ({
            let post = store_cell(mem, mmap::INPUT_BUFFER_IN as int, buffer_in(mem) + 1);
            &&& input_ok(post)
            &&& buffer_of(post) == buffer_of(mem)
            &&& buffered(post) == buffered(mem).skip(1)
            &&& buffered(mem)[0] == mem[buffer_of(mem) + 1 + buffer_in(mem)]
        }),
{
    let post = store_cell(mem, mmap::INPUT_BUFFER_IN as int, buffer_in(mem) + 1);
    lemma_cell_round_trip(mem, mmap::INPUT_BUFFER_IN as int, buffer_in(mem) + 1);
    assert(cell_at(post, mmap::INPUT_BUFFER as int) == cell_at(mem, mmap::INPUT_BUFFER as int));
    assert(buffered(post) =~= buffered(mem).skip(1));
}

/// All the input that is at hand: the unread rest of the input line, then
/// what is pending in the current input stream.
pub open spec fn pending(mem: Seq<u8>, slot: Option<InputStream>) -> Seq<u8> {
    buffered(mem) + stream_pending(slot)
}

/// Whether `post` is `pre` but for the input line buffer and its read count.
pub open spec fn same_but_input(pre: Seq<u8>, post: Seq<u8>) -> bool {
    &&& post.len() == pre.len()
    &&& forall|i: int|
        0 <= i < pre.len() && !(buffer_of(pre) <= i < buffer_of(pre) + 1 + MAX_LINE) && !(
        mmap::INPUT_BUFFER_IN <= i < mmap::INPUT_BUFFER_IN + 4) ==> post[i] == pre[i]
}

/// How reading one byte uses the input line and the stream. Where the line
/// holds unread bytes, its read count moves by one, and neither another byte
/// of the arena nor the stream changes. Where the line is exhausted and the
/// stream holds bytes, the first line of the stream, cut to `MAX_LINE`
/// bytes, becomes the input line, of which one byte is read, and the stream
/// keeps what follows.
#[verifier::opaque]
pub open spec fn line_step(
    pre: Seq<u8>,
    before: Option<InputStream>,
    post: Seq<u8>,
    after: Option<InputStream>,
) -> bool {
    &&& buffered(pre).len() > 0 ==> {
        &&& post == store_cell(pre, mmap::INPUT_BUFFER_IN as int, buffer_in(pre) + 1)
        &&& after == before
    }
    &&& buffered(pre).len() == 0 && stream_pending(before).len() > 0 ==> {
        let n = piece_len(stream_pending(before), MAX_LINE as int);
        &&& post == store_cell(
            filled(pre, stream_pending(before).take(n)),
            mmap::INPUT_BUFFER_IN as int,
            1,
        )
        &&& stream_pending(after) == stream_pending(before).skip(n)
    }
}

/// Whether the byte `c` separates tokens: a space, a tab, a newline, a form
/// feed or a carriage return.
pub open spec fn is_space(c: u8) -> bool {
    c == 32 || c == 9 || c == 10 || c == 12 || c == 13
}

/// The number of bytes of `p` that lie before the first byte of its first
/// token: separators, and comments, each from a backslash to the end of its
/// line. `in_comment` says that `p` starts inside a comment. Where `p` holds
/// no token, it is the length of `p`.
pub open spec fn skipped(p: Seq<u8>, in_comment: bool) -> nat
    decreases p.len(),
{
    if p.len() == 0 {
        0
    } else if in_comment {
        1 + skipped(p.skip(1), p[0] != NEWLINE)
    } else if is_space(p[0]) {
        1 + skipped(p.skip(1), false)
    } else if p[0] == BACKSLASH {
        1 + skipped(p.skip(1), true)
    } else {
        0
    }
}

/// The number of bytes of `p` before its first separator.
pub open spec fn token_len(p: Seq<u8>) -> nat
    decreases p.len(),
{
    if p.len() == 0 || is_space(p[0]) {
        0
    } else {
        1 + token_len(p.skip(1))
    }
}

/// The address of the scratch area that `word` collects a token into.
pub open spec fn scratch_of(mem: Seq<u8>) -> int {
    cell_at(mem, mmap::IN_STREAM as int)
}

/// The number of bytes that a token can have: the scratch area ends where
/// the input line buffer starts.
pub open spec fn scratch_room(mem: Seq<u8>) -> int {
    buffer_of(mem) - scratch_of(mem)
}

/// The scratch area lies above the register file and below the input line
/// buffer, which is in order.
pub open spec fn token_ok(mem: Seq<u8>) -> bool {
    &&& input_ok(mem)
    &&& mmap::DICT <= scratch_of(mem) <= buffer_of(mem)
}

/// Whether `post` is `pre` but for the input line buffer, its read count and
/// the first `n` bytes of the scratch area.
pub open spec fn same_but_token(pre: Seq<u8>, post: Seq<u8>, n: int) -> bool {
    &&& post.len() == pre.len()
    &&& forall|i: int|
        0 <= i < pre.len() && !(buffer_of(pre) <= i < buffer_of(pre) + 1 + MAX_LINE) && !(
        mmap::INPUT_BUFFER_IN <= i < mmap::INPUT_BUFFER_IN + 4) && !(scratch_of(pre) <= i
            < scratch_of(pre) + n) ==> post[i] == pre[i]
}

/// What looking for the next token gave.
#[derive(Debug, Clone, Copy, PartialEq, Eq)]
pub enum WordOutcome {
    /// A token of `len` bytes, stored at `addr`.
    Token { len: i32, addr: i32 },
    /// The input at hand holds no token.
    Exhausted,
    /// The token does not fit the scratch area.
    TooLong,
}

/// What reading a token from the input `p` with the arena `pre` gives: the
/// outcome `r`, the arena `post` and the input `rest` that is left.
pub open spec fn word_read(
    pre: Seq<u8>,
    p: Seq<u8>,
    post: Seq<u8>,
    rest: Seq<u8>,
    r: WordOutcome,
) -> bool {
    let s = skipped(p, false) as int;
    let t = token_len(p.skip(s)) as int;
    let end = if s + t < p.len() {
        s + t + 1
    } else {
        p.len() as int
    };
    match r {
        WordOutcome::Exhausted => {
            &&& s == p.len()
            &&& rest.len() == 0
            &&& same_but_input(pre, post)
        },
        WordOutcome::TooLong => {
            &&& s < p.len()
            &&& t > scratch_room(pre)
            &&& rest == p.skip(end)
            &&& same_but_token(pre, post, scratch_room(pre))
            &&& post.subrange(scratch_of(pre), scratch_of(pre) + scratch_room(pre)) == p.subrange(
                s,
                s + scratch_room(pre),
            )
        },
        WordOutcome::Token { len, addr } => {
            &&& s < p.len()
            &&& t <= scratch_room(pre)
            &&& len == t
            &&& addr == scratch_of(pre)
            &&& rest == p.skip(end)
            &&& same_but_token(pre, post, t)
            &&& post.subrange(addr as int, addr + t) == p.subrange(s, s + t)
        },
    }
}

/// Whether the input `p` ends before the separator that would end its
/// first token, so that reading the token runs out of input.
pub open spec fn runs_out(p: Seq<u8>) -> bool {
    skipped(p, false) + token_len(p.skip(skipped(p, false) as int)) >= p.len()
}

/// The byte at which skipping stops starts a token: it is neither a
/// separator nor a backslash.
pub proof fn lemma_skipped_stop(p: Seq<u8>, in_comment: bool)
    ensures
        skipped(p, in_comment) < p.len() ==> !is_space(p[skipped(p, in_comment) as int]) && p[skipped(
            p,
            in_comment,
        ) as int] != BACKSLASH,
    decreases p.len(),
{
    if p.len() > 0 {
        let q = p.skip(1);
        if in_comment {
            lemma_skipped_stop(q, p[0] != NEWLINE);
            lemma_skipped_bound(q, p[0] != NEWLINE);
            let n = skipped(q, p[0] != NEWLINE) as int;
            if n < q.len() {
                assert(q[n] == p[n + 1]);
            }
        } else if is_space(p[0]) {
            lemma_skipped_stop(q, false);
            let n = skipped(q, false) as int;
            if n < q.len() {
                assert(q[n] == p[n + 1]);
            }
        } else if p[0] == BACKSLASH {
            lemma_skipped_stop(q, true);
            let n = skipped(q, true) as int;
            if n < q.len() {
                assert(q[n] == p[n + 1]);
            }
        }
    }
}

/// At most as many bytes are skipped as there are.
pub proof fn lemma_skipped_bound(p: Seq<u8>, in_comment: bool)
    ensures
        skipped(p, in_comment) <= p.len(),
    decreases p.len(),
{
    if p.len() > 0 {
        if in_comment {
            lemma_skipped_bound(p.skip(1), p[0] != NEWLINE);
        } else if is_space(p[0]) {
            lemma_skipped_bound(p.skip(1), false);
        } else if p[0] == BACKSLASH {
            lemma_skipped_bound(p.skip(1), true);
        }
    }
}

/// A token is no longer than the text that it starts.
pub proof fn lemma_token_bound(p: Seq<u8>)
    ensures
        token_len(p) <= p.len(),
    decreases p.len(),
{
    if p.len() > 0 && !is_space(p[0]) {
        lemma_token_bound(p.skip(1));
    }
}

impl ForthVM {
    /// Makes the bytes of `s`, at most `MAX_LINE` of them, the input line,
    /// with nothing read yet.
    pub fn fill_input_buffer(&mut self, s: &str)
        requires
            old(self).wf(),
            s.spec_bytes().len() <= MAX_LINE,
            in_bounds(
                old(self).mem().len(),
                buffer_of(old(self).mem()),
                1 + s.spec_bytes().len() as int,
            ),
        ensures
            final(self).wf(),
            final(self).mem() == filled(old(self).mem(), s.spec_bytes()),
            final(self).names() == old(self).names(),
    {
        self.fill_input_bytes(s.as_bytes());
    }

    /// Makes `line` the input line, with nothing read yet.
    pub fn fill_input_bytes(&mut self, line: &[u8])
        requires
            old(self).wf(),
            line@.len() <= MAX_LINE,
            in_bounds(old(self).mem().len(), buffer_of(old(self).mem()), 1 + line@.len() as int),
        ensures
            final(self).wf(),
            final(self).mem() == filled(old(self).mem(), line@),
            final(self).names() == old(self).names(),
    {
        let input_buf: i32 = self.read_i32(72);
        let len: usize = line.len();
        self.write_u8(len as u8, input_buf);
        self.write(input_buf as usize + 1, line);
        self.write_i32(0, 76);
    }

    /// Reads the next byte of the input line, if one is left.
    pub fn read_next_char(&mut self) -> (r: Option<u8>)
        requires
            old(self).wf(),
            input_ok(old(self).mem()),
        ensures
            final(self).wf(),
            input_ok(final(self).mem()),
            final(self).names() == old(self).names(),
            match r {
                Some(c) => {
                    &&& buffered(old(self).mem()).len() > 0
                    &&& c == buffered(old(self).mem())[0]
                    &&& buffered(final(self).mem()) == buffered(old(self).mem()).skip(1)
                    &&& final(self).mem() == store_cell(
                        old(self).mem(),
                        mmap::INPUT_BUFFER_IN as int,
                        buffer_in(old(self).mem()) + 1,
                    )
                },
                None => {
                    &&& buffered(old(self).mem()).len() == 0
                    &&& final(self).mem() == old(self).mem()
                },
            },
    {
        let input_buffer: i32 = self.read_i32(72);
        let input_buffer_in: i32 = self.read_i32(76);
        let len: u8 = self.read_u8(input_buffer);
        if len == 0 || input_buffer_in >= len as i32 {
            return None;
        }
        proof {
            lemma_advanced(self.mem());
        }
        let c: u8 = self.read_u8(input_buffer + input_buffer_in + 1);
        self.write_i32(input_buffer_in + 1, 76);
        Some(c)
    }

    /// Reads the next byte of input: from the input line, which moves its
    /// read count by one and leaves the stream alone; or, where the line is
    /// exhausted, from a fresh line of the current input stream, of which the
    /// input line buffer takes the first `MAX_LINE` bytes and leaves the rest
    /// pending. Where the stream has no line either, the standard input
    /// becomes the current input stream, and no byte is returned.
    pub fn next_key(&mut self, input: &mut Option<InputStream>, terminal: bool) -> (r: Option<u8>)
        requires
            old(self).wf(),
            input_ok(old(self).mem()),
        ensures
            final(self).wf(),
            input_ok(final(self).mem()),
            final(self).names() == old(self).names(),
            same_but_input(old(self).mem(), final(self).mem()),
            line_step(old(self).mem(), *old(input), final(self).mem(), *final(input)),
            match r {
                Some(c) => {
                    &&& pending(old(self).mem(), *old(input)).len() > 0
                    &&& c == pending(old(self).mem(), *old(input))[0]
                    &&& pending(final(self).mem(), *final(input)) == pending(
                        old(self).mem(),
                        *old(input),
                    ).skip(1)
                    &&& stream_terminal(*final(input)) == stream_terminal(*old(input))
                    &&& final(input).is_some() == old(input).is_some()
                },
                None => {
                    &&& pending(old(self).mem(), *old(input)).len() == 0
                    &&& pending(final(self).mem(), *final(input)).len() == 0
                    &&& final(self).mem() == old(self).mem()
                    &&& final(input).is_some()
                    &&& stream_terminal(*final(input)) == terminal
                },
            },
    {
        let ghost pre = self.mem();
        let ghost sp = stream_pending(*input);
        proof {
            reveal(line_step);
            lemma_line_bound(sp);
        }
        match self.read_next_char() {
            Some(c) => {
                assert(pending(pre, *input)[0] == buffered(pre)[0]);
                assert(pending(self.mem(), *input) =~= pending(pre, *input).skip(1));
                assert(cell_at(self.mem(), mmap::INPUT_BUFFER as int) == buffer_of(pre));
                Some(c)
            },
            None => {
                let mut line: Vec<u8> = Vec::new();
                let n: usize = in_stream_read_piece(input, &mut line, MAX_LINE);
                if n == 0 {
                    in_stream_from_stdin(input, terminal);
                    return None;
                }
                assert(line@ =~= sp.take(n as int));
                proof {
                    lemma_filled(pre, line@);
                }
                self.fill_input_bytes(line.as_slice());
                let ghost mid = self.mem();
                proof {
                    assert(pending(mid, *input) =~= pending(pre, *old(input)));
                }
                let r = self.read_next_char();
                proof {
                    assert(pending(self.mem(), *input) =~= pending(pre, *old(input)).skip(1));
                    assert(cell_at(self.mem(), mmap::INPUT_BUFFER as int) == buffer_of(pre));
                }
                r
            },
        }
    }

    /// Reads the next byte of input. Where none is at hand, the standard
    /// input becomes the current input stream and a newline is returned.
    pub fn key(&mut self, input: &mut Option<InputStream>, terminal: bool) -> (c: u8)
        requires
            old(self).wf(),
            input_ok(old(self).mem()),
        ensures
            final(self).wf(),
            input_ok(final(self).mem()),
            final(self).names() == old(self).names(),
            same_but_input(old(self).mem(), final(self).mem()),
            line_step(old(self).mem(), *old(input), final(self).mem(), *final(input)),
            pending(old(self).mem(), *old(input)).len() > 0 ==> {
                &&& c == pending(old(self).mem(), *old(input))[0]
                &&& pending(final(self).mem(), *final(input)) == pending(
                    old(self).mem(),
                    *old(input),
                ).skip(1)
                &&& stream_terminal(*final(input)) == stream_terminal(*old(input))
                &&& final(input).is_some() == old(input).is_some()
            },
            pending(old(self).mem(), *old(input)).len() == 0 ==> {
                &&& c == NEWLINE
                &&& pending(final(self).mem(), *final(input)).len() == 0
                &&& final(self).mem() == old(self).mem()
                &&& final(input).is_some()
                &&& stream_terminal(*final(input)) == terminal
            },
    {
        match self.next_key(input, terminal) {
            Some(c) => c,
            None => NEWLINE,
        }
    }

    /// Reads input up to the first byte of the next token and returns that
    /// byte: skips separators, and comments, each from a backslash to the
    /// end of its line. Returns nothing where the input at hand holds no
    /// token; the standard input is then the current input stream.
    pub fn skip_white_space(&mut self, input: &mut Option<InputStream>, terminal: bool) -> (r:
        Option<u8>)
        requires
            old(self).wf(),
            input_ok(old(self).mem()),
        ensures
            final(self).wf(),
            input_ok(final(self).mem()),
            final(self).names() == old(self).names(),
            same_but_input(old(self).mem(), final(self).mem()),
            match r {
                Some(c) => {
                    let p = pending(old(self).mem(), *old(input));
                    let s = skipped(p, false) as int;
                    &&& s < p.len()
                    &&& c == p[s]
                    &&& pending(final(self).mem(), *final(input)) == p.skip(s + 1)
                    &&& stream_terminal(*final(input)) == stream_terminal(*old(input))
                    &&& final(input).is_some() == old(input).is_some()
                },
                None => {
                    let p = pending(old(self).mem(), *old(input));
                    &&& skipped(p, false) == p.len()
                    &&& pending(final(self).mem(), *final(input)).len() == 0
                    &&& final(input).is_some()
                    &&& stream_terminal(*final(input)) == terminal
                },
            },
    {
        let ghost pre = self.mem();
        let ghost p = pending(pre, *input);
        let ghost mut k: int = 0;
        let mut in_comment: bool = false;
        assert(p.skip(0) =~= p);
        loop
            invariant
                self.wf(),
                input_ok(self.mem()),
                self.names() == old(self).names(),
                same_but_input(pre, self.mem()),
                buffer_of(self.mem()) == buffer_of(pre),
                pre == old(self).mem(),
                p == pending(pre, *old(input)),
                0 <= k <= p.len(),
                pending(self.mem(), *input) == p.skip(k),
                skipped(p, false) == k + skipped(p.skip(k), in_comment),
                stream_terminal(*input) == stream_terminal(*old(input)),
                input.is_some() == old(input).is_some(),
            decreases p.len() - k,
        {
            let ghost q = p.skip(k);
            let ghost mid = self.mem();
            match self.next_key(input, terminal) {
                None => {
                    return None;
                },
                Some(c) => {
                    proof {
                        assert(q[0] == p[k]);
                        assert(q.skip(1) =~= p.skip(k + 1));
                        assert(cell_at(self.mem(), mmap::INPUT_BUFFER as int) == cell_at(
                            mid,
                            mmap::INPUT_BUFFER as int,
                        ));
                    }
                    if in_comment {
                        if c == NEWLINE {
                            in_comment = false;
                        }
                    } else if c == 32 || c == 9 || c == 10 || c == 12 || c == 13 {
                    } else if c == BACKSLASH {
                        in_comment = true;
                    } else {
                        return Some(c);
                    }
                    proof {
                        k = k + 1;
                    }
                },
            }
        }
    }

    /// Reads the next token: skips what lies before it, then collects its
    /// bytes in the scratch area, up to and without the separator that ends
    /// it, which is read too. Where the input at hand ends before a
    /// separator, the token ends there, and the standard input is then the
    /// current input stream.
    pub fn word(&mut self, input: &mut Option<InputStream>, terminal: bool) -> (r: WordOutcome)
        requires
            old(self).wf(),
            token_ok(old(self).mem()),
        ensures
            final(self).wf(),
            token_ok(final(self).mem()),
            final(self).names() == old(self).names(),
            word_read(
                old(self).mem(),
                pending(old(self).mem(), *old(input)),
                final(self).mem(),
                pending(final(self).mem(), *final(input)),
                r,
            ),
            if runs_out(pending(old(self).mem(), *old(input))) {
                final(input).is_some() && stream_terminal(*final(input)) == terminal
            } else {
                stream_terminal(*final(input)) == stream_terminal(*old(input)) && final(
                    input
                ).is_some() == old(input).is_some()
            },
    {
        let ghost pre = self.mem();
        let ghost p = pending(pre, *input);
        let ghost s = skipped(p, false) as int;
        let first: u8 = match self.skip_white_space(input, terminal) {
            None => {
                return WordOutcome::Exhausted;
            },
            Some(c) => c,
        };
        let buf_ptr: i32 = self.read_i32(56);
        let room: i32 = self.read_i32(72) - buf_ptr;
        let mut len: i32 = 0;
        let mut too_long: bool = false;
        let mut c: u8 = first;
        let ghost mut j: int = 0;
        proof {
            assert(p.skip(s).skip(0) =~= p.skip(s));
            assert(self.mem().subrange(buf_ptr as int, buf_ptr + 0) =~= p.subrange(s, s + 0));
        }
        proof {
            lemma_skipped_stop(p, false);
        }
        loop
            invariant_except_break
                s + j < p.len(),
                c == p[s + j],
                !is_space(c),
                too_long == (j > room),
                pending(self.mem(), *input) == p.skip(s + j + 1),
                token_len(p.skip(s)) == j + token_len(p.skip(s + j)),
                stream_terminal(*input) == stream_terminal(*old(input)),
                input.is_some() == old(input).is_some(),
            invariant
                self.wf(),
                token_ok(self.mem()),
                self.names() == old(self).names(),
                pre == old(self).mem(),
                p == pending(pre, *old(input)),
                token_ok(pre),
                same_but_token(pre, self.mem(), len as int),
                buffer_of(self.mem()) == buffer_of(pre),
                scratch_of(self.mem()) == scratch_of(pre),
                buf_ptr == scratch_of(pre),
                room == scratch_room(pre),
                s == skipped(p, false),
                0 <= j,
                s + j <= p.len(),
                0 <= len <= room,
                len == if j <= room {
                    j
                } else {
                    room as int
                },
                self.mem().subrange(buf_ptr as int, buf_ptr + len) == p.subrange(s, s + len),
            ensures
                j >= 1,
                too_long == (j > room),
                token_len(p.skip(s)) == j,
                pending(self.mem(), *input) == p.skip(
                    if s + j < p.len() {
                        s + j + 1
                    } else {
                        p.len() as int
                    },
                ),
                if s + j >= p.len() {
                    input.is_some() && stream_terminal(*input) == terminal
                } else {
                    stream_terminal(*input) == stream_terminal(*old(input)) && input.is_some()
                        == old(input).is_some()
                },
            decreases p.len() - s - j,
        {
            let ghost before = self.mem();
            if len < room {
                self.write_u8(c, buf_ptr + len);
                proof {
                    let m = self.mem();
                    lemma_cell_apart(before, buf_ptr + len, seq![c], mmap::INPUT_BUFFER as int);
                    lemma_cell_apart(before, buf_ptr + len, seq![c], mmap::INPUT_BUFFER_IN as int);
                    lemma_cell_apart(before, buf_ptr + len, seq![c], mmap::IN_STREAM as int);
                    assert(buffered(m) =~= buffered(before));
                    assert(m.subrange(buf_ptr as int, buf_ptr + len + 1) =~= p.subrange(
                        s,
                        s + len + 1,
                    ));
                }
                len = len + 1;
            } else {
                too_long = true;
            }
            proof {
                assert(p.skip(s + j)[0] == p[s + j]);
                assert(p.skip(s + j).skip(1) =~= p.skip(s + j + 1));
                j = j + 1;
            }
            let ghost mid = self.mem();
            proof {
                assert(pending(mid, *input) == p.skip(s + j));
            }
            match self.next_key(input, terminal) {
                None => {
                    proof {
                        assert(s + j == p.len());
                        assert(token_len(p.skip(s + j)) == 0);
                        assert(pending(self.mem(), *input) =~= p.skip(p.len() as int));
                    }
                    break ;
                },
                Some(n) => {
                    proof {
                        assert(p.skip(s + j)[0] == p[s + j]);
                        assert(p.skip(s + j).skip(1) =~= p.skip(s + j + 1));
                        assert(cell_at(self.mem(), mmap::INPUT_BUFFER as int) == cell_at(
                            mid,
                            mmap::INPUT_BUFFER as int,
                        ));
                        assert(cell_at(self.mem(), mmap::IN_STREAM as int) == cell_at(
                            mid,
                            mmap::IN_STREAM as int,
                        ));
                        assert(self.mem().subrange(buf_ptr as int, buf_ptr + len) =~= mid.subrange(
                            buf_ptr as int,
                            buf_ptr + len,
                        ));
                    }
                    if n == 32 || n == 9 || n == 10 || n == 12 || n == 13 {
                        proof {
                            assert(token_len(p.skip(s + j)) == 0);
                        }
                        break ;
                    }
                    c = n;
                },
            }
        }
        if too_long {
            WordOutcome::TooLong
        } else {
            WordOutcome::Token { len, addr: buf_ptr }
        }
    }
}

} // verus!
