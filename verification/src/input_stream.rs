//! The line-oriented source that the runtime reads its text from. A stream
//! holds the bytes that its source has delivered and that were not read yet;
//! whoever owns the source feeds them in.

use vstd::prelude::*;

verus! {

/// The byte that ends a line.
pub const NEWLINE: u8 = 10;

/// The most bytes of a line that the input line buffer takes at once: what
/// its length byte can count.
pub const MAX_LINE: usize = 255;

/// The number of bytes of the first line of `p`: those up to and including
/// the first newline, all of `p` where it holds none.
pub open spec fn line_len(p: Seq<u8>) -> nat
    decreases p.len(),
{
    if p.len() == 0 {
        0
    } else if p[0] == NEWLINE {
        1
    } else {
        1 + line_len(p.skip(1))
    }
}

/// The number of bytes of the first line of `p`, cut to `limit`.
pub open spec fn piece_len(p: Seq<u8>, limit: int) -> int {
    if line_len(p) <= limit {
        line_len(p) as int
    } else {
        limit
    }
}

/// A source of input lines.
pub struct InputStream {
    data: Vec<u8>,
    pos: usize,
    is_terminal: bool,
}

/// What a stream is to its readers.
pub struct InputView {
    /// The bytes that were delivered and not read yet.
    pub pending: Seq<u8>,
    /// Whether the source is an interactive terminal.
    pub terminal: bool,
}

impl View for InputStream {
    type V = InputView;

    closed spec fn view(&self) -> InputView {
        InputView {
            pending: if self.pos <= self.data@.len() {
                self.data@.skip(self.pos as int)
            } else {
                Seq::empty()
            },
            terminal: self.is_terminal,
        }
    }
}

impl InputStream {
    /// A stream over the contents of a file.
    pub fn from_file(contents: Vec<u8>) -> (r: Self)
        ensures
            r@.pending == contents@,
            !r@.terminal,
    {
        let r = InputStream { data: contents, pos: 0, is_terminal: false };
        assert(r@.pending =~= contents@);
        r
    }

    /// A stream over the standard input, of which nothing was delivered yet.
    pub fn from_stdin(is_terminal: bool) -> (r: Self)
        ensures
            r@.pending == Seq::<u8>::empty(),
            r@.terminal == is_terminal,
    {
        let r = InputStream { data: Vec::new(), pos: 0, is_terminal };
        assert(r@.pending =~= Seq::<u8>::empty());
        r
    }

    /// Notes that the source has delivered `bytes`.
    pub fn feed(&mut self, bytes: &[u8])
        ensures
            final(self)@.pending == old(self)@.pending + bytes@,
            final(self)@.terminal == old(self)@.terminal,
    {
        if self.pos >= self.data.len() {
            self.data = Vec::new();
            self.pos = 0;
        }
        let ghost before = self.data@;
        let n: usize = bytes.len();
        let mut k: usize = 0;
        assert(old(self)@.pending =~= before.skip(self.pos as int));
        while k < n
            invariant
                n == bytes@.len(),
                k <= n,
                self.pos <= before.len(),
                old(self)@.pending == before.skip(self.pos as int),
                self.is_terminal == old(self).is_terminal,
                self.data@ == before + bytes@.take(k as int),
            decreases n - k,
        {
            self.data.push(bytes[k]);
            assert(self.data@ =~= before + bytes@.take(k + 1));
            k = k + 1;
        }
        assert(bytes@.take(n as int) =~= bytes@);
        assert(self@.pending =~= old(self)@.pending + bytes@);
    }

    /// Reads one line: appends its bytes to `s` and returns their count, 0
    /// where nothing is pending.
    pub fn read_line(&mut self, s: &mut Vec<u8>) -> (n: usize)
        ensures
            n == line_len(old(self)@.pending),
            final(s)@ == old(s)@ + old(self)@.pending.take(n as int),
            final(self)@.pending == old(self)@.pending.skip(n as int),
            final(self)@.terminal == old(self)@.terminal,
    {
        proof {
            lemma_line_bound(self@.pending);
        }
        let limit: usize = self.data.len();
        self.read_piece(s, limit)
    }

    /// Reads the first `limit` bytes of one line, or all of it where it has
    /// no more: appends them to `s` and returns their count.
    pub fn read_piece(&mut self, s: &mut Vec<u8>, limit: usize) -> (n: usize)
        ensures
            n == piece_len(old(self)@.pending, limit as int),
            final(s)@ == old(s)@ + old(self)@.pending.take(n as int),
            final(self)@.pending == old(self)@.pending.skip(n as int),
            final(self)@.terminal == old(self)@.terminal,
    {
        let total: usize = self.data.len();
        if self.pos >= total {
            assert(old(self)@.pending.take(0) =~= Seq::<u8>::empty());
            assert(old(s)@ + Seq::<u8>::empty() =~= old(s)@);
            assert(old(self)@.pending.skip(0) =~= old(self)@.pending);
            return 0;
        }
        let ghost p = self@.pending;
        let start: usize = self.pos;
        let mut n: usize = 0;
        let mut done: bool = false;
        while !done && n < limit && start + n < total
            invariant
                total == self.data@.len(),
                start == self.pos,
                self.pos == old(self).pos,
                self.data@ == old(self).data@,
                self.is_terminal == old(self).is_terminal,
                start < total,
                n <= limit,
                start + n <= total,
                p == self.data@.skip(start as int),
                s@ == old(s)@ + p.take(n as int),
                done ==> n > 0 && p[n - 1] == NEWLINE,
                forall|j: int| 0 <= j < n - (if done { 1int } else { 0int }) ==> p[j] != NEWLINE,
            decreases (if done { 0int } else { 1int }), total - start - n,
        {
            let c: u8 = self.data[start + n];
            assert(p[n as int] == c);
            s.push(c);
            assert(s@ =~= old(s)@ + p.take(n + 1));
            n = n + 1;
            if c == NEWLINE {
                done = true;
            }
        }
        proof {
            lemma_line_len(p, n as int, done);
        }
        self.pos = start + n;
        assert(self@.pending =~= p.skip(n as int));
        n
    }

    /// Whether bytes are pending.
    pub fn has_pending(&self) -> (r: bool)
        ensures
            r == (self@.pending.len() > 0),
    {
        self.pos < self.data.len()
    }

    /// Whether the source is an interactive terminal.
    pub fn is_terminal(&self) -> (r: bool)
        ensures
            r == self@.terminal,
    {
        self.is_terminal
    }
}

/// A line is no longer than the text that it starts, and it is empty only
/// where the text is.
pub proof fn lemma_line_bound(p: Seq<u8>)
    ensures
        line_len(p) <= p.len(),
        p.len() > 0 ==> line_len(p) > 0,
    decreases p.len(),
{
    if p.len() > 0 && p[0] != NEWLINE {
        lemma_line_bound(p.skip(1));
    }
}

/// The first `n` bytes of a text are its first line where the last of them
/// is its first newline; where they hold no newline, the line has at least
/// `n` bytes, and just `n` where they are the whole text.
pub proof fn lemma_line_len(p: Seq<u8>, n: int, done: bool)
    requires
        0 <= n <= p.len(),
        done ==> n > 0 && p[n - 1] == NEWLINE,
        forall|j: int| 0 <= j < n - (if done { 1int } else { 0int }) ==> p[j] != NEWLINE,
    ensures
        done ==> line_len(p) == n,
        !done ==> line_len(p) >= n,
        !done && n == p.len() ==> line_len(p) == n,
    decreases p.len(),
{
    if p.len() > 0 && n > 0 {
        if p[0] == NEWLINE {
            assert(n == 1 && done) by {
                if n > 1 || !done {
                    assert(p[0] != NEWLINE);
                }
            }
        } else {
            let q = p.skip(1);
            assert forall|j: int|
                0 <= j < (n - 1) - (if done { 1int } else { 0int }) implies q[j] != NEWLINE by {
                assert(q[j] == p[j + 1]);
            }
            if done {
                assert(n >= 2);
                assert(q[n - 2] == p[n - 1]);
            }
            lemma_line_len(q, n - 1, done);
        }
    }
}

/// The bytes that are pending in the current input stream, none where there
/// is no stream.
pub open spec fn stream_pending(slot: Option<InputStream>) -> Seq<u8> {
    match slot {
        Some(stream) => stream@.pending,
        None => Seq::empty(),
    }
}

/// Whether the current input stream is an interactive terminal.
pub open spec fn stream_terminal(slot: Option<InputStream>) -> bool {
    match slot {
        Some(stream) => stream@.terminal,
        None => false,
    }
}

/// Makes the standard input the current input stream.
pub fn in_stream_from_stdin(slot: &mut Option<InputStream>, is_terminal: bool)
    ensures
        final(slot).is_some(),
        stream_pending(*final(slot)) == Seq::<u8>::empty(),
        stream_terminal(*final(slot)) == is_terminal,
{
    *slot = Some(InputStream::from_stdin(is_terminal));
}

/// Makes a file with the given contents the current input stream.
pub fn in_steam_from_file(slot: &mut Option<InputStream>, contents: Vec<u8>)
    ensures
        final(slot).is_some(),
        stream_pending(*final(slot)) == contents@,
        !stream_terminal(*final(slot)),
{
    *slot = Some(InputStream::from_file(contents));
}

/// Whether the current input stream is an interactive terminal; it is none
/// where there is no stream.
pub fn in_stream_is_terminal(slot: &Option<InputStream>) -> (r: bool)
    ensures
        r == stream_terminal(*slot),
{
    match slot {
        Some(stream) => stream.is_terminal(),
        None => false,
    }
}

/// Reads one line from the current input stream: appends its bytes to `s`
/// and returns their count, 0 where nothing is pending or there is no
/// stream.
pub fn in_stream_read_line(slot: &mut Option<InputStream>, s: &mut Vec<u8>) -> (n: usize)
    ensures
        n == line_len(stream_pending(*old(slot))),
        final(s)@ == old(s)@ + stream_pending(*old(slot)).take(n as int),
        stream_pending(*final(slot)) == stream_pending(*old(slot)).skip(n as int),
        stream_terminal(*final(slot)) == stream_terminal(*old(slot)),
        final(slot).is_some() == old(slot).is_some(),
{
    match slot {
        Some(stream) => stream.read_line(s),
        None => {
            assert(Seq::<u8>::empty().take(0) =~= Seq::<u8>::empty());
            assert(old(s)@ + Seq::<u8>::empty() =~= old(s)@);
            assert(Seq::<u8>::empty().skip(0) =~= Seq::<u8>::empty());
            0
        },
    }
}

/// Reads the first `limit` bytes of one line from the current input stream,
/// or all of the line where it has no more: appends them to `s` and returns
/// their count, 0 where nothing is pending or there is no stream.
pub fn in_stream_read_piece(slot: &mut Option<InputStream>, s: &mut Vec<u8>, limit: usize) -> (n:
    usize)
    ensures
        n == piece_len(stream_pending(*old(slot)), limit as int),
        final(s)@ == old(s)@ + stream_pending(*old(slot)).take(n as int),
        stream_pending(*final(slot)) == stream_pending(*old(slot)).skip(n as int),
        stream_terminal(*final(slot)) == stream_terminal(*old(slot)),
        final(slot).is_some() == old(slot).is_some(),
{
    match slot {
        Some(stream) => stream.read_piece(s, limit),
        None => {
            assert(Seq::<u8>::empty().take(0) =~= Seq::<u8>::empty());
            assert(old(s)@ + Seq::<u8>::empty() =~= old(s)@);
            assert(Seq::<u8>::empty().skip(0) =~= Seq::<u8>::empty());
            0
        },
    }
}

} // verus!
