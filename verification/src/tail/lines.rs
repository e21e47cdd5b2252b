//! Line-based tail operations.
//!
//! The last `N` lines of a seekable file are found by reading it backwards
//! in blocks ([`LineScanner`]); the last `N` lines of a stream are kept in a
//! ring of lines; lines from a starting line number are passed through by
//! [`LinesFromStart`].

use vstd::prelude::*;

use crate::tail::ring::{last_n, Ring};

verus! {

/// Number of occurrences of the delimiter `d` in `s`.
pub open spec fn count_delims(s: Seq<u8>, d: u8) -> nat
    decreases s.len(),
{
    if s.len() == 0 {
        0
    } else {
        count_delims(s.drop_last(), d) + if s.last() == d {
            1nat
        } else {
            0nat
        }
    }
}

/// `s` without its final delimiter, if it ends with one.
pub open spec fn strip_final(s: Seq<u8>, d: u8) -> Seq<u8> {
    if s.len() > 0 && s.last() == d {
        s.drop_last()
    } else {
        s
    }
}

/// Index in `s` where its last `n` lines begin: scanning `s` from its end,
/// the position just after the `n`-th delimiter met, or 0 when `s` holds
/// fewer than `n` delimiters.
pub open spec fn tail_start(s: Seq<u8>, n: nat, d: u8) -> nat
    decreases s.len(),
{
    if s.len() == 0 {
        0
    } else if s.last() == d {
        if n <= 1 {
            s.len()
        } else {
            tail_start(s.drop_last(), (n - 1) as nat, d)
        }
    } else {
        tail_start(s.drop_last(), n, d)
    }
}

/// The last `n` lines of `content`, as a file prints them: the suffix of
/// the content that starts at the first of those lines, so that it keeps a
/// final delimiter exactly when the content has one. Nothing when `n` is 0
/// or the content is empty.
pub open spec fn last_lines(content: Seq<u8>, n: nat, d: u8) -> Seq<u8> {
    if n == 0 || content.len() == 0 {
        Seq::empty()
    } else {
        content.skip(tail_start(strip_final(content, d), n, d) as int)
    }
}

proof fn lemma_count_concat(a: Seq<u8>, b: Seq<u8>, d: u8)
    ensures
        count_delims(a + b, d) == count_delims(a, d) + count_delims(b, d),
    decreases b.len(),
{
    if b.len() == 0 {
        assert(a + b =~= a);
    } else {
        assert((a + b).drop_last() =~= a + b.drop_last());
        lemma_count_concat(a, b.drop_last(), d);
    }
}

proof fn lemma_tail_start_bound(s: Seq<u8>, n: nat, d: u8)
    ensures
        tail_start(s, n, d) <= s.len(),
    decreases s.len(),
{
    if s.len() > 0 {
        if s.last() == d && n <= 1 {
        } else if s.last() == d {
            lemma_tail_start_bound(s.drop_last(), (n - 1) as nat, d);
        } else {
            lemma_tail_start_bound(s.drop_last(), n, d);
        }
    }
}

/// When `b` holds fewer than `n` delimiters, the scan passes through all of
/// `b` and goes on into `a`, still looking for the lines not yet found.
proof fn lemma_tail_start_short_suffix(a: Seq<u8>, b: Seq<u8>, n: nat, d: u8)
    requires
        count_delims(b, d) < n,
    ensures
        tail_start(a + b, n, d) == tail_start(a, (n - count_delims(b, d)) as nat, d),
    decreases b.len(),
{
    if b.len() == 0 {
        assert(a + b =~= a);
    } else {
        assert((a + b).drop_last() =~= a + b.drop_last());
        assert((a + b).last() == b.last());
        if b.last() == d {
            lemma_tail_start_short_suffix(a, b.drop_last(), (n - 1) as nat, d);
        } else {
            lemma_tail_start_short_suffix(a, b.drop_last(), n, d);
        }
    }
}

/// When `b` holds at least `n` delimiters, the last `n` lines begin in `b`.
proof fn lemma_tail_start_long_suffix(a: Seq<u8>, b: Seq<u8>, n: nat, d: u8)
    requires
        n >= 1,
        count_delims(b, d) >= n,
    ensures
        tail_start(a + b, n, d) == a.len() + tail_start(b, n, d),
    decreases b.len(),
{
    if b.len() == 0 {
    } else {
        assert((a + b).drop_last() =~= a + b.drop_last());
        assert((a + b).last() == b.last());
        if b.last() == d {
            if n > 1 {
                lemma_tail_start_long_suffix(a, b.drop_last(), (n - 1) as nat, d);
            }
        } else {
            lemma_tail_start_long_suffix(a, b.drop_last(), n, d);
        }
    }
}


proof fn lemma_count_prepend(b: u8, x: Seq<u8>, d: u8)
    ensures
        count_delims(seq![b] + x, d) == count_delims(x, d) + if b == d {
            1nat
        } else {
            0nat
        },
{
    lemma_count_concat(seq![b], x, d);
    assert(seq![b].drop_last() =~= Seq::<u8>::empty());
    assert(count_delims(Seq::<u8>::empty(), d) == 0);
}

/// `r` holds the bytes of `s` in reverse order.
pub open spec fn reversed(r: Seq<u8>, s: Seq<u8>) -> bool {
    &&& r.len() == s.len()
    &&& forall|i: int| 0 <= i < s.len() ==> #[trigger] r[i] == s[s.len() - 1 - i]
}

/// Size of the blocks in which a seekable file is read backwards.
pub const BLOCK_SIZE: u64 = 4096;

/// The backward scan of a seekable file for its last lines.
///
/// The file is read from its end towards its start, one block of at most
/// [`BLOCK_SIZE`] bytes at a time ([`LineScanner::next_read`]); each block is
/// handed to [`LineScanner::feed`]. The scan stops as soon as the block that
/// holds the first of the wanted lines has been read, or the start of the
/// file is reached; [`LineScanner::finish`] then gives the bytes to print.
pub struct LineScanner {
    file_size: u64,
    num_lines: usize,
    delimiter: u8,
    chunk_size: u64,
    pos: u64,
    need: usize,
    start: Option<u64>,
    kept_rev: Vec<u8>,
    seen: Ghost<Seq<u8>>,
}

impl LineScanner {
    /// Size of the file being scanned.
    pub closed spec fn file_size(&self) -> nat {
        self.file_size as nat
    }

    /// Number of lines wanted.
    pub closed spec fn num_lines(&self) -> nat {
        self.num_lines as nat
    }

    /// The line delimiter.
    pub closed spec fn delimiter(&self) -> u8 {
        self.delimiter
    }

    /// Offset in the file of the first byte read so far (the file size
    /// before any read).
    pub closed spec fn pos(&self) -> nat {
        self.pos as nat
    }

    /// The bytes read so far: the file's content from `pos()` to its end.
    pub closed spec fn seen(&self) -> Seq<u8> {
        self.seen@
    }

    /// Block size of the scan: `BLOCK_SIZE`, or the file size when smaller.
    pub closed spec fn chunk_size(&self) -> nat {
        self.chunk_size as nat
    }

    /// The scan reads nothing more once no line is wanted, the file is
    /// empty, the start of the file is reached, or the bytes read hold the
    /// first wanted line: when, apart from a final delimiter, they hold at
    /// least `num_lines()` delimiters.
    pub open spec fn is_done(&self) -> bool {
        ||| self.num_lines() == 0
        ||| self.file_size() == 0
        ||| self.pos() == 0
        ||| count_delims(strip_final(self.seen(), self.delimiter()), self.delimiter())
            >= self.num_lines()
    }

    /// Length of the next block: a full block, or what is left before it.
    pub open spec fn read_len(&self) -> nat {
        if self.chunk_size() < self.pos() {
            self.chunk_size()
        } else {
            self.pos()
        }
    }

    pub closed spec fn wf(&self) -> bool {
        let n = self.num_lines as nat;
        let d = self.delimiter;
        let body = strip_final(self.seen@, d);
        &&& self.pos <= self.file_size
        &&& self.seen@.len() == self.file_size - self.pos
        &&& self.chunk_size == if self.file_size < BLOCK_SIZE {
            self.file_size
        } else {
            BLOCK_SIZE
        }
        &&& if self.num_lines == 0 || self.file_size == 0 {
            &&& self.start == Some(self.file_size)
            &&& self.pos == self.file_size
            &&& self.kept_rev@.len() == 0
        } else {
            match self.start {
                None => {
                    &&& count_delims(body, d) + self.need == n
                    &&& self.need >= 1
                    &&& reversed(self.kept_rev@, self.seen@)
                },
                Some(st) => {
                    &&& self.pos <= st <= self.file_size
                    &&& count_delims(body, d) >= n
                    &&& st == self.pos + tail_start(body, n, d)
                    &&& reversed(self.kept_rev@, self.seen@.skip(st - self.pos))
                },
            }
        }
    }

    /// Starts the scan of a file of `file_size` bytes for its last
    /// `num_lines` lines. With no line wanted or an empty file there is
    /// nothing to read.
    pub fn new(file_size: u64, num_lines: usize, delimiter: u8) -> (s: Self)
        ensures
            s.wf(),
            s.file_size() == file_size,
            s.num_lines() == num_lines,
            s.delimiter() == delimiter,
            s.pos() == file_size,
            s.seen() == Seq::<u8>::empty(),
            s.chunk_size() == if file_size < BLOCK_SIZE {
                file_size
            } else {
                BLOCK_SIZE
            },
            s.is_done() <==> (num_lines == 0 || file_size == 0),
    {
        let chunk_size = if file_size < BLOCK_SIZE {
            file_size
        } else {
            BLOCK_SIZE
        };
        let start = if num_lines == 0 || file_size == 0 {
            Some(file_size)
        } else {
            None
        };
        let s = LineScanner {
            file_size,
            num_lines,
            delimiter,
            chunk_size,
            pos: file_size,
            need: num_lines,
            start,
            kept_rev: Vec::new(),
            seen: Ghost(Seq::empty()),
        };
        proof {
            assert(strip_final(Seq::<u8>::empty(), delimiter) =~= Seq::<u8>::empty());
        }
        s
    }

    /// The next block to read, as its offset and length; `None` once the
    /// scan is done.
    pub fn next_read(&self) -> (req: Option<(u64, usize)>)
        requires
            self.wf(),
        ensures
            match req {
                None => self.is_done(),
                Some((offset, len)) => {
                    &&& !self.is_done()
                    &&& len == self.read_len()
                    &&& offset == self.pos() - self.read_len()
                },
            },
    {
        if self.start.is_some() || self.pos == 0 {
            None
        } else {
            let len = if self.chunk_size < self.pos {
                self.chunk_size
            } else {
                self.pos
            };
            Some((self.pos - len, len as usize))
        }
    }

    /// Takes in the block that [`LineScanner::next_read`] asked for: the
    /// `read_len()` bytes of the file that end at `pos()`.
    pub fn feed(&mut self, chunk: &[u8])
        requires
            old(self).wf(),
            !old(self).is_done(),
            chunk@.len() == old(self).read_len(),
        ensures
            final(self).wf(),
            final(self).file_size() == old(self).file_size(),
            final(self).num_lines() == old(self).num_lines(),
            final(self).delimiter() == old(self).delimiter(),
            final(self).chunk_size() == old(self).chunk_size(),
            final(self).pos() == old(self).pos() - chunk@.len(),
            final(self).seen() == chunk@ + old(self).seen(),
    {
        let len = chunk.len();
        let new_pos: u64 = self.pos - len as u64;
        let ghost old_seen = self.seen@;
        let ghost n = self.num_lines as nat;
        let ghost d = self.delimiter;
        let mut j: usize = len;
        assert(chunk@.skip(len as int) + old_seen =~= old_seen);
        while j > 0
            invariant
                0 <= j <= len,
                len == chunk@.len(),
                self.wf(),
                self.file_size == old(self).file_size,
                self.num_lines == old(self).num_lines,
                self.delimiter == old(self).delimiter,
                self.chunk_size == old(self).chunk_size,
                n == self.num_lines,
                d == self.delimiter,
                self.num_lines != 0,
                self.file_size != 0,
                new_pos + len <= self.file_size,
                self.pos == new_pos + j,
                self.seen@ == chunk@.skip(j as int) + old_seen,
            ensures
                j == 0 || self.start is Some,
                self.wf(),
                self.file_size == old(self).file_size,
                self.num_lines == old(self).num_lines,
                self.delimiter == old(self).delimiter,
                self.chunk_size == old(self).chunk_size,
                self.pos == new_pos + j,
                self.seen@ == chunk@.skip(j as int) + old_seen,
            decreases j,
        {
            if self.start.is_some() {
                break ;
            }
            let b = chunk[j - 1];
            let ghost prev = self.seen@;
            let ghost prev_body = strip_final(prev, d);
            let first = self.pos == self.file_size;
            proof {
                lemma_count_prepend(b, prev_body, d);
                if prev.len() > 0 {
                    assert(strip_final(seq![b] + prev, d) =~= seq![b] + prev_body);
                } else {
                    assert(seq![b] + prev =~= seq![b]);
                    assert(seq![b].drop_last() =~= Seq::<u8>::empty());
                }
                assert(chunk@.skip(j - 1) =~= seq![b] + chunk@.skip(j as int));
            }
            if first && b == self.delimiter {
                self.kept_rev.push(b);
            } else if b == self.delimiter && self.need <= 1 {
                self.start = Some(self.pos);
                proof {
                    lemma_tail_start_short_suffix(seq![b], prev_body, n, d);
                    assert(seq![b].drop_last() =~= Seq::<u8>::empty());
                    assert((seq![b] + prev).skip(1) =~= prev);
                }
            } else {
                if b == self.delimiter {
                    self.need = self.need - 1;
                }
                self.kept_rev.push(b);
            }
            self.pos = self.pos - 1;
            self.seen = Ghost(seq![b] + prev);
            j = j - 1;
            assert(self.seen@ =~= chunk@.skip(j as int) + old_seen);
        }
        proof {
            let cur = self.seen@;
            let full = chunk@ + old_seen;
            assert(full =~= chunk@.take(j as int) + cur);
            if j > 0 {
                let st = self.start->0;
                let body = strip_final(cur, d);
                assert(cur.len() > 0);
                assert(strip_final(full, d) =~= chunk@.take(j as int) + body);
                lemma_tail_start_long_suffix(chunk@.take(j as int), body, n, d);
                lemma_count_concat(chunk@.take(j as int), body, d);
                assert(full.skip(st - new_pos) =~= cur.skip(st - self.pos));
            }
        }
        self.pos = new_pos;
        self.seen = Ghost(chunk@ + old_seen);
    }

    /// The bytes to print once the scan is done: the last `num_lines()`
    /// lines of any file content whose end is the bytes read.
    pub fn finish(&self) -> (out: Vec<u8>)
        requires
            self.wf(),
            self.is_done(),
        ensures
            forall|c: Seq<u8>|
                c.len() == self.file_size() && #[trigger] c.skip(self.pos() as int) == self.seen()
                    ==> out@ == last_lines(c, self.num_lines(), self.delimiter()),
    {
        let k = self.kept_rev.len();
        let mut out: Vec<u8> = Vec::new();
        let mut i: usize = k;
        while i > 0
            invariant
                i <= k,
                k == self.kept_rev@.len(),
                out@.len() == k - i,
                forall|t: int| 0 <= t < k - i ==> #[trigger] out@[t] == self.kept_rev@[k - 1 - t],
            decreases i,
        {
            i = i - 1;
            out.push(self.kept_rev[i]);
        }
        proof {
            let n = self.num_lines as nat;
            let d = self.delimiter;
            let seen = self.seen@;
            let body = strip_final(seen, d);
            assert forall|c: Seq<u8>|
                c.len() == self.file_size() && #[trigger] c.skip(self.pos() as int) == self.seen()
                implies out@ == last_lines(c, n, d) by {
                if self.num_lines == 0 || self.file_size == 0 {
                    assert(out@ =~= Seq::<u8>::empty());
                } else {
                    assert(c =~= c.take(self.pos as int) + seen);
                    match self.start {
                        Some(st) => {
                            assert(seen.len() > 0);
                            assert(strip_final(c, d) =~= c.take(self.pos as int) + body);
                            lemma_tail_start_long_suffix(c.take(self.pos as int), body, n, d);
                            assert(out@ =~= seen.skip(st - self.pos));
                            assert(c.skip(st as int) =~= seen.skip(st - self.pos));
                        },
                        None => {
                            assert(self.pos == 0);
                            assert(c =~= seen);
                            assert(Seq::<u8>::empty() + body =~= body);
                            lemma_tail_start_short_suffix(Seq::<u8>::empty(), body, n, d);
                            assert(out@ =~= seen);
                            assert(c.skip(0) =~= c);
                        },
                    }
                }
            }
        }
        out
    }
}


/// Appends the bytes of `src` to `out`.
pub fn append_bytes(out: &mut Vec<u8>, src: &[u8])
    ensures
        final(out)@ == old(out)@ + src@,
{
    let ghost start = out@;
    let mut i: usize = 0;
    while i < src.len()
        invariant
            i <= src@.len(),
            out@ == start + src@.take(i as int),
        decreases src@.len() - i,
    {
        out.push(src[i]);
        i = i + 1;
        assert(out@ =~= start + src@.take(i as int));
    }
    assert(src@.take(src@.len() as int) =~= src@);
}

/// How a stream prints lines: each line followed by the delimiter.
pub open spec fn stream_output(lines: Seq<Seq<u8>>, d: u8) -> Seq<u8>
    decreases lines.len(),
{
    if lines.len() == 0 {
        Seq::empty()
    } else {
        stream_output(lines.drop_last(), d) + lines.last() + seq![d]
    }
}

/// The last lines of a stream, which can only be read forwards: the lines
/// of the stream (as split at the delimiter) are pushed one by one, and the
/// last `num_lines` of them are kept in a ring.
pub struct LastLines {
    ring: Option<Ring<Vec<u8>>>,
    num_lines: usize,
    delimiter: u8,
    lines: Ghost<Seq<Seq<u8>>>,
}

impl LastLines {
    /// Number of lines wanted.
    pub closed spec fn num_lines(&self) -> nat {
        self.num_lines as nat
    }

    /// The line delimiter.
    pub closed spec fn delimiter(&self) -> u8 {
        self.delimiter
    }

    /// Every line pushed so far, in order.
    pub closed spec fn lines(&self) -> Seq<Seq<u8>> {
        self.lines@
    }

    pub closed spec fn wf(&self) -> bool {
        match self.ring {
            None => self.num_lines == 0,
            Some(r) => {
                &&& r.wf()
                &&& r.capacity() == self.num_lines
                &&& r.pushed().len() == self.lines@.len()
                &&& forall|i: int|
                    0 <= i < self.lines@.len() ==> #[trigger] r.pushed()[i]@ == self.lines@[i]
            },
        }
    }

    /// Starts keeping the last `num_lines` lines, split at `delimiter`.
    pub fn new(num_lines: usize, delimiter: u8) -> (s: Self)
        ensures
            s.wf(),
            s.num_lines() == num_lines,
            s.delimiter() == delimiter,
            s.lines() == Seq::<Seq<u8>>::empty(),
    {
        let ring = if num_lines == 0 {
            None
        } else {
            Some(Ring::new(num_lines))
        };
        LastLines { ring, num_lines, delimiter, lines: Ghost(Seq::empty()) }
    }

    /// Takes in the next line of the stream (without its delimiter).
    pub fn push_line(&mut self, line: Vec<u8>)
        requires
            old(self).wf(),
        ensures
            final(self).wf(),
            final(self).num_lines() == old(self).num_lines(),
            final(self).delimiter() == old(self).delimiter(),
            final(self).lines() == old(self).lines().push(line@),
    {
        let ghost lv = line@;
        let ghost new_lines = self.lines@.push(lv);
        match self.ring.as_mut() {
            None => {},
            Some(r) => {
                r.push(line);
            },
        }
        self.lines = Ghost(new_lines);
    }

    /// What the stream prints: each of its last `num_lines()` lines followed
    /// by the delimiter.
    pub fn finish(&self) -> (out: Vec<u8>)
        requires
            self.wf(),
        ensures
            out@ == stream_output(last_n(self.lines(), self.num_lines()), self.delimiter()),
    {
        let mut out: Vec<u8> = Vec::new();
        match &self.ring {
            None => {
                assert(last_n(self.lines@, 0) =~= Seq::<Seq<u8>>::empty());
            },
            Some(r) => {
                let ghost held = last_n(self.lines@, self.num_lines as nat);
                let ghost pushed = r.pushed();
                proof {
                    assert(held.len() == r@.len());
                    assert forall|i: int| 0 <= i < held.len() implies #[trigger] r@[i]@ == held[i] by {
                        if pushed.len() > r.capacity() {
                            assert(r@[i] == pushed[pushed.len() - r.capacity() + i]);
                        }
                    }
                }
                let len = r.len();
                let mut i: usize = 0;
                while i < len
                    invariant
                        r.wf(),
                        len == r@.len(),
                        len == held.len(),
                        i <= len,
                        forall|k: int| 0 <= k < held.len() ==> #[trigger] r@[k]@ == held[k],
                        out@ == stream_output(held.take(i as int), self.delimiter),
                    decreases len - i,
                {
                    let line = r.get(i);
                    append_bytes(&mut out, line.as_slice());
                    out.push(self.delimiter);
                    i = i + 1;
                    assert(held.take(i as int).drop_last() =~= held.take(i - 1));
                }
                assert(held.take(len as int) =~= held);
            },
        }
        out
    }
}

/// Number of leading items passed over when output starts at item number
/// `start` (counted from 1; 0 is taken as 1).
pub open spec fn skip_count(start: nat) -> nat {
    if start > 0 {
        (start - 1) as nat
    } else {
        0
    }
}

/// Number of leading lines or bytes skipped for a start number (counted
/// from 1): `start - 1`, and 0 for a start of 0.
pub fn items_to_skip(start: usize) -> (n: usize)
    ensures
        n == skip_count(start as nat),
{
    if start > 0 {
        start - 1
    } else {
        0
    }
}

/// Lines from a starting line number: the lines of the stream are pushed
/// one by one, and each returns the bytes to print for it at once.
pub struct LinesFromStart {
    skip: usize,
    skipped: usize,
    first: bool,
    delimiter: u8,
    lines: Ghost<Seq<Seq<u8>>>,
    printed: Ghost<Seq<u8>>,
}

/// The lines of `lines` after the first `k` (none when there are no more).
pub open spec fn lines_after(lines: Seq<Seq<u8>>, k: nat) -> Seq<Seq<u8>> {
    if lines.len() <= k {
        Seq::empty()
    } else {
        lines.skip(k as int)
    }
}

impl LinesFromStart {
    /// Everything returned by [`LinesFromStart::push_line`] so far.
    pub closed spec fn printed(&self) -> Seq<u8> {
        self.printed@
    }

    /// The line delimiter.
    pub closed spec fn delimiter(&self) -> u8 {
        self.delimiter
    }

    /// Number of leading lines passed over.
    pub closed spec fn skip(&self) -> nat {
        self.skip as nat
    }

    /// Every line pushed so far, in order.
    pub closed spec fn lines(&self) -> Seq<Seq<u8>> {
        self.lines@
    }

    /// Whether no line has been printed yet: no line after the skipped
    /// ones has come.
    pub open spec fn nothing_printed(&self) -> bool {
        self.lines().len() <= self.skip()
    }

    pub closed spec fn wf(&self) -> bool {
        &&& self.skipped <= self.skip
        &&& self.skipped <= self.lines@.len()
        &&& (self.skipped < self.skip ==> self.lines@.len() == self.skipped && self.first)
        &&& (self.skipped == self.skip ==> (self.first <==> self.lines@.len() <= self.skip))
        &&& self.printed@ + (if self.first {
            Seq::<u8>::empty()
        } else {
            seq![self.delimiter]
        }) == stream_output(lines_after(self.lines@, self.skip as nat), self.delimiter)
    }

    /// Output from line number `start_line` on (counted from 1), the lines
    /// split at `delimiter`.
    pub fn new(start_line: usize, delimiter: u8) -> (s: Self)
        ensures
            s.wf(),
            s.skip() == skip_count(start_line as nat),
            s.delimiter() == delimiter,
            s.lines() == Seq::<Seq<u8>>::empty(),
            s.printed() == Seq::<u8>::empty(),
    {
        let skip = items_to_skip(start_line);
        let s = LinesFromStart {
            skip,
            skipped: 0,
            first: true,
            delimiter,
            lines: Ghost(Seq::empty()),
            printed: Ghost(Seq::empty()),
        };
        assert(s.printed@ + Seq::<u8>::empty() =~= Seq::<u8>::empty());
        s
    }

    /// Takes in the next line (without its delimiter) and gives the bytes
    /// to print now: nothing for a skipped line, the line itself for the
    /// first printed one, and a delimiter then the line for the others.
    pub fn push_line(&mut self, line: &[u8]) -> (out: Vec<u8>)
        requires
            old(self).wf(),
        ensures
            final(self).wf(),
            final(self).skip() == old(self).skip(),
            final(self).delimiter() == old(self).delimiter(),
            final(self).lines() == old(self).lines().push(line@),
            final(self).printed() == old(self).printed() + out@,
            out@ == if old(self).lines().len() < old(self).skip() {
                Seq::<u8>::empty()
            } else if old(self).nothing_printed() {
                line@
            } else {
                seq![old(self).delimiter()] + line@
            },
    {
        let ghost new_lines = self.lines@.push(line@);
        let ghost old_rest = lines_after(self.lines@, self.skip as nat);
        let ghost d = self.delimiter;
        let mut out: Vec<u8> = Vec::new();
        if self.skipped < self.skip {
            self.skipped = self.skipped + 1;
            proof {
                assert(lines_after(new_lines, self.skip as nat) =~= Seq::<Seq<u8>>::empty());
            }
        } else {
            if !self.first {
                out.push(self.delimiter);
            }
            let ghost before = out@;
            append_bytes(&mut out, line);
            self.first = false;
            assert(before.len() == 0 ==> out@ =~= line@);
            proof {
                let new_rest = lines_after(new_lines, self.skip as nat);
                assert(new_rest =~= old_rest.push(line@));
                assert(new_rest.drop_last() =~= old_rest);
                if old_rest.len() == 0 {
                    assert(stream_output(old_rest, d) =~= Seq::<u8>::empty());
                }
            }
        }
        let ghost new_printed = self.printed@ + out@;
        self.lines = Ghost(new_lines);
        self.printed = Ghost(new_printed);
        proof {
            let new_rest = lines_after(new_lines, self.skip as nat);
            if !self.first {
                assert(new_printed + seq![d] =~= stream_output(new_rest, d));
            } else {
                assert(new_printed + Seq::<u8>::empty() =~= self.printed@);
            }
        }
        out
    }

    /// The bytes to print at the end: a final delimiter when any line was
    /// printed. With what was printed before, every line from the starting
    /// one on, each followed by the delimiter.
    pub fn finish(&self) -> (out: Vec<u8>)
        requires
            self.wf(),
        ensures
            self.printed() + out@ == stream_output(
                lines_after(self.lines(), self.skip()),
                self.delimiter(),
            ),
            out@ == if self.nothing_printed() {
                Seq::<u8>::empty()
            } else {
                seq![self.delimiter()]
            },
    {
        let mut out: Vec<u8> = Vec::new();
        if !self.first {
            out.push(self.delimiter);
        }
        out
    }
}


/// The pieces of `s` between delimiters, as splitting a slice at each
/// delimiter gives them: one more piece than there are delimiters.
pub open spec fn pieces(s: Seq<u8>, d: u8) -> Seq<Seq<u8>>
    decreases s.len(),
{
    if s.len() == 0 {
        seq![Seq::<u8>::empty()]
    } else if s.last() == d {
        pieces(s.drop_last(), d).push(Seq::empty())
    } else {
        let p = pieces(s.drop_last(), d);
        p.update(p.len() - 1, p.last().push(s.last()))
    }
}

/// The lines that reading a stream up to each delimiter gives: none for an
/// empty stream, and no empty line after a final delimiter.
pub open spec fn stream_lines(content: Seq<u8>, d: u8) -> Seq<Seq<u8>> {
    if content.len() == 0 {
        Seq::empty()
    } else {
        pieces(strip_final(content, d), d)
    }
}

proof fn lemma_pieces_nonempty(s: Seq<u8>, d: u8)
    ensures
        pieces(s, d).len() >= 1,
    decreases s.len(),
{
    if s.len() > 0 {
        lemma_pieces_nonempty(s.drop_last(), d);
    }
}

proof fn lemma_stream_output_single(x: Seq<u8>, d: u8)
    ensures
        stream_output(seq![x], d) == x + seq![d],
{
    assert(seq![x].drop_last() =~= Seq::<Seq<u8>>::empty());
    assert(seq![x].last() == x);
    assert(stream_output(Seq::<Seq<u8>>::empty(), d) =~= Seq::<u8>::empty());
    assert(Seq::<u8>::empty() + x + seq![d] =~= x + seq![d]);
}

proof fn lemma_last_lines_of_pieces(s: Seq<u8>, n: nat, d: u8)
    requires
        n >= 1,
    ensures
        stream_output(last_n(pieces(s, d), n), d) == s.skip(tail_start(s, n, d) as int) + seq![d],
    decreases s.len(),
{
    let p = pieces(s, d);
    lemma_pieces_nonempty(s, d);
    lemma_tail_start_bound(s, n, d);
    if s.len() == 0 {
        assert(last_n(p, n) =~= seq![Seq::<u8>::empty()]);
        lemma_stream_output_single(Seq::<u8>::empty(), d);
        assert(s.skip(0) =~= Seq::<u8>::empty());
        assert(Seq::<u8>::empty() + seq![d] =~= seq![d]);
    } else {
        let s1 = s.drop_last();
        let p1 = pieces(s1, d);
        lemma_pieces_nonempty(s1, d);
        if s.last() == d {
            if n == 1 {
                assert(last_n(p, 1) =~= seq![Seq::<u8>::empty()]);
                lemma_stream_output_single(Seq::<u8>::empty(), d);
                assert(s.skip(s.len() as int) =~= Seq::<u8>::empty());
                assert(Seq::<u8>::empty() + seq![d] =~= seq![d]);
            } else {
                let m = (n - 1) as nat;
                lemma_last_lines_of_pieces(s1, m, d);
                lemma_tail_start_bound(s1, m, d);
                let x = last_n(p1, m);
                assert(last_n(p, n) =~= x.push(Seq::<u8>::empty()));
                assert(x.push(Seq::<u8>::empty()).drop_last() =~= x);
                let t = tail_start(s1, m, d) as int;
                assert(s.skip(t) =~= s1.skip(t) + seq![d]);
                assert(stream_output(x, d) + Seq::<u8>::empty() + seq![d] =~= s1.skip(t) + seq![d]
                    + seq![d]);
            }
        } else {
            lemma_last_lines_of_pieces(s1, n, d);
            lemma_tail_start_bound(s1, n, d);
            let x = last_n(p1, n);
            let b = s.last();
            let y = last_n(p, n);
            assert(y =~= x.update(x.len() - 1, x.last().push(b)));
            assert(y.drop_last() =~= x.drop_last());
            let t = tail_start(s1, n, d) as int;
            assert(stream_output(x, d) == stream_output(x.drop_last(), d) + x.last() + seq![d]);
            assert(stream_output(x.drop_last(), d) + x.last() =~= s1.skip(t)) by {
                assert((stream_output(x.drop_last(), d) + x.last()) + seq![d] =~= s1.skip(t)
                    + seq![d]);
                assert((stream_output(x.drop_last(), d) + x.last()) =~= (
                stream_output(x.drop_last(), d) + x.last() + seq![d]).drop_last());
                assert(s1.skip(t) =~= (s1.skip(t) + seq![d]).drop_last());
            }
            assert(s.skip(t) =~= s1.skip(t).push(b));
            assert(stream_output(y, d) =~= s.skip(t) + seq![d]);
        }
    }
}

/// The last lines of a stream are the last lines of a file with the same
/// content, except that the stream always ends its output with a delimiter:
/// the two agree on every content that ends with the delimiter, and on
/// another content the stream prints one delimiter more.
pub proof fn law_stream_and_file_agree(content: Seq<u8>, n: nat, d: u8)
    ensures
        stream_output(last_n(stream_lines(content, d), n), d) == if n == 0 || content.len() == 0
            || content.last() == d {
            last_lines(content, n, d)
        } else {
            last_lines(content, n, d) + seq![d]
        },
{
    if content.len() == 0 {
        assert(last_n(Seq::<Seq<u8>>::empty(), n) =~= Seq::<Seq<u8>>::empty());
    } else if n == 0 {
        assert(last_n(stream_lines(content, d), 0) =~= Seq::<Seq<u8>>::empty());
    } else {
        let body = strip_final(content, d);
        lemma_last_lines_of_pieces(body, n, d);
        lemma_tail_start_bound(body, n, d);
        let t = tail_start(body, n, d) as int;
        if content.last() == d {
            assert(content.skip(t) =~= body.skip(t) + seq![d]);
        }
    }
}

/// The last `n` lines are a suffix of the content that starts at the start
/// of a line, and hold `n` lines, or every line when there are fewer: the
/// part before a final delimiter holds `n - 1` delimiters, or all of them.
pub proof fn law_last_lines_shape(content: Seq<u8>, n: nat, d: u8)
    requires
        n >= 1,
        content.len() > 0,
    ensures
        ({
            let out = last_lines(content, n, d);
            let k = content.len() - out.len();
            let all = count_delims(strip_final(content, d), d);
            &&& out.len() >= 1
            &&& out == content.skip(k)
            &&& (k == 0 || content[k - 1] == d)
            &&& count_delims(strip_final(out, d), d) == if all < n {
                all
            } else {
                (n - 1) as nat
            }
        }),
{
    let body = strip_final(content, d);
    lemma_tail_start_bound(body, n, d);
    lemma_tail_start_shape(body, n, d);
    let t = tail_start(body, n, d) as int;
    let out = content.skip(t);
    if content.last() == d {
        assert(strip_final(out, d) =~= body.skip(t));
    } else {
        assert(out =~= body.skip(t));
    }
}

proof fn lemma_tail_start_shape(s: Seq<u8>, n: nat, d: u8)
    requires
        n >= 1,
    ensures
        tail_start(s, n, d) <= s.len(),
        tail_start(s, n, d) == 0 || s[tail_start(s, n, d) - 1] == d,
        count_delims(s.skip(tail_start(s, n, d) as int), d) == if count_delims(s, d) < n {
            count_delims(s, d)
        } else {
            (n - 1) as nat
        },
    decreases s.len(),
{
    lemma_tail_start_bound(s, n, d);
    if s.len() == 0 {
        assert(s.skip(0) =~= s);
    } else {
        let s1 = s.drop_last();
        if s.last() == d && n <= 1 {
            assert(s.skip(s.len() as int) =~= Seq::<u8>::empty());
            assert(count_delims(Seq::<u8>::empty(), d) == 0);
        } else {
            let m = if s.last() == d {
                (n - 1) as nat
            } else {
                n
            };
            lemma_tail_start_shape(s1, m, d);
            let t = tail_start(s1, m, d) as int;
            assert(s.skip(t).drop_last() =~= s1.skip(t));
            assert(s.skip(t).last() == s.last());
        }
    }
}


/// Starting at line 1 (or 0) prints every line, each followed by the
/// delimiter.
pub proof fn law_lines_from_first_line(lines: Seq<Seq<u8>>, start: nat, d: u8)
    requires
        start <= 1,
    ensures
        stream_output(lines_after(lines, skip_count(start)), d) == stream_output(lines, d),
{
    if lines.len() > 0 {
        assert(lines.skip(0) =~= lines);
    }
}


proof fn lemma_tail_start_antitone(s: Seq<u8>, n1: nat, n2: nat, d: u8)
    requires
        1 <= n1 <= n2,
    ensures
        tail_start(s, n2, d) <= tail_start(s, n1, d),
    decreases s.len(),
{
    if s.len() > 0 {
        if s.last() == d {
            if n1 <= 1 {
                lemma_tail_start_bound(s, n2, d);
            } else {
                lemma_tail_start_antitone(s.drop_last(), (n1 - 1) as nat, (n2 - 1) as nat, d);
            }
        } else {
            lemma_tail_start_antitone(s.drop_last(), n1, n2, d);
        }
    }
}

proof fn lemma_tail_start_before_end(s: Seq<u8>, n: nat, d: u8)
    requires
        s.len() > 0,
        s.last() != d,
    ensures
        tail_start(s, n, d) < s.len(),
{
    lemma_tail_start_bound(s.drop_last(), n, d);
}

/// The last lines for a smaller count are the end of those for a larger
/// count, and all of them are the end of the file; once the count exceeds
/// the number of delimiters (not counting a final one), the whole file is
/// printed; and a non-empty file always prints something for a count of
/// at least one.
pub proof fn law_last_lines_nested(content: Seq<u8>, n1: nat, n2: nat, d: u8)
    requires
        n1 <= n2,
    ensures
        ({
            let o1 = last_lines(content, n1, d);
            let o2 = last_lines(content, n2, d);
            &&& o2.len() <= content.len()
            &&& o2 == content.skip(content.len() - o2.len())
            &&& o1.len() <= o2.len()
            &&& o1 == o2.skip(o2.len() - o1.len())
            &&& (n2 >= 1 + count_delims(strip_final(content, d), d) ==> o2 == content)
            &&& (n2 >= 1 && content.len() > 0 ==> o2.len() > 0)
        }),
{
    let body = strip_final(content, d);
    let o1 = last_lines(content, n1, d);
    let o2 = last_lines(content, n2, d);
    if content.len() == 0 {
        assert(o2 =~= content);
        assert(o1 =~= o2.skip(0));
    } else if n2 == 0 {
        assert(o2 =~= content.skip(content.len() as int));
        assert(o1 =~= o2.skip(0));
    } else {
        let t2 = tail_start(body, n2, d) as int;
        lemma_tail_start_bound(body, n2, d);
        assert(o2 =~= content.skip(content.len() - o2.len()));
        if n1 == 0 {
            assert(o1 =~= o2.skip(o2.len() as int));
        } else {
            let t1 = tail_start(body, n1, d) as int;
            lemma_tail_start_bound(body, n1, d);
            lemma_tail_start_antitone(body, n1, n2, d);
            assert(o1 =~= o2.skip(t1 - t2));
        }
        if n2 >= 1 + count_delims(body, d) {
            assert(Seq::<u8>::empty() + body =~= body);
            lemma_tail_start_short_suffix(Seq::<u8>::empty(), body, n2, d);
            assert(content.skip(0) =~= content);
        }
        if content.last() != d {
            lemma_tail_start_before_end(content, n2, d);
        }
    }
}

/// Lines from line number `s` on are the last `L - s + 1` of the `L`
/// lines, and print the same.
pub proof fn law_from_start_is_last_lines(lines: Seq<Seq<u8>>, s: nat, d: u8)
    requires
        1 <= s <= lines.len(),
    ensures
        lines_after(lines, skip_count(s)) == last_n(lines, (lines.len() - s + 1) as nat),
        stream_output(lines_after(lines, skip_count(s)), d) == stream_output(
            last_n(lines, (lines.len() - s + 1) as nat),
            d,
        ),
{
    if s == 1 {
        assert(lines.skip(0) =~= lines);
    }
}

} // verus!
