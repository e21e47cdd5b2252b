//! Byte-based tail operations: the last `N` bytes of a seekable file (where
//! to start reading), of a stream (a ring of bytes), and the bytes from a
//! starting byte number.

use vstd::prelude::*;

use crate::tail::lines::{items_to_skip, skip_count};
use crate::tail::ring::{last_n, Ring};

verus! {

/// The last `n` bytes of `content` (all of it when it is shorter).
pub open spec fn last_bytes(content: Seq<u8>, n: nat) -> Seq<u8> {
    if content.len() <= n {
        content
    } else {
        content.skip(content.len() - n)
    }
}

/// The bytes of `content` from the `k`-th on (nothing when it is shorter).
pub open spec fn bytes_after(content: Seq<u8>, k: nat) -> Seq<u8> {
    if content.len() <= k {
        Seq::empty()
    } else {
        content.skip(k as int)
    }
}

/// Offset at which a seekable file of `file_size` bytes is read to print
/// its last `num_bytes` bytes: `num_bytes` before its end, or its start
/// when it is shorter. At the end of the file (nothing to print) when
/// `num_bytes` is 0.
pub fn last_bytes_offset(file_size: u64, num_bytes: usize) -> (offset: u64)
    ensures
        offset == file_size - if (num_bytes as nat) < (file_size as nat) {
            num_bytes as nat
        } else {
            file_size as nat
        },
        forall|c: Seq<u8>|
            #![trigger last_bytes(c, num_bytes as nat)]
            c.len() == file_size ==> c.skip(offset as int) == last_bytes(c, num_bytes as nat),
{
    let count: u64 = if (num_bytes as u64) < file_size {
        num_bytes as u64
    } else {
        file_size
    };
    let offset = file_size - count;
    assert forall|c: Seq<u8>|
        #![trigger last_bytes(c, num_bytes as nat)]
        c.len() == file_size implies c.skip(offset as int) == last_bytes(c, num_bytes as nat) by {
        if c.len() <= num_bytes {
            assert(c.skip(0) =~= c);
        }
    }
    offset
}

/// The last bytes of a stream, which can only be read forwards: its bytes
/// are pushed block by block, and the last `num_bytes` of them are kept in
/// a ring.
pub struct LastBytes {
    ring: Option<Ring<u8>>,
    num_bytes: usize,
    bytes: Ghost<Seq<u8>>,
}

impl LastBytes {
    /// Number of bytes wanted.
    pub closed spec fn num_bytes(&self) -> nat {
        self.num_bytes as nat
    }

    /// Every byte pushed so far, in order.
    pub closed spec fn bytes(&self) -> Seq<u8> {
        self.bytes@
    }

    pub closed spec fn wf(&self) -> bool {
        match self.ring {
            None => self.num_bytes == 0,
            Some(r) => {
                &&& r.wf()
                &&& r.capacity() == self.num_bytes
                &&& r.pushed() == self.bytes@
            },
        }
    }

    /// Starts keeping the last `num_bytes` bytes.
    pub fn new(num_bytes: usize) -> (s: Self)
        ensures
            s.wf(),
            s.num_bytes() == num_bytes,
            s.bytes() == Seq::<u8>::empty(),
    {
        let ring = if num_bytes == 0 {
            None
        } else {
            Some(Ring::new(num_bytes))
        };
        LastBytes { ring, num_bytes, bytes: Ghost(Seq::empty()) }
    }

    /// Takes in the next block of the stream.
    pub fn push_bytes(&mut self, block: &[u8])
        requires
            old(self).wf(),
        ensures
            final(self).wf(),
            final(self).num_bytes() == old(self).num_bytes(),
            final(self).bytes() == old(self).bytes() + block@,
    {
        let ghost start = self.bytes@;
        match self.ring.as_mut() {
            None => {},
            Some(r) => {
                let mut i: usize = 0;
                while i < block.len()
                    invariant
                        i <= block@.len(),
                        r.wf(),
                        r.capacity() == old(self).num_bytes,
                        r.pushed() == start + block@.take(i as int),
                    decreases block@.len() - i,
                {
                    r.push(block[i]);
                    i = i + 1;
                    assert(r.pushed() =~= start + block@.take(i as int));
                }
                assert(block@.take(block@.len() as int) =~= block@);
            },
        }
        self.bytes = Ghost(start + block@);
    }

    /// What the stream prints: its last `num_bytes()` bytes.
    pub fn finish(&self) -> (out: Vec<u8>)
        requires
            self.wf(),
        ensures
            out@ == last_bytes(self.bytes(), self.num_bytes()),
    {
        let mut out: Vec<u8> = Vec::new();
        match &self.ring {
            None => {
                assert(last_bytes(self.bytes@, 0) =~= Seq::<u8>::empty()) by {
                    if self.bytes@.len() > 0 {
                        assert(self.bytes@.skip(self.bytes@.len() as int) =~= Seq::<u8>::empty());
                    }
                }
            },
            Some(r) => {
                let len = r.len();
                let mut i: usize = 0;
                while i < len
                    invariant
                        r.wf(),
                        len == r@.len(),
                        i <= len,
                        out@ == r@.take(i as int),
                    decreases len - i,
                {
                    let b = *r.get(i);
                    out.push(b);
                    i = i + 1;
                    assert(out@ =~= r@.take(i as int));
                }
                assert(r@.take(len as int) =~= r@);
            },
        }
        out
    }
}

/// Bytes from a starting byte number: the stream is read block by block,
/// and for each block [`BytesFromStart::feed`] tells from where in it to
/// print.
pub struct BytesFromStart {
    skip: usize,
    remaining: usize,
    bytes: Ghost<Seq<u8>>,
    printed: Ghost<Seq<u8>>,
}

impl BytesFromStart {
    /// Number of leading bytes passed over.
    pub closed spec fn skip(&self) -> nat {
        self.skip as nat
    }

    /// Every byte fed so far, in order.
    pub closed spec fn bytes(&self) -> Seq<u8> {
        self.bytes@
    }

    /// The bytes printed so far.
    pub closed spec fn printed(&self) -> Seq<u8> {
        self.printed@
    }

    pub closed spec fn wf(&self) -> bool {
        &&& self.remaining <= self.skip
        &&& self.bytes@.len() < self.skip ==> self.remaining == self.skip - self.bytes@.len()
        &&& self.bytes@.len() >= self.skip ==> self.remaining == 0
        &&& self.printed@ == bytes_after(self.bytes@, self.skip as nat)
    }

    /// Output from byte number `start_byte` on (counted from 1).
    pub fn new(start_byte: usize) -> (s: Self)
        ensures
            s.wf(),
            s.skip() == skip_count(start_byte as nat),
            s.bytes() == Seq::<u8>::empty(),
            s.printed() == Seq::<u8>::empty(),
    {
        let skip = items_to_skip(start_byte);
        BytesFromStart { skip, remaining: skip, bytes: Ghost(Seq::empty()), printed: Ghost(Seq::empty()) }
    }

    /// Takes in the next block and gives the index in it from which its
    /// bytes are printed; everything printed so far is then the bytes fed
    /// after the first `skip()`.
    pub fn feed(&mut self, block: &[u8]) -> (from: usize)
        requires
            old(self).wf(),
        ensures
            final(self).wf(),
            final(self).skip() == old(self).skip(),
            final(self).bytes() == old(self).bytes() + block@,
            final(self).printed() == old(self).printed() + block@.skip(from as int),
            final(self).printed() == bytes_after(final(self).bytes(), final(self).skip()),
            from <= block@.len(),
    {
        let n = block.len();
        let from = if self.remaining < n {
            self.remaining
        } else {
            n
        };
        self.remaining = self.remaining - from;
        let ghost all = self.bytes@ + block@;
        let ghost k = self.skip as nat;
        proof {
            if all.len() > k {
                if self.bytes@.len() >= k {
                    assert(all.skip(k as int) =~= self.printed@ + block@.skip(from as int));
                } else {
                    assert(all.skip(k as int) =~= block@.skip(from as int));
                    assert(self.printed@ =~= Seq::<u8>::empty());
                }
            } else {
                assert(block@.skip(from as int) =~= Seq::<u8>::empty());
            }
        }
        self.printed = Ghost(self.printed@ + block@.skip(from as int));
        self.bytes = Ghost(all);
        from
    }
}


/// The last `n` bytes are the suffix of the content of length `n`, or the
/// whole content when it is shorter; a stream keeps exactly them (as
/// [`LastBytes`] does) and a file prints from [`last_bytes_offset`].
pub proof fn law_last_bytes_suffix(content: Seq<u8>, n: nat)
    ensures
        last_bytes(content, n).len() == if content.len() <= n {
            content.len()
        } else {
            n
        },
        last_bytes(content, n) == content.skip(content.len() - last_bytes(content, n).len()),
        last_bytes(content, n) == last_n(content, n),
{
    if content.len() <= n {
        assert(content.skip(0) =~= content);
    }
}

/// Starting at byte 1 (or 0) prints every byte.
pub proof fn law_bytes_from_first_byte(content: Seq<u8>, start: nat)
    requires
        start <= 1,
    ensures
        bytes_after(content, skip_count(start)) == content,
{
    if content.len() > 0 {
        assert(content.skip(0) =~= content);
    }
}


/// Bytes from byte number `k + 1` on: all but the first `k` bytes, in
/// order, so that more content only adds to the end of what is printed.
pub proof fn law_bytes_after_drops_first(content: Seq<u8>, more: Seq<u8>, k: nat)
    ensures
        bytes_after(content, k).len() == if content.len() <= k {
            0
        } else {
            content.len() - k
        },
        forall|i: int|
            0 <= i < bytes_after(content, k).len() ==> #[trigger] bytes_after(content, k)[i]
                == content[k + i],
        content.len() >= k ==> bytes_after(content + more, k) == bytes_after(content, k) + more,
{
    if content.len() >= k {
        if content.len() == k {
            assert((content + more).len() <= k ==> more.len() == 0);
            if more.len() > 0 {
                assert((content + more).skip(k as int) =~= Seq::<u8>::empty() + more);
            } else {
                assert(content + more =~= content);
            }
        } else {
            assert((content + more).skip(k as int) =~= content.skip(k as int) + more);
        }
    }
}

} // verus!
