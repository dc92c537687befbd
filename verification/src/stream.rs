//! A forward-only byte source with one-token lookahead: a cursor over an
//! in-memory buffer. The decoder consumes it destructively and leaves it
//! positioned just past the parsed document.

use vstd::prelude::*;

verus! {

pub struct ByteStream {
    data: Vec<u8>,
    pos: usize,
}

impl ByteStream {
    /// The cursor never points past the end of the buffer.
    pub closed spec fn inv(self) -> bool {
        self.pos <= self.data@.len()
    }

    /// Every byte the stream was built over.
    pub closed spec fn all_bytes(self) -> Seq<u8> {
        self.data@
    }

    /// How many bytes have been consumed.
    pub closed spec fn position(self) -> int {
        self.pos as int
    }

    /// The bytes not yet consumed.
    pub open spec fn remaining(self) -> Seq<u8> {
        self.all_bytes().subrange(self.position(), self.all_bytes().len() as int)
    }

    /// The cursor sits inside the buffer, and the unconsumed part is what
    /// lies from it to the end.
    pub proof fn lemma_bounds(self)
        requires
            self.inv(),
        ensures
            0 <= self.position() <= self.all_bytes().len(),
            self.remaining().len() == self.all_bytes().len() - self.position(),
    {
    }

    /// Consuming bytes drops a prefix of what remained.
    pub proof fn lemma_advance(self, later: Self)
        requires
            self.inv(),
            later.inv(),
            self.all_bytes() == later.all_bytes(),
            self.position() <= later.position(),
        ensures
            later.remaining() == self.remaining().subrange(
                later.position() - self.position(),
                self.remaining().len() as int,
            ),
    {
        assert(later.remaining() =~= self.remaining().subrange(
            later.position() - self.position(),
            self.remaining().len() as int,
        ));
    }

    pub fn new(data: Vec<u8>) -> (s: Self)
        ensures
            s.inv(),
            s.all_bytes() == data@,
            s.position() == 0,
            s.remaining() == data@,
    {
        let s = ByteStream { data, pos: 0 };
        proof {
            assert(s.remaining() =~= s.data@);
        }
        s
    }

    /// One-token lookahead: the next byte, not consumed.
    pub fn peek(&self) -> (r: Option<u8>)
        requires
            self.inv(),
        ensures
            match r {
                Some(b) => self.remaining().len() > 0 && b == self.remaining()[0],
                None => self.remaining().len() == 0,
            },
    {
        if self.pos < self.data.len() {
            Some(self.data[self.pos])
        } else {
            None
        }
    }

    /// Consume and return the next byte; `None` once the source is
    /// exhausted, which leaves the stream unchanged.
    pub fn next(&mut self) -> (r: Option<u8>)
        requires
            old(self).inv(),
        ensures
            final(self).inv(),
            final(self).all_bytes() == old(self).all_bytes(),
            match r {
                Some(b) => {
                    &&& old(self).remaining().len() > 0
                    &&& b == old(self).remaining()[0]
                    &&& final(self).position() == old(self).position() + 1
                },
                None => old(self).remaining().len() == 0 && *final(self) == *old(self),
            },
    {
        if self.pos < self.data.len() {
            let b = self.data[self.pos];
            self.pos = self.pos + 1;
            Some(b)
        } else {
            None
        }
    }

    /// Consume up to `count` bytes and hand them over; fewer only when the
    /// source runs out first.
    pub fn take_bytes(&mut self, count: usize) -> (r: Vec<u8>)
        requires
            old(self).inv(),
        ensures
            final(self).inv(),
            final(self).all_bytes() == old(self).all_bytes(),
            r@.len() == if count <= old(self).remaining().len() {
                count as int
            } else {
                old(self).remaining().len() as int
            },
            r@ == old(self).remaining().subrange(0, r@.len() as int),
            final(self).position() == old(self).position() + r@.len(),
    {
        let avail = self.data.len() - self.pos;
        let take: usize = if count <= avail {
            count
        } else {
            avail
        };
        let mut out: Vec<u8> = Vec::new();
        let mut k: usize = 0;
        while k < take
            invariant
                self.inv(),
                k <= take,
                self.pos + take <= self.data@.len(),
                self.data@.len() <= usize::MAX,
                out@ =~= self.data@.subrange(self.pos as int, self.pos + k),
                out@.len() == k,
            decreases take - k,
        {
            out.push(self.data[self.pos + k]);
            k = k + 1;
        }
        proof {
            assert(out@ =~= old(self).remaining().subrange(0, take as int));
        }
        self.pos = self.pos + take;
        out
    }
}

} // verus!
