//! A fixed-capacity byte buffer that can be topped up without discarding
//! the bytes that have not been read yet.

use vstd::prelude::*;

verus! {

pub const DEFAULT_BUF_SIZE: usize = 8192;

/// Bytes `[pos, filled)` of `buf` are the unread data. `initialized` is
/// the most that has ever been filled.
pub struct Buffer {
    buf: Vec<u8>,
    pos: usize,
    filled: usize,
    initialized: usize,
}

impl Buffer {
    /// The cursors are in order and within the storage.
    pub closed spec fn wf(&self) -> bool {
        self.pos <= self.filled <= self.initialized <= self.buf@.len()
    }

    /// The unread bytes.
    pub closed spec fn view(&self) -> Seq<u8> {
        self.buf@.subrange(self.pos as int, self.filled as int)
    }

    pub closed spec fn capacity(&self) -> nat {
        self.buf@.len()
    }

    /// How many bytes have been written into the buffer at most, at once.
    pub closed spec fn high_water(&self) -> nat {
        self.initialized as nat
    }

    /// Where the filled region ends.
    pub closed spec fn filled_len(&self) -> nat {
        self.filled as nat
    }

    /// How many of `n` offered bytes a refill of the whole buffer takes.
    pub open spec fn refill_len(&self, n: nat) -> nat {
        if n <= self.capacity() {
            n
        } else {
            self.capacity()
        }
    }

    /// Room behind the unread bytes.
    pub closed spec fn spare(&self) -> nat {
        (self.buf@.len() - self.filled) as nat
    }

    pub fn with_capacity(capacity: usize) -> (r: Self)
        ensures
            r.wf(),
            r.view() == Seq::<u8>::empty(),
            r.capacity() == capacity,
            r.spare() == capacity,
            r.high_water() == 0,
    {
        let buf = vec![0u8; capacity];
        let r = Buffer { buf, pos: 0, filled: 0, initialized: 0 };
        assert(r.view() =~= Seq::<u8>::empty());
        r
    }

    /// The unread bytes, without copying.
    pub fn buffer(&self) -> (r: &[u8])
        requires
            self.wf(),
        ensures
            r@ == self.view(),
    {
        let s = self.buf.as_slice();
        &s[self.pos..self.filled]
    }

    /// How many more bytes `read_more` can take.
    pub fn spare_capacity(&self) -> (r: usize)
        requires
            self.wf(),
        ensures
            r == self.spare(),
    {
        self.buf.len() - self.filled
    }

    /// Marks `amt` unread bytes as read, at most as many as there are.
    pub fn consume(&mut self, amt: usize)
        requires
            old(self).wf(),
        ensures
            final(self).wf(),
            final(self).view() == old(self).view().skip(
                if amt <= old(self).view().len() {
                    amt as int
                } else {
                    old(self).view().len() as int
                },
            ),
            final(self).capacity() == old(self).capacity(),
            final(self).spare() == old(self).spare(),
            final(self).high_water() == old(self).high_water(),
    {
        if amt >= self.filled - self.pos {
            self.pos = self.filled;
        } else {
            self.pos = self.pos + amt;
        }
        assert(self.view() =~= old(self).view().skip(
            if amt <= old(self).view().len() {
                amt as int
            } else {
                old(self).view().len() as int
            },
        ));
    }

    /// Appends as much of `data` as fits behind the unread bytes, which
    /// stay as they are, and returns how many bytes were taken.
    pub fn read_more(&mut self, data: &[u8]) -> (n: usize)
        requires
            old(self).wf(),
        ensures
            final(self).wf(),
            n == (if data@.len() <= old(self).spare() {
                data@.len()
            } else {
                old(self).spare()
            }),
            final(self).view() == old(self).view() + data@.take(n as int),
            final(self).capacity() == old(self).capacity(),
            final(self).spare() == old(self).spare() - n,
            final(self).high_water() == (if old(self).high_water() >= old(self).filled_len() + n {
                old(self).high_water()
            } else {
                (old(self).filled_len() + n) as nat
            }),
    {
        let room = self.buf.len() - self.filled;
        let n: usize = if data.len() <= room {
            data.len()
        } else {
            room
        };
        let start = self.filled;
        let mut i: usize = 0;
        while i < n
            invariant
                0 <= i <= n,
                n <= data@.len(),
                start + n <= self.buf@.len(),
                start + n <= usize::MAX,
                self.buf@.len() == old(self).buf@.len(),
                start == old(self).filled,
                self.pos == old(self).pos,
                self.filled == old(self).filled,
                self.initialized == old(self).initialized,
                forall|j: int| 0 <= j < start ==> self.buf@[j] == old(self).buf@[j],
                forall|j: int| 0 <= j < i ==> self.buf@[start + j] == data@[j],
            decreases n - i,
        {
            self.buf.set(start + i, data[i]);
            i = i + 1;
        }
        self.filled = start + n;
        if self.initialized < self.filled {
            self.initialized = self.filled;
        }
        assert(self.view() =~= old(self).view() + data@.take(n as int));
        n
    }

    /// Moves the unread bytes to the front of the buffer.
    pub fn backshift(&mut self)
        requires
            old(self).wf(),
        ensures
            final(self).wf(),
            final(self).view() == old(self).view(),
            final(self).capacity() == old(self).capacity(),
            final(self).spare() == old(self).capacity() - old(self).view().len(),
            final(self).high_water() == old(self).high_water(),
    {
        let pos = self.pos;
        let len = self.filled - self.pos;
        let mut i: usize = 0;
        while i < len
            invariant
                0 <= i <= len,
                pos + len == old(self).filled,
                pos == old(self).pos,
                old(self).filled <= self.buf@.len(),
                self.buf@.len() == old(self).buf@.len(),
                self.pos == old(self).pos,
                self.filled == old(self).filled,
                self.initialized == old(self).initialized,
                forall|j: int| 0 <= j < i ==> self.buf@[j] == old(self).buf@[pos + j],
                forall|j: int| pos + i <= j < pos + len ==> #[trigger] self.buf@[j] == old(self).buf@[j],
            decreases len - i,
        {
            let b = self.buf[pos + i];
            self.buf.set(i, b);
            i = i + 1;
        }
        self.pos = 0;
        self.filled = len;
        assert(self.view() =~= old(self).view());
    }

    /// When every byte has been read, starts over with as much of `data`
    /// as fits; otherwise leaves the buffer as it is. Returns the unread
    /// bytes.
    pub fn fill_buf(&mut self, data: &[u8]) -> (r: &[u8])
        requires
            old(self).wf(),
        ensures
            final(self).wf(),
            old(self).view().len() == 0 ==> {
                let n = old(self).refill_len(data@.len());
                &&& final(self).view() == data@.take(n as int)
                &&& final(self).spare() == old(self).capacity() - n
                &&& final(self).high_water() == (if old(self).high_water() >= n {
                    old(self).high_water()
                } else {
                    n
                })
            },
            old(self).view().len() > 0 ==> *final(self) == *old(self),
            final(self).high_water() >= old(self).high_water(),
            final(self).capacity() == old(self).capacity(),
            r@ == final(self).view(),
    {
        if self.pos >= self.filled {
            self.pos = 0;
            self.filled = 0;
            assert(self.view() =~= Seq::<u8>::empty());
            self.read_more(data);
            assert(Seq::<u8>::empty() + data@.take(
                if data@.len() <= old(self).capacity() {
                    data@.len() as int
                } else {
                    old(self).capacity() as int
                },
            ) =~= data@.take(
                if data@.len() <= old(self).capacity() {
                    data@.len() as int
                } else {
                    old(self).capacity() as int
                },
            ));
        }
        self.buffer()
    }
}

/// A buffer beside the source that fills it.
pub struct BufReader<R> {
    pub buf: Buffer,
    pub inner: R,
}

impl<R> BufReader<R> {
    pub open spec fn wf(&self) -> bool {
        self.buf.wf()
    }

    pub fn new(inner: R) -> (r: BufReader<R>)
        ensures
            r.wf(),
            r.buf.view() == Seq::<u8>::empty(),
            r.buf.capacity() == DEFAULT_BUF_SIZE,
            r.buf.spare() == DEFAULT_BUF_SIZE,
            r.buf.high_water() == 0,
            r.inner == inner,
    {
        BufReader::with_capacity(DEFAULT_BUF_SIZE, inner)
    }

    pub fn with_capacity(capacity: usize, inner: R) -> (r: BufReader<R>)
        ensures
            r.wf(),
            r.buf.view() == Seq::<u8>::empty(),
            r.buf.capacity() == capacity,
            r.buf.spare() == capacity,
            r.buf.high_water() == 0,
            r.inner == inner,
    {
        BufReader { inner, buf: Buffer::with_capacity(capacity) }
    }

    /// `Buffer::fill_buf` on the inner buffer, with `data` read from the source.
    pub fn fill_buf(&mut self, data: &[u8]) -> (r: &[u8])
        requires
            old(self).wf(),
        ensures
            final(self).wf(),
            old(self).buf.view().len() == 0 ==> {
                let n = old(self).buf.refill_len(data@.len());
                &&& final(self).buf.view() == data@.take(n as int)
                &&& final(self).buf.spare() == old(self).buf.capacity() - n
                &&& final(self).buf.high_water() == (if old(self).buf.high_water() >= n {
                    old(self).buf.high_water()
                } else {
                    n
                })
            },
            old(self).buf.view().len() > 0 ==> final(self).buf == old(self).buf,
            final(self).buf.high_water() >= old(self).buf.high_water(),
            final(self).buf.capacity() == old(self).buf.capacity(),
            final(self).inner == old(self).inner,
            r@ == final(self).buf.view(),
    {
        self.buf.fill_buf(data)
    }

    pub fn consume(&mut self, amt: usize)
        requires
            old(self).wf(),
        ensures
            final(self).wf(),
            final(self).buf.view() == old(self).buf.view().skip(
                if amt <= old(self).buf.view().len() {
                    amt as int
                } else {
                    old(self).buf.view().len() as int
                },
            ),
            final(self).buf.capacity() == old(self).buf.capacity(),
            final(self).buf.spare() == old(self).buf.spare(),
            final(self).buf.high_water() == old(self).buf.high_water(),
            final(self).inner == old(self).inner,
    {
        self.buf.consume(amt)
    }
}

} // verus!
