use vstd::prelude::*;

use crate::gp_type::GpType;

verus! {

/// The bytes that stand in `content` after writing `data` at position `pos`:
/// the write overwrites what is there and extends the stream where it runs
/// past the end.
pub open spec fn spliced(content: Seq<u8>, pos: int, data: Seq<u8>) -> Seq<u8> {
    if pos + data.len() <= content.len() {
        content.take(pos) + data + content.skip(pos + data.len())
    } else {
        content.take(pos) + data
    }
}

/// A growable byte stream with a read/write cursor and a logical length
/// independent of the backing allocation.  Writing past the capacity doubles
/// the allocation (or grows it to exactly the required size, whichever is
/// larger); the logical content is never changed by growth alone.
pub struct StreamBuffer {
    len: usize,
    buf: Vec<u8>,
    pos: usize,
}

/// Reading after writing gives the written bytes back: after `write` puts
/// `data` at position `pos` of a stream holding `content`, a read of any
/// `n <= data.len()` bytes from `pos` returns exactly the first `n` bytes of
/// `data`.  Together with the writers' contracts, which leave the content
/// unchanged when only the backing allocation grows, this pins the buffer's
/// read-after-write behaviour for every byte stream.
pub proof fn lemma_write_then_read(content: Seq<u8>, pos: int, data: Seq<u8>, n: int)
    requires
        0 <= pos <= content.len(),
        0 <= n <= data.len(),
    ensures
        spliced(content, pos, data).subrange(pos, pos + n) == data.take(n),
{
    assert(spliced(content, pos, data).subrange(pos, pos + n) =~= data.take(n));
}

/// A well-formed buffer's cursor never passes its logical length.
pub broadcast proof fn stream_buffer_wf_bounds(s: &StreamBuffer)
    ensures
        #[trigger] s.wf() ==> s.spec_position() <= s.content().len(),
{
}

impl StreamBuffer {
    /// The logical bytes of the stream, indices `0 .. length`.
    pub closed spec fn content(&self) -> Seq<u8> {
        self.buf@.take(self.len as int)
    }

    /// The cursor, always within `0 ..= length`.
    pub closed spec fn spec_position(&self) -> nat {
        self.pos as nat
    }

    pub closed spec fn wf(&self) -> bool {
        self.pos <= self.len <= self.buf@.len()
    }

    /// Bytes the backing allocation can hold before it must grow.
    pub closed spec fn spec_capacity(&self) -> nat {
        self.buf@.len()
    }

    pub fn new(initial: &[u8]) -> (r: StreamBuffer)
        ensures
            r.wf(),
            r.content() == initial@,
            r.spec_position() == 0,
    {
        let buf = vstd::slice::slice_to_vec(initial);
        let len = buf.len();
        proof {
            assert(buf@.take(len as int) =~= initial@);
        }
        StreamBuffer { len, buf, pos: 0 }
    }

    pub fn with_capacity(capacity: usize) -> (r: StreamBuffer)
        ensures
            r.wf(),
            r.content() == Seq::new(capacity as nat, |i: int| 0u8),
            r.spec_position() == 0,
    {
        let buf: Vec<u8> = vec![0u8; capacity];
        proof {
            assert(buf@.take(capacity as int) =~= Seq::new(capacity as nat, |i: int| 0u8));
        }
        StreamBuffer { len: capacity, buf, pos: 0 }
    }

    /// Grows the backing allocation to hold `required_size` bytes, doubling
    /// the capacity where that is larger; reports whether it grew.
    fn check_size(&mut self, required_size: usize) -> (grew: bool)
        requires
            old(self).wf(),
        ensures
            final(self).wf(),
            final(self).content() == old(self).content(),
            final(self).spec_position() == old(self).spec_position(),
            final(self).buf@.len() >= required_size,
            grew == (required_size > old(self).buf@.len()),
            forall|i: int|
                0 <= i < old(self).buf@.len() ==> final(self).buf@[i] == old(self).buf@[i],
    {
        if required_size <= self.buf.len() {
            return false;
        }

        let cur = self.buf.len();
        let doubled: usize = if cur > usize::MAX / 2 {
            usize::MAX
        } else {
            cur * 2
        };
        let new_capacity: usize = if doubled > required_size {
            doubled
        } else {
            required_size
        };

        let mut new_buf: Vec<u8> = Vec::new();
        let mut i: usize = 0;
        while i < cur
            invariant
                i <= cur,
                cur == self.buf@.len(),
                new_buf@ == self.buf@.take(i as int),
            decreases cur - i,
        {
            new_buf.push(self.buf[i]);
            proof {
                assert(new_buf@ =~= self.buf@.take(i + 1));
            }
            i = i + 1;
        }
        proof {
            assert(new_buf@ =~= self.buf@);
        }
        while new_buf.len() < new_capacity
            invariant
                new_buf@.len() >= cur,
                new_buf@.take(cur as int) == self.buf@,
            decreases new_capacity - new_buf@.len(),
        {
            new_buf.push(0);
            proof {
                assert(new_buf@.take(cur as int) =~= self.buf@);
            }
        }

        self.buf = new_buf;
        proof {
            assert(final(self).content() =~= old(self).content());
        }
        true
    }

    /// Makes room for `additional` bytes past the cursor; the logical
    /// content is unchanged.
    pub fn ensure_capacity(&mut self, additional: usize)
        requires
            old(self).wf(),
            old(self).spec_position() + additional <= usize::MAX,
        ensures
            final(self).wf(),
            final(self).content() == old(self).content(),
            final(self).spec_position() == old(self).spec_position(),
            final(self).spec_capacity() >= old(self).spec_position() + additional,
    {
        let required_size = self.pos + additional;
        self.check_size(required_size);
    }

    /// Reads the byte under the cursor and advances; the cursor must be
    /// short of the logical length.
    pub fn read_byte(&mut self) -> (b: u8)
        requires
            old(self).wf(),
            old(self).spec_position() < old(self).content().len(),
        ensures
            final(self).wf(),
            final(self).content() == old(self).content(),
            final(self).spec_position() == old(self).spec_position() + 1,
            b == old(self).content()[old(self).spec_position() as int],
    {
        let byte = self.buf[self.pos];
        self.pos = self.pos + 1;
        byte
    }

    /// Like `read_byte`, but yields `None` at the end of the stream instead
    /// of demanding room.
    pub fn try_read_byte(&mut self) -> (r: Option<u8>)
        requires
            old(self).wf(),
        ensures
            final(self).wf(),
            final(self).content() == old(self).content(),
            if old(self).spec_position() < old(self).content().len() {
                r == Some(old(self).content()[old(self).spec_position() as int])
                    && final(self).spec_position() == old(self).spec_position() + 1
            } else {
                r is None && final(self).spec_position() == old(self).spec_position()
            },
    {
        if self.pos >= self.len {
            return None;
        }

        let byte = self.buf[self.pos];
        self.pos = self.pos + 1;
        Some(byte)
    }

    pub fn write_byte(&mut self, byte: u8)
        requires
            old(self).wf(),
            old(self).spec_position() < usize::MAX,
        ensures
            final(self).wf(),
            final(self).content() == spliced(
                old(self).content(),
                old(self).spec_position() as int,
                seq![byte],
            ),
            final(self).spec_position() == old(self).spec_position() + 1,
    {
        self.ensure_capacity(1);

        self.buf[self.pos] = byte;
        self.pos = self.pos + 1;

        if self.pos > self.len {
            self.len = self.pos;
        }
        proof {
            assert(final(self).content() =~= spliced(
                old(self).content(),
                old(self).spec_position() as int,
                seq![byte],
            ));
        }
    }

    /// Writes the single tag byte of a wire type.
    pub fn write_gp_type(&mut self, gp_type: GpType)
        requires
            old(self).wf(),
            old(self).spec_position() < usize::MAX,
        ensures
            final(self).wf(),
            final(self).content() == spliced(
                old(self).content(),
                old(self).spec_position() as int,
                seq![gp_type.spec_code()],
            ),
            final(self).spec_position() == old(self).spec_position() + 1,
    {
        let code = gp_type.code();
        self.write_byte(code)
    }

    pub fn write(&mut self, data: &[u8])
        requires
            old(self).wf(),
            old(self).spec_position() + data@.len() <= usize::MAX,
        ensures
            final(self).wf(),
            final(self).content() == spliced(
                old(self).content(),
                old(self).spec_position() as int,
                data@,
            ),
            final(self).spec_position() == old(self).spec_position() + data@.len(),
    {
        self.ensure_capacity(data.len());

        let ghost pre = *self;
        let n = data.len();
        let mut i: usize = 0;
        while i < n
            invariant
                i <= n,
                n == data@.len(),
                self.pos == pre.pos,
                self.len == pre.len,
                self.pos + n <= usize::MAX,
                self.pos <= self.len <= self.buf@.len(),
                self.pos + n <= self.buf@.len(),
                self.buf@.len() == pre.buf@.len(),
                forall|j: int|
                    0 <= j < i ==> self.buf@[self.pos + j] == data@[j],
                forall|j: int|
                    0 <= j < self.buf@.len() && !(self.pos <= j < self.pos + i)
                        ==> self.buf@[j] == pre.buf@[j],
            decreases n - i,
        {
            let idx = self.pos + i;
            self.buf[idx] = data[i];
            i = i + 1;
        }

        self.pos = self.pos + n;

        if self.pos > self.len {
            self.len = self.pos;
        }
        proof {
            assert(final(self).content() =~= spliced(
                old(self).content(),
                old(self).spec_position() as int,
                data@,
            ));
        }
    }

    /// Reads up to `count` bytes from the cursor, stopping at the logical
    /// end of the stream.
    pub fn read(&mut self, count: usize) -> (r: Vec<u8>)
        requires
            old(self).wf(),
        ensures
            final(self).wf(),
            final(self).content() == old(self).content(),
            ({
                let avail = vstd::math::min(
                    count as int,
                    old(self).content().len() - old(self).spec_position(),
                );
                r@ == old(self).content().subrange(
                    old(self).spec_position() as int,
                    old(self).spec_position() + avail,
                ) && final(self).spec_position() == old(self).spec_position() + avail
            }),
    {
        let available = if count < self.len - self.pos {
            count
        } else {
            self.len - self.pos
        };
        let mut result: Vec<u8> = Vec::new();

        let mut i: usize = 0;
        while i < available
            invariant
                i <= available,
                self == old(self),
                self.wf(),
                self.pos + available <= self.len,
                result@ == self.content().subrange(self.pos as int, self.pos + i),
            decreases available - i,
        {
            result.push(self.buf[self.pos + i]);
            proof {
                assert(result@ =~= self.content().subrange(self.pos as int, self.pos + i + 1));
            }
            i = i + 1;
        }

        self.pos = self.pos + available;
        result
    }

    pub fn position(&self) -> (r: usize)
        ensures
            r == self.spec_position(),
    {
        self.pos
    }

    pub fn length(&self) -> (r: usize)
        requires
            self.wf(),
        ensures
            r == self.content().len(),
    {
        self.len
    }

    pub fn reset_position(&mut self)
        requires
            old(self).wf(),
        ensures
            final(self).wf(),
            final(self).content() == old(self).content(),
            final(self).spec_position() == 0,
    {
        self.pos = 0;
    }

    /// Bytes between the cursor and the logical end.
    pub fn remaining(&self) -> (r: usize)
        requires
            self.wf(),
        ensures
            r == self.content().len() - self.spec_position(),
    {
        self.len - self.pos
    }

    /// Moves the cursor; it may not pass the logical length.
    pub fn seek(&mut self, position: usize)
        requires
            old(self).wf(),
            position <= old(self).content().len(),
        ensures
            final(self).wf(),
            final(self).content() == old(self).content(),
            final(self).spec_position() == position,
    {
        self.pos = position;
    }

    /// The backing allocation; its prefix of `length` bytes is the logical
    /// content.
    pub fn get_buffer(&self) -> (r: &[u8])
        requires
            self.wf(),
        ensures
            r@.len() >= self.content().len(),
            r@.take(self.content().len() as int) == self.content(),
    {
        self.buf.as_slice()
    }
}

} // verus!
