//! State over host streams: reading in chunks, writing in pieces, and asking
//! for the size first.
use vstd::prelude::*;

verus! {

/// Bytes a stream is asked for at a time.
pub const CHUNK_BYTES: usize = 4096;

/// Most state a stream may feed before it counts as hostile.
pub const MAX_STATE_BYTES: usize = 16_777_216;

/// What a chunk means.
#[derive(Clone, Copy, PartialEq, Eq, Structural, Debug)]
pub enum ChunkVerdict {
    /// Go on reading.
    More,
    /// That was all.
    Done,
    /// The stream is corrupt or hostile: give up.
    Bad,
}

/// State as far as it has been read.
#[derive(Debug)]
pub struct StateReader {
    data: Vec<u8>,
    limit: Option<usize>,
}

/// Whether a size exceeds a limit.
pub open spec fn exceeds(size: int, limit: Option<usize>) -> bool {
    limit matches Some(most) && size > most
}

impl View for StateReader {
    type V = Seq<u8>;

    closed spec fn view(&self) -> Seq<u8> {
        self.data@
    }
}

impl StateReader {
    /// Most bytes that are taken; `None` is no limit.
    pub closed spec fn most(&self) -> Option<usize> {
        self.limit
    }

    /// Nothing read yet.
    pub fn new(limit: Option<usize>) -> (r: Self)
        ensures
            r@ == Seq::<u8>::empty(),
            r.most() == limit,
    {
        StateReader { data: Vec::new(), limit }
    }

    /// Take what one read gave: `n` as the stream reports it, the buffer it
    /// wrote into. A negative count, or one larger than the buffer, is
    /// corrupt; so is state past the limit. Zero means the end.
    pub fn feed(&mut self, n: i64, buf: &[u8]) -> (r: ChunkVerdict)
        ensures
            final(self).most() == old(self).most(),
            r == (if n < 0 || n > buf@.len() {
                ChunkVerdict::Bad
            } else if n == 0 {
                ChunkVerdict::Done
            } else if exceeds(old(self)@.len() + n, old(self).most()) {
                ChunkVerdict::Bad
            } else {
                ChunkVerdict::More
            }),
            final(self)@ == (if 0 < n <= buf@.len() {
                old(self)@ + buf@.take(n as int)
            } else {
                old(self)@
            }),
    {
        if n < 0 || n as u64 > buf.len() as u64 {
            return ChunkVerdict::Bad;
        }
        if n == 0 {
            return ChunkVerdict::Done;
        }
        let count: usize = n as usize;
        let mut i: usize = 0;
        proof {
            assert(buf@.take(0) =~= Seq::empty());
            assert(self.data@ + buf@.take(0) =~= self.data@);
        }
        while i < count
            invariant
                i <= count <= buf@.len(),
                self.limit == old(self).limit,
                self.data@ == old(self).data@ + buf@.take(i as int),
            decreases count - i,
        {
            let ghost before = self.data@;
            self.data.push(buf[i]);
            proof {
                assert(self.data@ =~= old(self).data@ + buf@.take(i + 1));
            }
            i += 1;
        }
        match self.limit {
            Some(most) => if self.data.len() > most {
                ChunkVerdict::Bad
            } else {
                ChunkVerdict::More
            },
            None => ChunkVerdict::More,
        }
    }

    /// The bytes read.
    pub fn finish(self) -> (r: Vec<u8>)
        ensures
            r@ == self@,
    {
        self.data
    }
}

/// What a write means.
#[derive(Clone, Copy, PartialEq, Eq, Structural, Debug)]
pub enum WriteVerdict {
    /// Go on writing at this offset.
    More(usize),
    /// Everything is written.
    Done,
    /// The stream takes nothing: give up.
    Bad,
}

/// Go on after a write that started at `offset` of `total` bytes and, as the
/// stream reports it, took `n` bytes.
pub fn after_write(offset: usize, n: i64, total: usize) -> (r: WriteVerdict)
    requires
        offset < total,
    ensures
        r == (if n <= 0 {
            WriteVerdict::Bad
        } else if offset + n >= total {
            WriteVerdict::Done
        } else {
            WriteVerdict::More((offset + n) as usize)
        }),
{
    if n <= 0 {
        WriteVerdict::Bad
    } else if n as u64 >= (total - offset) as u64 {
        WriteVerdict::Done
    } else {
        WriteVerdict::More(offset + n as usize)
    }
}

/// Hand state to a caller that may only be asking for its size. The result is
/// the size and whether to copy: no buffer, or one that is too small, gets
/// the size alone.
pub fn answer_size_query(size: usize, capacity: Option<usize>) -> (r: (usize, bool))
    ensures
        r.0 == size,
        r.1 == (capacity matches Some(room) && room >= size),
{
    match capacity {
        Some(room) => (size, room >= size),
        None => (size, false),
    }
}

/// State without a limit is never too large, and state with one is exactly if
/// it is larger than that.
pub proof fn law_limits_are_kept(size: int, most: usize)
    ensures
        !exceeds(size, None),
        exceeds(size, Some(most)) <==> size > most,
{
}

} // verus!
