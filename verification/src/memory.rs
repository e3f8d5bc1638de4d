//! Sources and sinks that live in memory.

use core::convert::Infallible;
use vstd::prelude::*;
use crate::stream::{Sink, Source};

verus! {

/// The failure of a [`Cursor`] that was made to fail.
#[derive(Debug, Clone, Copy, PartialEq, Eq)]
pub struct Fault;

/// The failure of a [`Bounded`] sink that has no room for a write.
#[derive(Debug, Clone, Copy, PartialEq, Eq)]
pub struct Full;

/// The least of three lengths.
pub open spec fn least(a: int, b: int, c: int) -> int {
    if a <= b && a <= c {
        a
    } else if b <= c {
        b
    } else {
        c
    }
}

/// A source over bytes held in memory.
///
/// It hands out at most `chunk` bytes per call and nothing once the bytes
/// are used up. It can be made to fail after a number of bytes, to stand
/// for a stream that breaks.
pub struct Cursor {
    data: Vec<u8>,
    pos: usize,
    chunk: usize,
    good: Option<usize>,
}

impl Cursor {
    #[verifier::type_invariant]
    spec fn wf(&self) -> bool {
        self.pos <= self.data@.len()
    }

    /// The most bytes that one call of `read` hands out.
    pub closed spec fn chunk(&self) -> nat {
        self.chunk as nat
    }

    /// How many more bytes the source hands out before it fails, if it was
    /// made to fail.
    pub closed spec fn good(&self) -> Option<nat> {
        match self.good {
            Some(g) => Some(g as nat),
            None => None,
        }
    }

    /// How many bytes a call of `read` may hand out at most: all that are
    /// pending, or as many as are left before the source fails.
    pub open spec fn within_reach(&self) -> nat {
        match self.good() {
            Some(g) if g < self.pending().len() => g,
            _ => self.pending().len(),
        }
    }

    /// A source over `data` that hands out as many bytes as are asked for
    /// and never fails.
    pub fn new(data: Vec<u8>) -> (c: Cursor)
        ensures
            c.pending() == data@,
            c.chunk() == usize::MAX,
            c.good() is None,
    {
        proof {
            assert(data@.skip(0) =~= data@);
        }
        Cursor { data, pos: 0, chunk: usize::MAX, good: None }
    }

    /// A source over `data` that hands out at most `chunk` bytes per call
    /// and never fails.
    pub fn with_chunk(data: Vec<u8>, chunk: usize) -> (c: Cursor)
        ensures
            c.pending() == data@,
            c.chunk() == chunk,
            c.good() is None,
    {
        proof {
            assert(data@.skip(0) =~= data@);
        }
        Cursor { data, pos: 0, chunk, good: None }
    }

    /// A source over `data` that hands out at most `chunk` bytes per call
    /// and fails on every call once it has handed out `good` bytes.
    pub fn failing(data: Vec<u8>, chunk: usize, good: usize) -> (c: Cursor)
        ensures
            c.pending() == data@,
            c.chunk() == chunk,
            c.good() == Some(good as nat),
    {
        proof {
            assert(data@.skip(0) =~= data@);
        }
        Cursor { data, pos: 0, chunk, good: Some(good) }
    }

    /// How many bytes are still to come.
    pub fn remaining(&self) -> (n: usize)
        ensures
            n == self.pending().len(),
    {
        proof {
            use_type_invariant(self);
        }
        self.data.len() - self.pos
    }
}

impl Source for Cursor {
    type Error = Fault;

    closed spec fn pending(&self) -> Seq<u8> {
        self.data@.skip(self.pos as int)
    }

    open spec fn supply(&self) -> nat {
        if self.chunk() == 0 {
            0
        } else {
            self.within_reach()
        }
    }

    open spec fn end(&self) -> Option<Fault> {
        match self.good() {
            Some(g) if g == 0 || (self.chunk() >= 1 && g <= self.pending().len()) => Some(Fault),
            _ => None,
        }
    }

    /// Fails, changing nothing, if the source was made to fail and has no
    /// good bytes left. Otherwise hands out the least of `buf.len()`, the
    /// chunk size and the bytes within reach, and leaves the rest of `buf`
    /// as it was.
    fn read(&mut self, buf: &mut [u8]) -> (r: Result<usize, Fault>)
        ensures
            final(self).chunk() == old(self).chunk(),
            match r {
                Ok(n) => {
                    &&& old(self).good() != Some(0nat)
                    &&& n == least(
                        old(buf)@.len() as int,
                        old(self).chunk() as int,
                        old(self).within_reach() as int,
                    )
                    &&& final(buf)@.skip(n as int) == old(buf)@.skip(n as int)
                    &&& final(self).good() == match old(self).good() {
                        Some(g) => Some((g - n) as nat),
                        None => None,
                    }
                },
                Err(_) => {
                    &&& old(self).good() == Some(0nat)
                    &&& final(self).good() == Some(0nat)
                    &&& final(buf)@ == old(buf)@
                },
            },
    {
        proof {
            use_type_invariant(&*self);
        }
        let mut n: usize = self.data.len() - self.pos;
        match self.good {
            Some(g) => {
                if g == 0 {
                    return Err(Fault);
                }
                if g < n {
                    n = g;
                }
            },
            None => {},
        }
        if self.chunk < n {
            n = self.chunk;
        }
        if buf.len() < n {
            n = buf.len();
        }
        let start = self.pos;
        let mut i: usize = 0;
        while i < n
            invariant
                i <= n,
                n <= buf@.len(),
                buf@.len() == old(buf)@.len(),
                start + n <= self.data@.len() <= usize::MAX,
                *self == *old(self),
                buf@.take(i as int) == self.data@.subrange(start as int, start + i),
                buf@.skip(n as int) == old(buf)@.skip(n as int),
            decreases n - i,
        {
            let ghost before = buf@;
            buf[i] = self.data[start + i];
            proof {
                assert(buf@.take(i + 1) =~= before.take(i as int).push(self.data@[start + i]));
                assert(buf@.take(i + 1) =~= self.data@.subrange(start as int, start + i + 1));
                assert(buf@.skip(n as int) =~= before.skip(n as int));
            }
            i += 1;
        }
        self.pos = start + n;
        match self.good {
            Some(g) => {
                self.good = Some(g - n);
            },
            None => {},
        }
        proof {
            assert(self.data@.skip(start as int).skip(n as int) =~= self.data@.skip(start + n));
            assert(self.data@.skip(start as int).take(n as int) =~= self.data@.subrange(
                start as int,
                start + n,
            ));
        }
        Ok(n)
    }
}

impl Sink for Vec<u8> {
    type Error = Infallible;

    open spec fn written(&self) -> Seq<u8> {
        self@
    }

    open spec fn refusal(&self, bytes: Seq<u8>) -> Option<Infallible> {
        None
    }

    /// Never fails: appends `buf`.
    fn write_all(&mut self, buf: &[u8]) -> (r: Result<(), Infallible>) {
        self.extend_from_slice(buf);
        Ok(())
    }
}

/// A sink in memory with room for a fixed number of bytes, which fails on
/// a write that does not fit.
pub struct Bounded {
    taken: Vec<u8>,
    room: usize,
}

impl Bounded {
    /// How many bytes the sink holds at most.
    pub closed spec fn room(&self) -> nat {
        self.room as nat
    }

    /// An empty sink with room for `room` bytes.
    pub fn new(room: usize) -> (b: Bounded)
        ensures
            b.written() == Seq::<u8>::empty(),
            b.room() == room,
    {
        Bounded { taken: Vec::new(), room }
    }

    /// The bytes taken so far.
    pub fn bytes(&self) -> (v: &Vec<u8>)
        ensures
            v@ == self.written(),
    {
        &self.taken
    }
}

impl Sink for Bounded {
    type Error = Full;

    closed spec fn written(&self) -> Seq<u8> {
        self.taken@
    }

    open spec fn refusal(&self, bytes: Seq<u8>) -> Option<Full> {
        if self.written().len() + bytes.len() > self.room() {
            Some(Full)
        } else {
            None
        }
    }

    /// Takes all of `buf` if it fits in the room that is left; otherwise
    /// fails and takes nothing.
    fn write_all(&mut self, buf: &[u8]) -> (r: Result<(), Full>)
        ensures
            final(self).room() == old(self).room(),
            r is Err ==> final(self).written() == old(self).written(),
    {
        if self.taken.len() > self.room || buf.len() > self.room - self.taken.len() {
            return Err(Full);
        }
        self.taken.extend_from_slice(buf);
        Ok(())
    }
}

} // verus!
