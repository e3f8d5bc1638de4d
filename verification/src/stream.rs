//! Reading numbers from a byte source and writing them to a byte sink.

use vstd::prelude::*;
use crate::model::{lemma_pow256_values, signed, unsigned};
use crate::order::{ByteOrder, lemma_i8_pattern, lemma_u8_reading};

verus! {

/// A source of bytes that hands them out in order, some at a time.
///
/// Three ghosts describe what is to come; they cost nothing at run time.
/// `pending` is the run of bytes that the source has yet to hand out.
/// `supply` says how many of them it is sure to hand out, and `end` how it
/// goes on once that supply is used up.
pub trait Source: Sized {
    /// What the source reports when it fails.
    type Error;

    /// The bytes not yet handed out, in the order in which they will come.
    spec fn pending(&self) -> Seq<u8>;

    /// How many of the pending bytes the source hands out before it ends,
    /// at least one on every call that has room for one.
    spec fn supply(&self) -> nat;

    /// How the source ends: the report with which every call fails once the
    /// supply is used up, or `None` if every call then hands out nothing.
    spec fn end(&self) -> Option<Self::Error>;

    /// Hands out up to `buf.len()` of the pending bytes into the front of
    /// `buf` and returns how many, or fails.
    ///
    /// While there is a supply, a call with room for a byte hands out at
    /// least one and no more than the supply. Once the supply is used up, a
    /// call fails if the source ends in failure and hands out nothing if it
    /// does not.
    fn read(&mut self, buf: &mut [u8]) -> (r: Result<usize, Self::Error>)
        ensures
            final(buf)@.len() == old(buf)@.len(),
            final(self).end() == old(self).end(),
            match r {
                Ok(n) => {
                    &&& n <= old(buf)@.len()
                    &&& delivered(old(self).pending(), final(self).pending(), n as nat)
                    &&& final(buf)@.take(n as int) == old(self).pending().take(n as int)
                    &&& if old(self).supply() > 0 {
                        &&& n <= old(self).supply()
                        &&& final(self).supply() == old(self).supply() - n
                        &&& old(buf)@.len() > 0 ==> n > 0
                    } else {
                        &&& n == 0
                        &&& old(self).end() is None
                        &&& final(self).supply() == 0
                    }
                },
                Err(e) => {
                    &&& old(self).supply() == 0
                    &&& old(self).end() == Some(e)
                    &&& final(self).supply() == 0
                    &&& final(self).pending() == old(self).pending()
                },
            },
    ;
}

/// Exactly the first `n` bytes of `before` were handed out, leaving `after`.
pub open spec fn delivered(before: Seq<u8>, after: Seq<u8>, n: nat) -> bool {
    n <= before.len() && after == before.skip(n as int)
}

/// What a read of `want` bytes that ended with `r` has done to its source.
///
/// With a supply of `want` bytes or more the read succeeds and exactly
/// `want` bytes were handed out. With less, the supply was handed out and
/// the read fails: with the source's own report if the source ends in
/// failure, and with the end of the stream if it does not.
pub open spec fn filled<R: Source, V>(
    before: R,
    after: R,
    r: Result<V, ReadError<R::Error>>,
    want: nat,
) -> bool {
    &&& after.end() == before.end()
    &&& if want <= before.supply() {
        &&& r is Ok
        &&& delivered(before.pending(), after.pending(), want)
        &&& after.supply() == before.supply() - want
    } else {
        &&& r == Err::<V, ReadError<R::Error>>(
            match before.end() {
                Some(e) => ReadError::Source(e),
                None => ReadError::UnexpectedEof,
            },
        )
        &&& delivered(before.pending(), after.pending(), before.supply())
        &&& after.supply() == 0
    }
}

/// Why a read of a whole buffer did not complete.
#[derive(Debug, PartialEq, Eq)]
pub enum ReadError<E> {
    /// The source handed out nothing although bytes were still wanted.
    UnexpectedEof,
    /// The source failed, with this report.
    Source(E),
}

/// What to do after one call of a source while a buffer is being filled.
#[derive(Debug, PartialEq, Eq)]
pub enum Fill<E> {
    /// The buffer is full.
    Done,
    /// This many bytes are in place; ask the source for the rest.
    More(usize),
    /// Give up with this error.
    Failed(ReadError<E>),
}

/// Decides how a fill goes on once the source has answered: `filled` of
/// `len` bytes were in place before the call, and `outcome` is the answer.
pub fn advance<E>(filled: usize, len: usize, outcome: Result<usize, E>) -> (next: Fill<E>)
    requires
        filled < len,
        outcome matches Ok(n) ==> n <= len - filled,
    ensures
        next == match outcome {
            Err(e) => Fill::Failed(ReadError::Source(e)),
            Ok(n) => if n == 0 {
                Fill::Failed(ReadError::UnexpectedEof)
            } else if filled + n == len {
                Fill::Done
            } else {
                Fill::More((filled + n) as usize)
            },
        },
{
    match outcome {
        Err(e) => Fill::Failed(ReadError::Source(e)),
        Ok(n) => if n == 0 {
            Fill::Failed(ReadError::UnexpectedEof)
        } else if n == len - filled {
            Fill::Done
        } else {
            Fill::More(filled + n)
        },
    }
}

/// A buffer whose first `n` bytes are the first `n` of `all`, and whose tail
/// has then taken the next `k` bytes, begins with the first `n + k` of `all`.
proof fn lemma_fill_extends(all: Seq<u8>, before: Seq<u8>, got: Seq<u8>, n: int, k: int)
    requires
        0 <= n <= before.len(),
        0 <= k <= got.len(),
        n + k <= all.len(),
        before.take(n) == all.take(n),
        got.take(k) == all.skip(n).take(k),
    ensures
        (before.take(n) + got).take(n + k) == all.take(n + k),
        all.skip(n).skip(k) == all.skip(n + k),
{
    let joined = (before.take(n) + got).take(n + k);
    assert forall|i: int| 0 <= i < n + k implies joined[i] == all[i] by {
        if i < n {
            assert(joined[i] == before.take(n)[i]);
            assert(all.take(n)[i] == all[i]);
        } else {
            assert(joined[i] == got.take(k)[i - n]);
            assert(all.skip(n).take(k)[i - n] == all[i]);
        }
    }
    assert(joined =~= all.take(n + k));
    assert(all.skip(n).skip(k) =~= all.skip(n + k));
}

/// Fills all of `buf` from `rdr`, asking again for as long as the source
/// hands out fewer bytes than are still wanted.
///
/// On success `buf` holds the next `buf.len()` pending bytes and the source
/// has moved past exactly those. On failure the front of `buf` holds what
/// the source did hand out. When the fill succeeds, and how it fails, is
/// told by [`filled`]; an empty buffer is filled without asking.
pub fn read_full<R: Source>(rdr: &mut R, buf: &mut [u8]) -> (r: Result<(), ReadError<R::Error>>)
    ensures
        final(buf)@.len() == old(buf)@.len(),
        filled(*old(rdr), *final(rdr), r, old(buf)@.len()),
        match r {
            Ok(_) => final(buf)@ == old(rdr).pending().take(old(buf)@.len() as int),
            Err(_) => final(buf)@.take(old(rdr).supply() as int) == old(rdr).pending().take(
                old(rdr).supply() as int,
            ),
        },
{
    let len = buf.len();
    let mut n: usize = 0;
    proof {
        assert(rdr.pending().skip(0) =~= rdr.pending());
    }
    while n < len
        invariant
            n <= len,
            len == buf@.len(),
            len == old(buf)@.len(),
            delivered(old(rdr).pending(), rdr.pending(), n as nat),
            buf@.take(n as int) == old(rdr).pending().take(n as int),
            rdr.end() == old(rdr).end(),
            n <= old(rdr).supply(),
            rdr.supply() == old(rdr).supply() - n,
        decreases len - n,
    {
        let ghost before = buf@;
        let ghost pending = rdr.pending();
        let (_, tail) = buf.split_at_mut(n);
        let outcome = rdr.read(tail);
        let ghost got = tail@;
        proof {
            assert(buf@ =~= before.take(n as int) + got);
        }
        match advance(n, len, outcome) {
            Fill::Failed(e) => {
                proof {
                    assert(pending.skip(0) =~= pending);
                }
                return Err(e);
            },
            Fill::Done => {
                proof {
                    lemma_fill_extends(old(rdr).pending(), before, got, n as int, len - n);
                }
                n = len;
            },
            Fill::More(m) => {
                proof {
                    lemma_fill_extends(old(rdr).pending(), before, got, n as int, m - n);
                }
                n = m;
            },
        }
    }
    proof {
        assert(buf@.take(len as int) =~= buf@);
    }
    Ok(())
}

/// Reading numbers from any [`Source`].
///
/// Each method fills a buffer of the number's width with [`read_full`] and
/// decodes it. On success the source has moved past exactly the bytes that
/// were decoded; on failure no number is made of the bytes that came.
pub trait ReadBytesExt: Source {
    /// Reads one byte.
    fn read_u8(&mut self) -> (r: Result<u8, ReadError<Self::Error>>)
        ensures
            filled(*old(self), *final(self), r, 1),
            r matches Ok(v) ==> v == old(self).pending()[0],
    {
        let mut buf = [0u8; 1];
        match read_full(self, &mut buf) {
            Ok(_) => Ok(buf[0]),
            Err(e) => Err(e),
        }
    }

    /// Reads one byte as a two's complement integer.
    fn read_i8(&mut self) -> (r: Result<i8, ReadError<Self::Error>>)
        ensures
            filled(*old(self), *final(self), r, 1),
            r matches Ok(v) ==> v as int == signed(old(self).pending()[0] as nat, 1),
    {
        let mut buf = [0u8; 1];
        match read_full(self, &mut buf) {
            Ok(_) => {
                proof {
                    lemma_pow256_values();
                    lemma_u8_reading(buf[0]);
                }
                Ok(buf[0] as i8)
            },
            Err(e) => Err(e),
        }
    }

    /// Reads an unsigned 16-bit integer in the byte order `T`.
    fn read_u16<T: ByteOrder>(&mut self) -> (r: Result<u16, ReadError<Self::Error>>)
        ensures
            filled(*old(self), *final(self), r, 2),
            r matches Ok(v) ==> v as nat == T::value(old(self).pending().take(2)),
    {
        let mut buf = [0u8; 2];
        match read_full(self, &mut buf) {
            Ok(_) => {
                proof {
                    assert(buf@.take(2) =~= buf@);
                }
                Ok(T::read_u16(&buf))
            },
            Err(e) => Err(e),
        }
    }

    /// Reads a two's complement 16-bit integer in the byte order `T`.
    fn read_i16<T: ByteOrder>(&mut self) -> (r: Result<i16, ReadError<Self::Error>>)
        ensures
            filled(*old(self), *final(self), r, 2),
            r matches Ok(v) ==> v as int == signed(T::value(old(self).pending().take(2)), 2),
    {
        let mut buf = [0u8; 2];
        match read_full(self, &mut buf) {
            Ok(_) => {
                proof {
                    assert(buf@.take(2) =~= buf@);
                }
                Ok(T::read_i16(&buf))
            },
            Err(e) => Err(e),
        }
    }

    /// Reads an unsigned 32-bit integer in the byte order `T`.
    fn read_u32<T: ByteOrder>(&mut self) -> (r: Result<u32, ReadError<Self::Error>>)
        ensures
            filled(*old(self), *final(self), r, 4),
            r matches Ok(v) ==> v as nat == T::value(old(self).pending().take(4)),
    {
        let mut buf = [0u8; 4];
        match read_full(self, &mut buf) {
            Ok(_) => {
                proof {
                    assert(buf@.take(4) =~= buf@);
                }
                Ok(T::read_u32(&buf))
            },
            Err(e) => Err(e),
        }
    }

    /// Reads a two's complement 32-bit integer in the byte order `T`.
    fn read_i32<T: ByteOrder>(&mut self) -> (r: Result<i32, ReadError<Self::Error>>)
        ensures
            filled(*old(self), *final(self), r, 4),
            r matches Ok(v) ==> v as int == signed(T::value(old(self).pending().take(4)), 4),
    {
        let mut buf = [0u8; 4];
        match read_full(self, &mut buf) {
            Ok(_) => {
                proof {
                    assert(buf@.take(4) =~= buf@);
                }
                Ok(T::read_i32(&buf))
            },
            Err(e) => Err(e),
        }
    }

    /// Reads an unsigned 64-bit integer in the byte order `T`.
    fn read_u64<T: ByteOrder>(&mut self) -> (r: Result<u64, ReadError<Self::Error>>)
        ensures
            filled(*old(self), *final(self), r, 8),
            r matches Ok(v) ==> v as nat == T::value(old(self).pending().take(8)),
    {
        let mut buf = [0u8; 8];
        match read_full(self, &mut buf) {
            Ok(_) => {
                proof {
                    assert(buf@.take(8) =~= buf@);
                }
                Ok(T::read_u64(&buf))
            },
            Err(e) => Err(e),
        }
    }

    /// Reads a two's complement 64-bit integer in the byte order `T`.
    fn read_i64<T: ByteOrder>(&mut self) -> (r: Result<i64, ReadError<Self::Error>>)
        ensures
            filled(*old(self), *final(self), r, 8),
            r matches Ok(v) ==> v as int == signed(T::value(old(self).pending().take(8)), 8),
    {
        let mut buf = [0u8; 8];
        match read_full(self, &mut buf) {
            Ok(_) => {
                proof {
                    assert(buf@.take(8) =~= buf@);
                }
                Ok(T::read_i64(&buf))
            },
            Err(e) => Err(e),
        }
    }

    /// Reads an unsigned integer of `nbytes` bytes in the byte order `T`.
    fn read_uint<T: ByteOrder>(&mut self, nbytes: usize) -> (r: Result<u64, ReadError<Self::Error>>)
        requires
            1 <= nbytes <= 8,
        ensures
            filled(*old(self), *final(self), r, nbytes as nat),
            r matches Ok(v) ==> v as nat == T::value(old(self).pending().take(nbytes as int)),
    {
        let mut buf = [0u8; 8];
        let (head, _) = buf.split_at_mut(nbytes);
        match read_full(self, head) {
            Ok(_) => {
                proof {
                    assert(buf@.take(nbytes as int) =~= old(self).pending().take(nbytes as int));
                }
                Ok(T::read_uint(&buf, nbytes))
            },
            Err(e) => Err(e),
        }
    }

    /// Reads a two's complement integer of `nbytes` bytes in the byte order `T`,
    /// sign-extended to 64 bits.
    fn read_int<T: ByteOrder>(&mut self, nbytes: usize) -> (r: Result<i64, ReadError<Self::Error>>)
        requires
            1 <= nbytes <= 8,
        ensures
            filled(*old(self), *final(self), r, nbytes as nat),
            r matches Ok(v) ==> v as int == signed(
                        T::value(old(self).pending().take(nbytes as int)),
                        nbytes as nat,
                    ),
    {
        let mut buf = [0u8; 8];
        let (head, _) = buf.split_at_mut(nbytes);
        match read_full(self, head) {
            Ok(_) => {
                proof {
                    assert(buf@.take(nbytes as int) =~= old(self).pending().take(nbytes as int));
                }
                Ok(T::read_int(&buf, nbytes))
            },
            Err(e) => Err(e),
        }
    }
}

impl<R: Source> ReadBytesExt for R {}

/// A sink that takes bytes in order.
///
/// `written` is the run of bytes that the sink has taken so far.
pub trait Sink: Sized {
    /// What the sink reports when it fails.
    type Error;

    /// The bytes taken so far, in order.
    spec fn written(&self) -> Seq<u8>;

    /// The report with which the sink would fail if it were now given
    /// `bytes`, or `None` if it would take them.
    spec fn refusal(&self, bytes: Seq<u8>) -> Option<Self::Error>;

    /// Takes all of `buf`, or fails with the sink's refusal of it.
    fn write_all(&mut self, buf: &[u8]) -> (r: Result<(), Self::Error>)
        ensures
            match r {
                Ok(_) => {
                    &&& old(self).refusal(buf@) is None
                    &&& final(self).written() == old(self).written() + buf@
                },
                Err(e) => old(self).refusal(buf@) == Some(e),
            },
    ;
}

/// What a write of `bytes` that ended with `r` has done to its sink: it
/// failed with the sink's refusal of `bytes` if there was one, and
/// otherwise the sink has taken exactly `bytes`.
pub open spec fn took<W: Sink>(before: W, after: W, r: Result<(), W::Error>, bytes: Seq<u8>) -> bool {
    match r {
        Ok(_) => {
            &&& before.refusal(bytes) is None
            &&& after.written() == before.written() + bytes
        },
        Err(e) => before.refusal(bytes) == Some(e),
    }
}

/// Writing numbers to any [`Sink`].
///
/// Each method encodes the number into a buffer of its width and hands the
/// whole buffer to the sink once. The result is the sink's own.
pub trait WriteBytesExt: Sink {
    /// Writes one byte.
    fn write_u8(&mut self, n: u8) -> (r: Result<(), Self::Error>)
        ensures
            took(*old(self), *final(self), r, seq![n]),
    {
        let buf = [n];
        proof {
            assert(buf@ =~= seq![n]);
        }
        self.write_all(&buf)
    }

    /// Writes the two's complement pattern of `n` as one byte.
    fn write_i8(&mut self, n: i8) -> (r: Result<(), Self::Error>)
        ensures
            took(*old(self), *final(self), r, seq![unsigned(n as int, 1) as u8]),
    {
        proof {
            lemma_pow256_values();
            lemma_i8_pattern(n);
        }
        self.write_u8(n as u8)
    }

    /// Writes `n` as 2 bytes in the byte order `T`.
    fn write_u16<T: ByteOrder>(&mut self, n: u16) -> (r: Result<(), Self::Error>)
        ensures
            took(*old(self), *final(self), r, T::bytes(n as nat, 2)),
    {
        let mut buf = [0u8; 2];
        T::write_u16(&mut buf, n);
        proof {
            assert(buf@ =~= T::bytes(n as nat, 2));
        }
        self.write_all(&buf)
    }

    /// Writes the two's complement pattern of `n` as 2 bytes in the byte
    /// order `T`.
    fn write_i16<T: ByteOrder>(&mut self, n: i16) -> (r: Result<(), Self::Error>)
        ensures
            took(*old(self), *final(self), r, T::bytes(unsigned(n as int, 2), 2)),
    {
        let mut buf = [0u8; 2];
        T::write_i16(&mut buf, n);
        proof {
            assert(buf@ =~= T::bytes(unsigned(n as int, 2), 2));
        }
        self.write_all(&buf)
    }

    /// Writes `n` as 4 bytes in the byte order `T`.
    fn write_u32<T: ByteOrder>(&mut self, n: u32) -> (r: Result<(), Self::Error>)
        ensures
            took(*old(self), *final(self), r, T::bytes(n as nat, 4)),
    {
        let mut buf = [0u8; 4];
        T::write_u32(&mut buf, n);
        proof {
            assert(buf@ =~= T::bytes(n as nat, 4));
        }
        self.write_all(&buf)
    }

    /// Writes the two's complement pattern of `n` as 4 bytes in the byte
    /// order `T`.
    fn write_i32<T: ByteOrder>(&mut self, n: i32) -> (r: Result<(), Self::Error>)
        ensures
            took(*old(self), *final(self), r, T::bytes(unsigned(n as int, 4), 4)),
    {
        let mut buf = [0u8; 4];
        T::write_i32(&mut buf, n);
        proof {
            assert(buf@ =~= T::bytes(unsigned(n as int, 4), 4));
        }
        self.write_all(&buf)
    }

    /// Writes `n` as 8 bytes in the byte order `T`.
    fn write_u64<T: ByteOrder>(&mut self, n: u64) -> (r: Result<(), Self::Error>)
        ensures
            took(*old(self), *final(self), r, T::bytes(n as nat, 8)),
    {
        let mut buf = [0u8; 8];
        T::write_u64(&mut buf, n);
        proof {
            assert(buf@ =~= T::bytes(n as nat, 8));
        }
        self.write_all(&buf)
    }

    /// Writes the two's complement pattern of `n` as 8 bytes in the byte
    /// order `T`.
    fn write_i64<T: ByteOrder>(&mut self, n: i64) -> (r: Result<(), Self::Error>)
        ensures
            took(*old(self), *final(self), r, T::bytes(unsigned(n as int, 8), 8)),
    {
        let mut buf = [0u8; 8];
        T::write_i64(&mut buf, n);
        proof {
            assert(buf@ =~= T::bytes(unsigned(n as int, 8), 8));
        }
        self.write_all(&buf)
    }

    /// Writes the `nbytes` low-order bytes of `n` in the byte order `T`.
    fn write_uint<T: ByteOrder>(&mut self, n: u64, nbytes: usize) -> (r: Result<(), Self::Error>)
        requires
            1 <= nbytes <= 8,
        ensures
            took(*old(self), *final(self), r, T::bytes(
                n as nat,
                nbytes as nat,
            )),
    {
        let mut buf = [0u8; 8];
        T::write_uint(&mut buf, n, nbytes);
        let (head, _) = buf.split_at(nbytes);
        proof {
            assert(head@ =~= T::bytes(n as nat, nbytes as nat));
        }
        self.write_all(head)
    }

    /// Writes the `nbytes` low-order bytes of the two's complement pattern of
    /// `n` in the byte order `T`.
    fn write_int<T: ByteOrder>(&mut self, n: i64, nbytes: usize) -> (r: Result<(), Self::Error>)
        requires
            1 <= nbytes <= 8,
        ensures
            took(*old(self), *final(self), r, T::bytes(
                unsigned(n as int, 8),
                nbytes as nat,
            )),
    {
        let mut buf = [0u8; 8];
        T::write_int(&mut buf, n, nbytes);
        let (head, _) = buf.split_at(nbytes);
        proof {
            assert(head@ =~= T::bytes(unsigned(n as int, 8), nbytes as nat));
        }
        self.write_all(head)
    }
}

impl<W: Sink> WriteBytesExt for W {}

} // verus!
