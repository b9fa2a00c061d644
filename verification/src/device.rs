//! The two capabilities that readers and writers need from the outside
//! world, and in-memory devices that provide them.
use vstd::prelude::*;
use crate::error::DeviceError;

verus! {

/// What is still to come from a source: bytes, and then the end of the
/// stream or, for `broken`, a failure.
pub struct Stream {
    pub bytes: Seq<u8>,
    pub broken: bool,
}

impl Stream {
    /// The stream without its first `n` bytes.
    pub open spec fn skip(self, n: int) -> Stream {
        Stream { bytes: self.bytes.skip(n), broken: self.broken }
    }

    /// Whether a source with this stream before it fails when it is asked:
    /// it does when no byte is left and the stream is broken.
    pub open spec fn fails(self) -> bool {
        self.bytes.len() == 0 && self.broken
    }
}

/// Something bytes can be read from.
///
/// Nothing is taken for granted of a source unless the source itself says
/// what it is going to deliver: a reader tests every answer before it uses
/// it.
pub trait ByteSource {
    /// What the source is going to deliver, for a source that commits
    /// itself.  A source that leaves this as it is promises nothing.
    open spec fn known(&self) -> Option<Stream> {
        None
    }

    /// Fills a front part of `buf` and answers how many bytes it filled.
    /// `Ok(0)` means that the stream has ended.
    ///
    /// A source that has said what it is going to deliver fills the buffer
    /// with the next of those bytes, with at least one of them as long as
    /// there is one and the buffer has room, and goes on from there the next
    /// time.  It fails only at the end of a broken stream, and there it
    /// fails whenever it is asked.
    fn read(&mut self, buf: &mut [u8]) -> (r: Result<usize, DeviceError>)
        ensures
            old(self).known() matches Some(stream) ==> {
                &&& final(buf)@.len() == old(buf)@.len()
                &&& if stream.fails() {
                    &&& r is Err
                    &&& final(self).known() == Some(stream)
                } else {
                    &&& r is Ok
                    &&& r->Ok_0 <= old(buf)@.len()
                    &&& r->Ok_0 <= stream.bytes.len()
                    &&& r->Ok_0 == 0 ==> stream.bytes.len() == 0 || old(buf)@.len() == 0
                    &&& final(buf)@.take(r->Ok_0 as int) == stream.bytes.take(r->Ok_0 as int)
                    &&& final(self).known() == Some(stream.skip(r->Ok_0 as int))
                }
            },
    ;
}

/// Something bytes can be written to.
///
/// Nothing is taken for granted of a sink unless the sink itself keeps
/// account of what it takes.
pub trait ByteSink {
    /// The bytes that the sink has taken so far, for a sink that keeps
    /// account.  A sink that leaves this as it is promises nothing.
    open spec fn taken(&self) -> Option<Seq<u8>> {
        None
    }

    /// Takes all of `bytes`, or fails.
    ///
    /// A sink that keeps account does not fail, and has taken `bytes` behind
    /// all that it had taken before.
    fn write_all(&mut self, bytes: &[u8]) -> (r: Result<(), DeviceError>)
        ensures
            old(self).taken() matches Some(before) ==> {
                &&& r is Ok
                &&& final(self).taken() == Some(before + bytes@)
            },
    ;
}

/// The smallest of three lengths.
pub open spec fn least(a: int, b: int, c: int) -> int {
    if a <= b && a <= c {
        a
    } else if b <= c {
        b
    } else {
        c
    }
}

/// A source that hands out the bytes of a vector, a limited number of them
/// per call and at least one.  Behind the last byte it reports the end of the
/// stream, or, if it was made to, a failure.
pub struct MemorySource {
    data: Vec<u8>,
    pos: usize,
    chunk: usize,
    broken: bool,
}

impl MemorySource {
    #[verifier::type_invariant]
    spec fn inv(self) -> bool {
        self.pos <= self.data.len() && self.chunk > 0
    }

    /// The bytes that have not been handed out yet.
    pub closed spec fn remaining(&self) -> Seq<u8> {
        self.data@.skip(self.pos as int)
    }

    /// The most bytes that one call of `read` hands out.
    pub closed spec fn chunk(&self) -> nat {
        if self.chunk == 0 {
            1
        } else {
            self.chunk as nat
        }
    }

    /// Whether the source fails behind its last byte.
    pub closed spec fn broken(&self) -> bool {
        self.broken
    }

    /// A source of the bytes of `data` that fills every buffer as far as
    /// its bytes reach.
    pub fn new(data: Vec<u8>) -> (s: Self)
        ensures
            s.remaining() == data@,
            s.chunk() == usize::MAX,
            !s.broken(),
    {
        MemorySource { data, pos: 0, chunk: usize::MAX, broken: false }
    }

    /// A source of the bytes of `data` that hands out at most `chunk` of them
    /// per call.  A chunk of no bytes counts as one of one byte.
    pub fn with_chunk(data: Vec<u8>, chunk: usize) -> (s: Self)
        ensures
            s.remaining() == data@,
            s.chunk() == if chunk == 0 {
                1
            } else {
                chunk as nat
            },
            !s.broken(),
    {
        MemorySource {
            data,
            pos: 0,
            chunk: if chunk == 0 {
                1
            } else {
                chunk
            },
            broken: false,
        }
    }

    /// The same source, but one that fails behind its last byte where it
    /// would have reported the end of the stream.
    pub fn failing(self) -> (s: Self)
        ensures
            s.remaining() == self.remaining(),
            s.chunk() == self.chunk(),
            s.broken(),
    {
        proof {
            use_type_invariant(&self);
        }
        MemorySource { data: self.data, pos: self.pos, chunk: self.chunk, broken: true }
    }
}

impl ByteSource for MemorySource {
    /// A memory source is going to deliver the bytes it has left.
    open spec fn known(&self) -> Option<Stream> {
        Some(Stream { bytes: self.remaining(), broken: self.broken() })
    }

    /// Hands out the next bytes, as many as the buffer, the chunk size and
    /// the bytes left allow.  Fails if it is broken and has no byte left,
    /// and leaves the buffer as it is then.
    fn read(&mut self, buf: &mut [u8]) -> (r: Result<usize, DeviceError>)
        ensures
            r == (if old(self).remaining().len() == 0 && old(self).broken() {
                Err::<usize, DeviceError>(DeviceError)
            } else {
                Ok::<usize, DeviceError>(
                    least(
                        old(buf)@.len() as int,
                        old(self).chunk() as int,
                        old(self).remaining().len() as int,
                    ) as usize,
                )
            }),
            r is Ok ==> final(buf)@ == old(self).remaining().take(r->Ok_0 as int) + old(
                buf,
            )@.skip(r->Ok_0 as int),
            r is Ok ==> final(self).remaining() == old(self).remaining().skip(r->Ok_0 as int),
            r is Err ==> final(buf)@ == old(buf)@ && final(self).remaining() == old(
                self,
            ).remaining(),
            final(buf)@.len() == old(buf)@.len(),
            final(self).chunk() == old(self).chunk(),
            final(self).broken() == old(self).broken(),
    {
        proof {
            use_type_invariant(&*self);
        }
        if self.broken && self.pos == self.data.len() {
            return Err(DeviceError);
        }
        let start: usize = self.pos;
        let mut n: usize = 0;
        while n < buf.len() && n < self.chunk && start + n < self.data.len()
            invariant
                start == self.pos,
                start <= self.data.len(),
                self.chunk > 0,
                self.data == old(self).data,
                self.chunk == old(self).chunk,
                self.broken == old(self).broken,
                n <= buf.len(),
                n <= self.chunk,
                start + n <= self.data.len(),
                buf@.len() == old(buf)@.len(),
                buf@.take(n as int) == self.data@.subrange(start as int, start + n),
                buf@.skip(n as int) == old(buf)@.skip(n as int),
            decreases buf.len() - n,
        {
            let ghost before = buf@;
            buf[n] = self.data[start + n];
            n += 1;
            assert(buf@.take(n as int) =~= before.take(n - 1).push(self.data@[start + n - 1]));
            assert(buf@.skip(n as int) =~= before.skip(n - 1).skip(1));
            assert(self.data@.subrange(start as int, start + n) =~= self.data@.subrange(
                start as int,
                start + n - 1,
            ).push(self.data@[start + n - 1]));
            assert(old(buf)@.skip(n as int) =~= old(buf)@.skip(n - 1).skip(1));
        }
        self.pos = start + n;
        assert(old(self).remaining().take(n as int) =~= self.data@.subrange(
            start as int,
            start + n,
        ));
        assert(buf@ =~= buf@.take(n as int) + buf@.skip(n as int));
        assert(self.remaining() =~= old(self).remaining().skip(n as int));
        Ok(n)
    }
}

/// A sink that keeps what it is given.
pub struct MemorySink {
    data: Vec<u8>,
    writes: usize,
}

impl MemorySink {
    /// Everything written so far.
    pub closed spec fn contents(&self) -> Seq<u8> {
        self.data@
    }

    /// How many times `write_all` was called, as far as a `usize` counts.
    pub closed spec fn writes(&self) -> nat {
        self.writes as nat
    }

    /// An empty sink.
    pub fn new() -> (s: Self)
        ensures
            s.contents() == Seq::<u8>::empty(),
            s.writes() == 0,
    {
        MemorySink { data: Vec::new(), writes: 0 }
    }

    /// The bytes written so far.
    pub fn bytes(&self) -> (b: &Vec<u8>)
        ensures
            b@ == self.contents(),
    {
        &self.data
    }

    /// The number of calls of `write_all` so far.
    pub fn write_count(&self) -> (n: usize)
        ensures
            n == self.writes(),
    {
        self.writes
    }
}

impl ByteSink for MemorySink {
    /// A memory sink keeps account: it has taken what it holds.
    open spec fn taken(&self) -> Option<Seq<u8>> {
        Some(self.contents())
    }

    /// Never fails: appends `bytes` and counts the call.
    fn write_all(&mut self, bytes: &[u8]) -> (r: Result<(), DeviceError>)
        ensures
            r == Ok::<(), DeviceError>(()),
            final(self).contents() == old(self).contents() + bytes@,
            final(self).writes() == if old(self).writes() < usize::MAX {
                old(self).writes() + 1
            } else {
                old(self).writes()
            },
    {
        self.data.extend_from_slice(bytes);
        assert(self.data@ =~= old(self).data@ + bytes@);
        if self.writes < usize::MAX {
            self.writes = self.writes + 1;
        }
        Ok(())
    }
}

} // verus!
