//! A writer that collects output and hands it to its sink when flushed.
use vstd::prelude::*;
use vstd::string::StringSliceAdditionalSpecFns;
use crate::device::ByteSink;
use crate::error::{DeviceError, Error};
use crate::scan::NEWLINE;

verus! {

/// One call of a sink: the bytes handed to it, and whether it took them.
pub struct SinkCall {
    pub bytes: Seq<u8>,
    pub accepted: bool,
}

/// What can be told of a writer from outside: the bytes it holds, and the
/// calls of its sink that it has made.
pub struct WriterView {
    /// The bytes written and not flushed yet.
    pub pending: Seq<u8>,
    /// The calls of the sink, oldest first.
    pub calls: Seq<SinkCall>,
}

impl WriterView {
    /// The writer after `bytes` were written to it.
    pub open spec fn write(self, bytes: Seq<u8>) -> WriterView {
        WriterView { pending: self.pending + bytes, calls: self.calls }
    }

    /// The writer after a flush that the sink answered with success, for
    /// `accepted`, or with failure.  A writer that holds nothing does not
    /// call its sink; any other hands all that it holds to the sink in one
    /// call, and holds nothing afterwards if the sink took it.
    pub open spec fn flush(self, accepted: bool) -> WriterView {
        if self.pending.len() == 0 {
            self
        } else {
            WriterView {
                pending: if accepted {
                    Seq::empty()
                } else {
                    self.pending
                },
                calls: self.calls.push(SinkCall { bytes: self.pending, accepted }),
            }
        }
    }
}

/// Collects output in memory.  Nothing reaches the sink before `flush`.
pub struct OutputWriter<W: ByteSink> {
    writer: W,
    buf: Vec<u8>,
    calls: Ghost<Seq<SinkCall>>,
}

impl<W: ByteSink> View for OutputWriter<W> {
    type V = WriterView;

    closed spec fn view(&self) -> WriterView {
        WriterView { pending: self.buf@, calls: self.calls@ }
    }
}

impl<W: ByteSink> OutputWriter<W> {
    /// The sink that the writer writes to.
    pub closed spec fn sink(&self) -> W {
        self.writer
    }

    /// A writer to `writer` that holds nothing yet.
    pub fn from_writer(writer: W) -> (w: Self)
        ensures
            w@ == (WriterView { pending: Seq::empty(), calls: Seq::empty() }),
            w.sink() == writer,
    {
        OutputWriter {
            writer,
            buf: Vec::with_capacity(65536),
            calls: Ghost(Seq::empty()),
        }
    }

    /// The sink, to look at.
    pub fn get_ref(&self) -> (w: &W)
        ensures
            *w == self.sink(),
    {
        &self.writer
    }

    /// Appends the bytes of `s` to the pending output.
    pub fn print(&mut self, s: &str)
        ensures
            final(self)@ == old(self)@.write(s.spec_bytes()),
            final(self).sink() == old(self).sink(),
    {
        self.buf.extend_from_slice(s.as_bytes());
        assert(self.buf@ =~= old(self).buf@ + s.spec_bytes());
    }

    /// Appends the bytes of `s` and a line feed to the pending output.
    pub fn println(&mut self, s: &str)
        ensures
            final(self)@ == old(self)@.write(s.spec_bytes()).write(seq![NEWLINE]),
            final(self).sink() == old(self).sink(),
    {
        self.buf.extend_from_slice(s.as_bytes());
        self.buf.push(NEWLINE);
        assert(self.buf@ =~= old(self).buf@ + s.spec_bytes() + seq![NEWLINE]);
    }

    /// Appends `bytes` to the pending output and answers how many bytes it
    /// took, which is all of them.
    pub fn write(&mut self, bytes: &[u8]) -> (n: usize)
        ensures
            final(self)@ == old(self)@.write(bytes@),
            final(self).sink() == old(self).sink(),
            n == bytes@.len(),
    {
        self.buf.extend_from_slice(bytes);
        assert(self.buf@ =~= old(self).buf@ + bytes@);
        bytes.len()
    }

    /// Makes room for `hint` more bytes, if the memory can be had.  The
    /// pending output stays as it is.
    pub fn set_buf_size(&mut self, hint: usize)
        ensures
            final(self)@ == old(self)@,
            final(self).sink() == old(self).sink(),
    {
        let _ = self.buf.try_reserve(hint);
    }

    /// Takes the sink's answer to a write of the pending output.  After a
    /// success the output is no longer pending; after a failure it still
    /// is, and the failure is reported as `IoFailure`.
    fn conclude(&mut self, outcome: Result<(), DeviceError>) -> (r: Result<(), Error>)
        requires
            old(self).buf@.len() > 0,
        ensures
            final(self)@ == old(self)@.flush(outcome is Ok),
            final(self).sink() == old(self).sink(),
            r == (match outcome {
                Ok(()) => Ok::<(), Error>(()),
                Err(_) => Err::<(), Error>(Error::IoFailure),
            }),
    {
        self.calls = Ghost(
            self.calls@.push(SinkCall { bytes: self.buf@, accepted: outcome is Ok }),
        );
        match outcome {
            Ok(()) => {
                self.buf.clear();
                Ok(())
            },
            Err(_) => Err(Error::IoFailure),
        }
    }

    /// Hands the pending output to the sink in one call.  A writer that
    /// holds nothing does not call its sink.  If the sink fails, the output
    /// stays pending and nothing is tried again.  A sink that keeps account
    /// of what it takes has taken the pending output afterwards.
    pub fn flush(&mut self) -> (r: Result<(), Error>)
        ensures
            final(self)@ == old(self)@.flush(r is Ok),
            r is Err ==> r == Err::<(), Error>(Error::IoFailure),
            old(self)@.pending.len() == 0 ==> r is Ok && *final(self) == *old(self),
            old(self).sink().taken() matches Some(before) ==> {
                &&& r is Ok
                &&& final(self).sink().taken() == Some(before + old(self)@.pending)
            },
    {
        if self.buf.len() == 0 {
            proof {
                if let Some(before) = self.sink().taken() {
                    assert(before + self@.pending =~= before);
                }
            }
            return Ok(());
        }
        let outcome = self.writer.write_all(self.buf.as_slice());
        self.conclude(outcome)
    }
}

/// Flushing a writer that holds nothing changes nothing, whatever the sink
/// would answer: the sink is not called.
pub proof fn lemma_flush_of_nothing(w: WriterView, accepted: bool)
    requires
        w.pending.len() == 0,
    ensures
        w.flush(accepted) == w,
{
}

/// Writing to a writer that holds nothing and flushing it hands the sink
/// exactly the bytes written, in one call, and leaves nothing pending.  A
/// second flush does not call the sink again.
pub proof fn lemma_write_then_flush(w: WriterView, bytes: Seq<u8>, again: bool)
    requires
        w.pending.len() == 0,
        bytes.len() > 0,
    ensures
        w.write(bytes).flush(true).calls == w.calls.push(SinkCall { bytes, accepted: true }),
        w.write(bytes).flush(true).pending.len() == 0,
        w.write(bytes).flush(true).flush(again) == w.write(bytes).flush(true),
{
    assert(w.pending + bytes =~= bytes);
}

/// Output that the sink did not take is not lost: it is handed over again,
/// with what was written since, by the next flush.
pub proof fn lemma_flush_again(w: WriterView, more: Seq<u8>)
    requires
        w.pending.len() > 0,
    ensures
        w.flush(false).write(more).flush(true).calls == w.calls.push(
            SinkCall { bytes: w.pending, accepted: false },
        ).push(SinkCall { bytes: w.pending + more, accepted: true }),
        w.flush(false).write(more).flush(true).pending.len() == 0,
{
}

} // verus!
