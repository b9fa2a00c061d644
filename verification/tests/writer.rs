use easy_io::{ByteSink, DeviceError, Error, MemorySink, OutputWriter};

/// Fails the first `failures` writes and keeps the others.
struct FlakySink {
    failures: usize,
    calls: usize,
    data: Vec<u8>,
}

impl ByteSink for FlakySink {
    fn write_all(&mut self, bytes: &[u8]) -> Result<(), DeviceError> {
        self.calls += 1;
        if self.calls <= self.failures {
            return Err(DeviceError);
        }
        self.data.extend_from_slice(bytes);
        Ok(())
    }
}

#[test]
fn nothing_reaches_the_sink_before_a_flush() {
    let mut w = OutputWriter::from_writer(MemorySink::new());
    w.print("abc");
    w.println("def");
    assert_eq!(w.write(b"ghi"), 3);
    assert_eq!(w.get_ref().write_count(), 0);
    assert!(w.get_ref().bytes().is_empty());
}

#[test]
fn flush_of_nothing_does_not_call_the_sink() {
    let mut w = OutputWriter::from_writer(MemorySink::new());
    assert_eq!(w.flush(), Ok(()));
    assert_eq!(w.flush(), Ok(()));
    assert_eq!(w.get_ref().write_count(), 0);
    w.print("");
    assert_eq!(w.write(b""), 0);
    assert_eq!(w.flush(), Ok(()));
    assert_eq!(w.get_ref().write_count(), 0);
    let mut w = OutputWriter::from_writer(FlakySink { failures: 1, calls: 0, data: Vec::new() });
    assert_eq!(w.flush(), Ok(()));
    assert_eq!(w.get_ref().calls, 0);
}

#[test]
fn write_then_flush_hands_over_the_bytes_once() {
    let mut w = OutputWriter::from_writer(MemorySink::new());
    assert_eq!(w.write(b"hello"), 5);
    assert_eq!(w.flush(), Ok(()));
    assert_eq!(w.get_ref().bytes().as_slice(), b"hello");
    assert_eq!(w.get_ref().write_count(), 1);
    assert_eq!(w.flush(), Ok(()));
    assert_eq!(w.get_ref().bytes().as_slice(), b"hello");
    assert_eq!(w.get_ref().write_count(), 1);
}

#[test]
fn output_is_handed_over_in_one_call_and_in_order() {
    let mut w = OutputWriter::from_writer(MemorySink::new());
    w.print("1 ");
    w.println("2");
    w.println("");
    assert_eq!(w.write(&[0, 255]), 2);
    assert_eq!(w.flush(), Ok(()));
    assert_eq!(w.get_ref().bytes().as_slice(), b"1 2\n\n\x00\xff");
    assert_eq!(w.get_ref().write_count(), 1);
    w.print("x");
    assert_eq!(w.flush(), Ok(()));
    assert_eq!(w.get_ref().bytes().as_slice(), b"1 2\n\n\x00\xffx");
    assert_eq!(w.get_ref().write_count(), 2);
}

#[test]
fn text_is_written_as_its_bytes() {
    let mut w = OutputWriter::from_writer(MemorySink::new());
    w.println("\u{e9}\u{20ac}");
    assert_eq!(w.flush(), Ok(()));
    assert_eq!(w.get_ref().bytes().as_slice(), "\u{e9}\u{20ac}\n".as_bytes());
}

#[test]
fn failure_of_the_sink_is_reported_and_nothing_is_lost() {
    let mut w = OutputWriter::from_writer(FlakySink { failures: 2, calls: 0, data: Vec::new() });
    w.print("keep");
    assert_eq!(w.flush(), Err(Error::IoFailure));
    assert_eq!(w.get_ref().calls, 1);
    w.print(" me");
    assert_eq!(w.flush(), Err(Error::IoFailure));
    assert_eq!(w.get_ref().calls, 2);
    assert!(w.get_ref().data.is_empty());
    assert_eq!(w.flush(), Ok(()));
    assert_eq!(w.get_ref().calls, 3);
    assert_eq!(w.get_ref().data.as_slice(), b"keep me");
    assert_eq!(w.flush(), Ok(()));
    assert_eq!(w.get_ref().calls, 3);
}

#[test]
fn room_for_more_does_not_change_the_output() {
    let mut w = OutputWriter::from_writer(MemorySink::new());
    w.print("a");
    w.set_buf_size(1 << 20);
    w.set_buf_size(0);
    w.set_buf_size(usize::MAX);
    w.print("b");
    assert_eq!(w.get_ref().write_count(), 0);
    assert_eq!(w.flush(), Ok(()));
    assert_eq!(w.get_ref().bytes().as_slice(), b"ab");
}
