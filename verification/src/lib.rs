//! Buffered token input and buffered output over abstract byte devices.
//!
//! [`InputReader`] reads loosely formatted text from a [`ByteSource`]:
//! integers, decimal numbers, words, single characters and lines, separated
//! by whatever is not part of them.  [`OutputWriter`] collects output and
//! hands it to a [`ByteSink`] when it is flushed.  Neither of them panics;
//! what goes wrong is reported as an [`Error`].
//!
//! The modules `scan` and `laws` say what a token is and what holds of the
//! reads on every input.
pub mod decimal;
pub mod device;
pub mod error;
pub mod input_reader;
pub mod laws;
pub mod narrow;
pub mod output_writer;
pub mod readable;
pub mod scan;
pub mod windows;

pub use decimal::Decimal;
pub use device::{ByteSink, ByteSource, MemorySink, MemorySource, Stream};
pub use error::{DeviceError, Error};
pub use input_reader::InputReader;
pub use output_writer::OutputWriter;
pub use readable::InputReadable;
