//! A reader that splits a byte stream into tokens.
//!
//! # How to read the contracts
//!
//! In general a reader cannot tell what its source is going to deliver.  So
//! the contracts speak first of the bytes that the reader had received when
//! a read returned:
//!
//! - `consumed()` are the bytes that the cursor has passed, `buffered()`
//!   those that lie before it in the buffer, and `delivered()` both, which is
//!   all that the source has handed over;
//! - `window(before)` is what has been delivered from the place on where
//!   the cursor stood in the state `before`: the input of the read;
//! - `stalled()` says that the reader holds no byte and has not seen the
//!   stream end: it has not asked its source yet, or the source has failed.
//!
//! Every read ensures the same of the scanner that belongs to it (see the
//! module `scan`).  The result is the scanner's answer on the window.  The
//! reader `follows` its old state by as many bytes as the scanner says are
//! used.  And where the bytes that were buffered before the read decide the
//! scanner's answer, the answer on the window is that answer: the source is
//! not asked then, and the read cannot fail.
//!
//! A source may say what it is going to deliver (see `ByteSource::known`).
//! The bytes `to_come()` from it and the buffered ones are `expected()`
//! then, and if nothing stands in the way, all is `foreseen()`.  For such a
//! reader a read ensures more: the answer on the window is the scanner's
//! answer on all that was expected, and the read fails with `IoFailure`
//! only where the scanner does, at the end of a stream that `breaks()`.  The
//! read returns what is written in the stream, whatever the size of the
//! buffer and however the source hands out its bytes.
//!
//! The predicate `reads` puts all this together.  The laws in the module
//! `laws` add what the scanners answer on numbers and words as they are
//! usually written, and that a scanner's answer, once decided, is the same
//! on every longer input.
use vstd::prelude::*;
use crate::decimal::Decimal;
use crate::device::ByteSource;
use crate::error::{DeviceError, Error};
use crate::readable::InputReadable;
use crate::narrow::{lemma_push_digit_wraps, lemma_wrap_negated, low_signed, word, Width};
use crate::scan::{
    digit_values,
    digits_value,
    is_digit,
    is_graphic,
    lemma_digit_values_push,
    lemma_digits_value_push,
    lemma_text_of_push,
    magnitude,
    scan_char,
    scan_decimal,
    scan_line,
    scan_more,
    scan_sign,
    scan_signed,
    scan_skip,
    scan_unsigned,
    scan_word,
    text_of,
    viewed,
    ByteClass,
    Scanned,
    MINUS,
    NEWLINE,
    POINT,
    ZERO,
};

verus! {

/// Reads tokens from a byte source through a buffer of fixed capacity.
///
/// The buffer is filled by one call of the source whenever its last byte has
/// been consumed, so a reader that has returned a token either holds the
/// byte that follows the token or has seen the source end.  Once the source
/// has answered a read with no bytes it is not asked again.  A failure of
/// the source fails the read that met it with `IoFailure`; what that read
/// had consumed is gone.  The reader counts the bytes it receives, and a
/// source that hands out more of them than a `u64` can count is taken to
/// have failed.
pub struct InputReader<S: ByteSource> {
    source: S,
    buf: Vec<u8>,
    bytes_read: usize,
    current_index: usize,
    exhausted: bool,
    total: u64,
    taken: Ghost<Seq<u8>>,
    asked: Ghost<Seq<nat>>,
}

impl<S: ByteSource> InputReader<S> {
    /// The invariant of the reader: the cursor stands inside the filled part
    /// of the buffer, a reader that has seen the end holds no bytes, and the
    /// count of the bytes received so far is exact.
    pub closed spec fn wf(&self) -> bool {
        &&& self.current_index <= self.bytes_read <= self.buf.len()
        &&& self.exhausted ==> self.current_index == self.bytes_read
        &&& self.total == self.taken@.len() + (self.bytes_read - self.current_index)
    }

    /// The bytes consumed so far, oldest first.
    pub closed spec fn consumed(&self) -> Seq<u8> {
        self.taken@
    }

    /// The bytes received from the source and not consumed yet.
    pub closed spec fn buffered(&self) -> Seq<u8> {
        self.buf@.subrange(self.current_index as int, self.bytes_read as int)
    }

    /// Whether the source has reported its end.
    pub closed spec fn ended(&self) -> bool {
        self.exhausted
    }

    /// The size of the buffer.
    pub closed spec fn capacity(&self) -> nat {
        self.buf@.len()
    }

    /// The source that the reader reads from.
    pub closed spec fn source(&self) -> S {
        self.source
    }

    /// The sizes of the buffers that the source was asked to fill, oldest
    /// first.
    pub closed spec fn offers(&self) -> Seq<nat> {
        self.asked@
    }

    /// The bytes that the source is still going to deliver, for a source
    /// that says what it delivers; nothing for any other.
    pub open spec fn to_come(&self) -> Seq<u8> {
        match self.source().known() {
            Some(stream) => stream.bytes,
            None => Seq::empty(),
        }
    }

    /// Whether the source is going to fail behind the bytes to come, for a
    /// source that says what it delivers.
    pub open spec fn breaks(&self) -> bool {
        match self.source().known() {
            Some(stream) => stream.broken,
            None => false,
        }
    }

    /// The bytes that the reader is going to read, as far as that is known:
    /// the buffered ones, then those to come.
    pub open spec fn expected(&self) -> Seq<u8> {
        self.buffered() + self.to_come()
    }

    /// Whether all that the reader is going to read is known beforehand.
    /// For that the source must say what it is going to deliver, and a
    /// reader that has seen the end must have nothing to come; the buffer
    /// must have room, and the length of the whole stream must fit the
    /// reader's count.
    pub open spec fn foreseen(&self) -> bool {
        &&& self.source().known() is Some
        &&& self.ended() ==> self.to_come().len() == 0 && !self.breaks()
        &&& self.capacity() > 0
        &&& self.consumed().len() + self.expected().len() <= u64::MAX
    }

    /// Whether a reader without bytes has none because its source has
    /// failed at the end of a broken stream.  That is so after every read
    /// from a source that says what it delivers: such a reader has always
    /// asked for the bytes that it lacks.
    pub open spec fn drained(&self) -> bool {
        self.stalled() ==> self.to_come().len() == 0 && self.breaks()
    }

    /// Every byte received from the source so far.
    pub open spec fn delivered(&self) -> Seq<u8> {
        self.consumed() + self.buffered()
    }

    /// Whether the reader holds no byte although the source has not reported
    /// its end: the state before the first read and after a failed one.
    pub open spec fn stalled(&self) -> bool {
        self.buffered().len() == 0 && !self.ended()
    }

    /// The bytes that this reader has received from the place on where the
    /// cursor of `before` stood.
    pub open spec fn window(&self, before: &Self) -> Seq<u8> {
        self.delivered().skip(before.consumed().len() as int)
    }

    /// Whether this reader can be what `before` has become by consuming
    /// `used` bytes.  What had been received stays, the buffer keeps its size,
    /// and the source is always asked to fill the whole buffer.  It is left
    /// alone unless the last buffered byte has been consumed, and always
    /// after it reported its end.
    pub open spec fn follows(&self, before: &Self, used: nat) -> bool {
        &&& self.capacity() == before.capacity()
        &&& before.delivered().is_prefix_of(self.delivered())
        &&& self.consumed().len() == before.consumed().len() + used
        &&& before.offers().is_prefix_of(self.offers())
        &&& forall|k: int|
            before.offers().len() <= k < self.offers().len() ==> #[trigger] self.offers()[k]
                == self.capacity()
        &&& (used < before.buffered().len() || before.ended()) ==> {
            &&& self.delivered() == before.delivered()
            &&& self.ended() == before.ended()
            &&& self.source() == before.source()
            &&& self.offers() == before.offers()
        }
        &&& before.foreseen() ==> {
            &&& self.foreseen()
            &&& self.window(before) + self.to_come() == before.expected()
            &&& self.breaks() == before.breaks()
        }
    }

    /// Whether this reader is what `before` has become by a read whose
    /// scanner answers `full` on the window of the read, `own` on the bytes
    /// that were buffered before it, and `whole` on the bytes that were
    /// expected before it.  The reader has consumed what `full` says is
    /// used.  If `own` leaves a buffered byte unused, the buffered bytes
    /// decide the read: `full` is `own`.  If all was foreseen, `full` is
    /// `whole`: the read returns what its scanner answers on the rest of the
    /// stream, whatever the size of the buffer and however the source hands
    /// out its bytes.
    pub open spec fn reads<T>(
        &self,
        before: &Self,
        full: Scanned<T>,
        own: Scanned<T>,
        whole: Scanned<T>,
    ) -> bool {
        &&& self.follows(before, full.used)
        &&& own.used < before.buffered().len() ==> full == own
        &&& before.foreseen() ==> self.drained() && full == whole
    }

    /// A reader of `source` with a buffer of 65536 bytes.  Nothing is read
    /// yet.
    pub fn from_reader(source: S) -> (r: Self)
        ensures
            r.wf(),
            r.consumed() == Seq::<u8>::empty(),
            r.buffered() == Seq::<u8>::empty(),
            !r.ended(),
            r.capacity() == 65536,
            r.source() == source,
            r.offers() == Seq::<nat>::empty(),
    {
        let r = InputReader {
            source,
            buf: vec![0u8; 65536],
            bytes_read: 0,
            current_index: 0,
            exhausted: false,
            total: 0,
            taken: Ghost(Seq::empty()),
            asked: Ghost(Seq::empty()),
        };
        assert(r.buffered() =~= Seq::<u8>::empty());
        r
    }

    /// Whether a byte is left to read.  A reader without bytes asks the
    /// source first, unless the source has reported its end.
    pub fn has_more(&mut self) -> (r: Result<bool, Error>)
        requires
            old(self).wf(),
        ensures
            final(self).wf(),
            final(self).reads(
                old(self),
                scan_more(final(self).window(old(self)), final(self).stalled()),
                scan_more(old(self).buffered(), false),
                scan_more(old(self).expected(), old(self).breaks()),
            ),
            r == scan_more(final(self).window(old(self)), final(self).stalled()).result,
            !old(self).stalled() ==> *final(self) == *old(self),
            old(self).stalled() ==> final(self).offers() == old(self).offers().push(
                old(self).capacity(),
            ),
    {
        if self.current_index < self.bytes_read {
            proof {
                self.lemma_follows_self();
                self.lemma_settled_more(old(self));
            }
            return Ok(true);
        }
        if self.exhausted {
            proof {
                self.lemma_follows_self();
                self.lemma_settled_more(old(self));
            }
            return Ok(false);
        }
        assert(self.buffered() =~= Seq::<u8>::empty());
        let out = match self.refill() {
            Ok(()) => Ok(self.bytes_read > self.current_index),
            Err(e) => Err(e),
        };
        proof {
            self.lemma_settled_more(old(self));
        }
        out
    }

    /// Reads the next value of the type `T`.
    pub fn next<T: InputReadable>(&mut self) -> (r: Result<T, Error>)
        requires
            old(self).wf(),
        ensures
            final(self).wf(),
            final(self).reads(
                old(self),
                T::scan(final(self).window(old(self)), final(self).stalled()),
                T::scan(old(self).buffered(), false),
                T::scan(old(self).expected(), old(self).breaks()),
            ),
            viewed(r) == T::scan(final(self).window(old(self)), final(self).stalled()).result,
    {
        T::from_input(self)
    }

    /// Reads the next unsigned integer: skips to the first digit and takes
    /// the digits that follow.  A number too large for 64 bits wraps around.
    pub fn next_unsigned(&mut self) -> (r: Result<u64, Error>)
        requires
            old(self).wf(),
        ensures
            final(self).wf(),
            final(self).reads(
                old(self),
                scan_unsigned(final(self).window(old(self)), final(self).stalled()),
                scan_unsigned(old(self).buffered(), false),
                scan_unsigned(old(self).expected(), old(self).breaks()),
            ),
            r == scan_unsigned(final(self).window(old(self)), final(self).stalled()).result,
    {
        let ghost start = old(self).consumed().len();
        let skipped = self.consume_until(ByteClass::Digit);
        let ghost i = (self.consumed().len() - start) as nat;
        proof {
            self.lemma_skipped(old(self), ByteClass::Digit, skipped);
            self.lemma_wf();
        }
        if let Err(e) = skipped {
            proof {
                self.lemma_window_token(old(self), ByteClass::Digit, i, i);
                self.lemma_settled_natural(old(self));
            }
            return Err(e);
        }
        let mut num: u64 = 0;
        let ghost seen = i;
        let ghost digits = Seq::<u8>::empty();
        proof {
            assert(self.delivered().subrange((start + i) as int, (start + seen) as int)
                =~= digits);
        }
        loop
            invariant
                self.wf(),
                old(self).wf(),
                start == old(self).consumed().len(),
                i <= seen,
                self.follows(old(self), seen),
                self.all_in(start, start + i, ByteClass::Digit, false),
                self.all_in(start + i, start + seen, ByteClass::Digit, true),
                digits == self.delivered().subrange((start + i) as int, (start + seen) as int),
                num as int == (digits_value(digits) as int) % word(),
                self.buffered().len() > 0,
                is_digit(self.buffered()[0]),
            decreases u64::MAX - self.consumed().len(),
        {
            let ghost at_top = *self;
            let popped = self.pop_digit();
            proof {
                self.lemma_run_step(&at_top, old(self), i, seen, ByteClass::Digit);
                lemma_digits_value_push(digits, at_top.buffered()[0]);
                digits = digits.push(at_top.buffered()[0]);
                seen = seen + 1;
                self.lemma_wf();
            }
            let d = match popped {
                Ok(d) => d,
                Err(e) => {
                    proof {
                        self.lemma_window_token(old(self), ByteClass::Digit, i, seen);
                        self.lemma_settled_natural(old(self));
                    }
                    return Err(e);
                },
            };
            proof {
                lemma_push_digit_wraps(digits_value(digits.drop_last()), num, d);
                assert(digits.drop_last() =~= at_top.delivered().subrange(
                    (start + i) as int,
                    (start + seen - 1) as int,
                ));
            }
            num = num.wrapping_mul(10).wrapping_add(d as u64);
            if !self.has_buffered() || !ByteClass::Digit.contains(self.peek()) {
                proof {
                    self.lemma_window_token(old(self), ByteClass::Digit, i, seen);
                    self.lemma_settled_natural(old(self));
                }
                return Ok(num);
            }
        }
    }

    /// Reads the next signed integer: an unsigned integer, negative if a `-`
    /// stands directly before its first digit.  A number too large for 64
    /// bits wraps around in two's complement.
    pub fn next_signed(&mut self) -> (r: Result<i64, Error>)
        requires
            old(self).wf(),
        ensures
            final(self).wf(),
            final(self).reads(
                old(self),
                scan_signed(final(self).window(old(self)), final(self).stalled()),
                scan_signed(old(self).buffered(), false),
                scan_signed(old(self).expected(), old(self).breaks()),
            ),
            r == scan_signed(final(self).window(old(self)), final(self).stalled()).result,
    {
        let signed = self.consume_until_sign();
        let ghost mid = *self;
        let negative = match signed {
            Ok(negative) => negative,
            Err(e) => {
                proof {
                    self.lemma_settled_integer(old(self));
                }
                return Err(e);
            },
        };
        let value = self.next_unsigned();
        proof {
            self.lemma_sign_then_digits(&mid, old(self));
            lemma_wrap_negated(magnitude(self.window(old(self))), word());
        }
        let out = match value {
            Ok(v) => Ok(low_signed(negative, v, Width::Bits64)),
            Err(e) => Err(e),
        };
        proof {
            self.lemma_settled_integer(old(self));
        }
        out
    }

    /// Reads the next decimal number: sign and digits as for a signed
    /// integer, then, if a point follows the digits directly, the point and
    /// the digits behind it.  Every digit is kept; there is no limit to their
    /// number.
    pub fn next_decimal(&mut self) -> (r: Result<Decimal, Error>)
        requires
            old(self).wf(),
        ensures
            final(self).wf(),
            final(self).reads(
                old(self),
                scan_decimal(final(self).window(old(self)), final(self).stalled()),
                scan_decimal(old(self).buffered(), false),
                scan_decimal(old(self).expected(), old(self).breaks()),
            ),
            viewed(r) == scan_decimal(final(self).window(old(self)), final(self).stalled()).result,
    {
        let ghost start = old(self).consumed().len();
        let signed = self.consume_until_sign();
        let ghost i = (self.consumed().len() - start) as nat;
        proof {
            self.lemma_signed(old(self), signed);
            self.lemma_wf();
        }
        let negative = match signed {
            Ok(negative) => negative,
            Err(e) => {
                proof {
                    self.lemma_window_token(old(self), ByteClass::Digit, i, i);
                    self.lemma_settled_decimal(old(self));
                }
                return Err(e);
            },
        };
        let mut digits: Vec<u8> = Vec::new();
        let ghost seen = i;
        let ghost whole = Seq::<u8>::empty();
        proof {
            assert(self.delivered().subrange((start + i) as int, (start + seen) as int)
                =~= whole);
            assert(digit_values(whole) =~= digits@);
        }
        loop
            invariant_except_break
                self.buffered().len() > 0,
                is_digit(self.buffered()[0]),
            invariant
                self.wf(),
                old(self).wf(),
                start == old(self).consumed().len(),
                i <= seen,
                self.follows(old(self), seen),
                self.all_in(start, start + i, ByteClass::Digit, false),
                self.all_in(start + i, start + seen, ByteClass::Digit, true),
                i > 0 ==> negative == (self.delivered()[start + i - 1] == MINUS),
                i == 0 ==> !negative,
                whole == self.delivered().subrange((start + i) as int, (start + seen) as int),
                digits@ == digit_values(whole),
            ensures
                i < seen,
                !self.stalled(),
                self.buffered().len() > 0 ==> !is_digit(self.buffered()[0]),
            decreases u64::MAX - self.consumed().len(),
        {
            let ghost at_top = *self;
            let popped = self.pop_digit();
            proof {
                self.lemma_run_step(&at_top, old(self), i, seen, ByteClass::Digit);
                lemma_digit_values_push(whole, at_top.buffered()[0]);
                whole = whole.push(at_top.buffered()[0]);
                seen = seen + 1;
                self.lemma_wf();
                self.lemma_follows_chain(&at_top, old(self), (seen - 1) as nat, 1);
            }
            match popped {
                Ok(d) => {
                    digits.push(d);
                },
                Err(e) => {
                    proof {
                        self.lemma_window_token(old(self), ByteClass::Digit, i, seen);
                        self.lemma_settled_decimal(old(self));
                    }
                    return Err(e);
                },
            }
            if !self.has_buffered() || !ByteClass::Digit.contains(self.peek()) {
                break ;
            }
        }
        let ghost j = seen;
        if !self.has_buffered() || self.peek() != POINT {
            proof {
                self.lemma_window_token(old(self), ByteClass::Digit, i, j);
                self.lemma_window(old(self), j);
                if i > 0 {
                    assert(self.window(old(self))[i - 1] == self.delivered()[start + i - 1]);
                }
                self.lemma_settled_decimal(old(self));
            }
            return Ok(Decimal { negative, digits, scale: 0 });
        }
        let ghost at_point = *self;
        let step = self.consume();
        let mut scale: usize = 0;
        let ghost parts = Seq::<u8>::empty();
        proof {
            self.lemma_follows_chain(&at_point, old(self), j, 1);
            self.lemma_all_in_kept(&at_point, start, start + i, ByteClass::Digit, false);
            self.lemma_all_in_kept(&at_point, start + i, start + j, ByteClass::Digit, true);
            assert(at_point.delivered()[(start + j) as int] == POINT);
            seen = seen + 1;
            self.lemma_wf();
            assert(self.delivered().subrange((start + j + 1) as int, (start + seen) as int)
                =~= parts);
            assert(whole =~= self.delivered().subrange((start + i) as int, (start + j) as int));
            assert(whole + parts =~= whole);
        }
        if let Err(e) = step {
            proof {
                self.lemma_window_decimal(old(self), i, j, seen);
                self.lemma_settled_decimal(old(self));
            }
            return Err(e);
        }
        while self.has_buffered() && ByteClass::Digit.contains(self.peek())
            invariant
                self.wf(),
                old(self).wf(),
                start == old(self).consumed().len(),
                i < j < seen,
                self.follows(old(self), seen),
                self.all_in(start, start + i, ByteClass::Digit, false),
                self.all_in(start + i, start + j, ByteClass::Digit, true),
                self.delivered()[(start + j) as int] == POINT,
                self.all_in(start + j + 1, start + seen, ByteClass::Digit, true),
                i > 0 ==> negative == (self.delivered()[start + i - 1] == MINUS),
                i == 0 ==> !negative,
                whole == self.delivered().subrange((start + i) as int, (start + j) as int),
                parts == self.delivered().subrange((start + j + 1) as int, (start + seen) as int),
                digits@ == digit_values(whole + parts),
                scale == seen - j - 1,
                scale <= digits@.len(),
                !self.stalled(),
            decreases u64::MAX - self.consumed().len(),
        {
            let ghost at_top = *self;
            let popped = self.pop_digit();
            proof {
                self.lemma_member_step(&at_top, old(self), start + j + 1, seen, ByteClass::Digit);
                self.lemma_all_in_kept(&at_top, start, start + i, ByteClass::Digit, false);
                self.lemma_all_in_kept(&at_top, start + i, start + j, ByteClass::Digit, true);
                lemma_digit_values_push(whole + parts, at_top.buffered()[0]);
                assert((whole + parts).push(at_top.buffered()[0]) =~= whole + parts.push(
                    at_top.buffered()[0],
                ));
                parts = parts.push(at_top.buffered()[0]);
                seen = seen + 1;
                self.lemma_wf();
                assert(whole =~= self.delivered().subrange(
                    (start + i) as int,
                    (start + j) as int,
                ));
            }
            match popped {
                Ok(d) => {
                    digits.push(d);
                    assert(scale < digits.len() <= usize::MAX);
                    scale = scale + 1;
                },
                Err(e) => {
                    proof {
                        self.lemma_window_decimal(old(self), i, j, seen);
                        self.lemma_settled_decimal(old(self));
                    }
                    return Err(e);
                },
            }
        }
        proof {
            self.lemma_window_decimal(old(self), i, j, seen);
            self.lemma_settled_decimal(old(self));
        }
        Ok(Decimal { negative, digits, scale })
    }

    /// Reads the next word: skips to the first graphic byte and takes the
    /// graphic bytes that follow, one character for each.
    pub fn next_word(&mut self) -> (r: Result<String, Error>)
        requires
            old(self).wf(),
        ensures
            final(self).wf(),
            final(self).reads(
                old(self),
                scan_word(final(self).window(old(self)), final(self).stalled()),
                scan_word(old(self).buffered(), false),
                scan_word(old(self).expected(), old(self).breaks()),
            ),
            viewed(r) == scan_word(final(self).window(old(self)), final(self).stalled()).result,
    {
        let ghost start = old(self).consumed().len();
        let skipped = self.consume_until(ByteClass::Graphic);
        let ghost i = (self.consumed().len() - start) as nat;
        proof {
            self.lemma_skipped(old(self), ByteClass::Graphic, skipped);
            self.lemma_wf();
        }
        if let Err(e) = skipped {
            proof {
                self.lemma_window_token(old(self), ByteClass::Graphic, i, i);
                self.lemma_settled_word(old(self));
            }
            return Err(e);
        }
        let mut word = String::new();
        let ghost seen = i;
        let ghost bytes = Seq::<u8>::empty();
        proof {
            assert(self.delivered().subrange((start + i) as int, (start + seen) as int)
                =~= bytes);
            assert(text_of(bytes) =~= word@);
        }
        loop
            invariant
                self.wf(),
                old(self).wf(),
                start == old(self).consumed().len(),
                i <= seen,
                self.follows(old(self), seen),
                self.all_in(start, start + i, ByteClass::Graphic, false),
                self.all_in(start + i, start + seen, ByteClass::Graphic, true),
                bytes == self.delivered().subrange((start + i) as int, (start + seen) as int),
                word@ == text_of(bytes),
                self.buffered().len() > 0,
                is_graphic(self.buffered()[0]),
            decreases u64::MAX - self.consumed().len(),
        {
            let ghost at_top = *self;
            let b = self.peek();
            word.push(b as char);
            let step = self.consume();
            proof {
                self.lemma_run_step(&at_top, old(self), i, seen, ByteClass::Graphic);
                lemma_text_of_push(bytes, b);
                bytes = bytes.push(b);
                seen = seen + 1;
                self.lemma_wf();
            }
            if let Err(e) = step {
                proof {
                    self.lemma_window_token(old(self), ByteClass::Graphic, i, seen);
                    self.lemma_settled_word(old(self));
                }
                return Err(e);
            }
            if !self.has_buffered() || !ByteClass::Graphic.contains(self.peek()) {
                proof {
                    self.lemma_window_token(old(self), ByteClass::Graphic, i, seen);
                    self.lemma_settled_word(old(self));
                }
                return Ok(word);
            }
        }
    }

    /// Reads the next character: skips to the first graphic byte and takes
    /// it.
    pub fn next_char(&mut self) -> (r: Result<char, Error>)
        requires
            old(self).wf(),
        ensures
            final(self).wf(),
            final(self).reads(
                old(self),
                scan_char(final(self).window(old(self)), final(self).stalled()),
                scan_char(old(self).buffered(), false),
                scan_char(old(self).expected(), old(self).breaks()),
            ),
            r == scan_char(final(self).window(old(self)), final(self).stalled()).result,
    {
        let ghost start = old(self).consumed().len();
        let skipped = self.consume_until(ByteClass::Graphic);
        let ghost i = (self.consumed().len() - start) as nat;
        proof {
            self.lemma_skipped(old(self), ByteClass::Graphic, skipped);
            self.lemma_wf();
        }
        if let Err(e) = skipped {
            proof {
                self.lemma_window_token(old(self), ByteClass::Graphic, i, i);
                self.lemma_settled_char(old(self));
            }
            return Err(e);
        }
        let ghost at_char = *self;
        let b = self.peek();
        let step = self.consume();
        proof {
            self.lemma_run_step(&at_char, old(self), i, i, ByteClass::Graphic);
            self.lemma_wf();
            assert(at_char.delivered()[(start + i) as int] == b);
            self.lemma_window_begun(old(self), ByteClass::Graphic, i, i + 1);
        }
        let out = match step {
            Ok(()) => Ok(b as char),
            Err(e) => Err(e),
        };
        proof {
            self.lemma_settled_char(old(self));
        }
        out
    }

    /// Reads the rest of the line: the bytes before the next line feed, one
    /// character for each, and consumes the line feed with them.  The last
    /// line may end with the input.
    pub fn next_line(&mut self) -> (r: Result<String, Error>)
        requires
            old(self).wf(),
        ensures
            final(self).wf(),
            final(self).reads(
                old(self),
                scan_line(final(self).window(old(self)), final(self).stalled()),
                scan_line(old(self).buffered(), false),
                scan_line(old(self).expected(), old(self).breaks()),
            ),
            viewed(r) == scan_line(final(self).window(old(self)), final(self).stalled()).result,
    {
        let ghost start = old(self).consumed().len();
        let more = self.has_more();
        proof {
            self.lemma_window(old(self), 0);
            self.lemma_wf();
        }
        match more {
            Ok(true) => {},
            Ok(false) => {
                proof {
                    self.lemma_settled_line(old(self));
                }
                return Err(Error::EndOfInput);
            },
            Err(e) => {
                proof {
                    self.lemma_settled_line(old(self));
                }
                return Err(e);
            },
        }
        let mut line = String::new();
        let ghost seen: nat = 0;
        let ghost bytes = Seq::<u8>::empty();
        proof {
            assert(self.delivered().subrange(start as int, (start + seen) as int) =~= bytes);
            assert(text_of(bytes) =~= line@);
        }
        loop
            invariant
                self.wf(),
                old(self).wf(),
                start == old(self).consumed().len(),
                self.follows(old(self), seen),
                self.all_in(start, start + seen, ByteClass::Newline, false),
                bytes == self.delivered().subrange(start as int, (start + seen) as int),
                line@ == text_of(bytes),
                self.buffered().len() > 0,
            decreases u64::MAX - self.consumed().len(),
        {
            let ghost at_top = *self;
            let b = self.peek();
            if b == NEWLINE {
                let step = self.consume();
                proof {
                    self.lemma_follows_chain(&at_top, old(self), seen, 1);
                    assert(at_top.delivered()[(start + seen) as int] == b);
                    self.lemma_all_in_kept(
                        &at_top,
                        start,
                        start + seen,
                        ByteClass::Newline,
                        false,
                    );
                    self.lemma_window_begun(old(self), ByteClass::Newline, seen, seen + 1);
                    assert(self.window(old(self)).take(seen as int) =~= bytes);
                }
                let out = match step {
                    Ok(()) => Ok(line),
                    Err(e) => Err(e),
                };
                proof {
                    self.lemma_settled_line(old(self));
                }
                return out;
            }
            line.push(b as char);
            let step = self.consume();
            proof {
                self.lemma_window(&at_top, 1);
                assert(self.window(&at_top)[0] == b);
                self.lemma_stretch(&at_top, old(self), seen, 1, ByteClass::Newline, false);
                lemma_text_of_push(bytes, b);
                assert(self.delivered().subrange(start as int, (start + seen + 1) as int)
                    =~= bytes.push(b));
                bytes = bytes.push(b);
                seen = seen + 1;
                self.lemma_wf();
            }
            if let Err(e) = step {
                proof {
                    self.lemma_window_token(old(self), ByteClass::Newline, seen, seen);
                    self.lemma_settled_line(old(self));
                }
                return Err(e);
            }
            if !self.has_buffered() {
                proof {
                    self.lemma_window_token(old(self), ByteClass::Newline, seen, seen);
                    assert(self.window(old(self)).take(seen as int) =~= bytes);
                    self.lemma_settled_line(old(self));
                }
                return Ok(line);
            }
        }
    }

    /// Gives the buffer the size `buf_size`.  The unread bytes stay; a size
    /// that cannot hold them is rejected, and nothing changes then.
    pub fn set_buf_size(&mut self, buf_size: usize) -> (r: Result<(), Error>)
        requires
            old(self).wf(),
        ensures
            final(self).wf(),
            buf_size < old(self).buffered().len() ==> {
                &&& r == Err::<(), Error>(Error::BufferShrinkRejected)
                &&& *final(self) == *old(self)
            },
            buf_size >= old(self).buffered().len() ==> {
                &&& r == Ok::<(), Error>(())
                &&& final(self).capacity() == buf_size
                &&& final(self).consumed() == old(self).consumed()
                &&& final(self).buffered() == old(self).buffered()
                &&& final(self).ended() == old(self).ended()
                &&& final(self).source() == old(self).source()
                &&& final(self).offers() == old(self).offers()
            },
    {
        let unread: usize = self.bytes_read - self.current_index;
        if buf_size < unread {
            return Err(Error::BufferShrinkRejected);
        }
        if self.current_index > 0 {
            let from: usize = self.current_index;
            let mut k: usize = 0;
            while k < unread
                invariant
                    from == old(self).current_index,
                    unread == old(self).bytes_read - from,
                    0 < from,
                    from + unread <= self.buf.len(),
                    k <= unread,
                    self.buf@.len() == old(self).buf@.len(),
                    self.buf@.subrange(0, k as int) == old(self).buf@.subrange(
                        from as int,
                        from + k,
                    ),
                    self.buf@.skip(from + k) == old(self).buf@.skip(from + k),
                    self.source == old(self).source,
                    self.exhausted == old(self).exhausted,
                    self.total == old(self).total,
                    self.taken == old(self).taken,
                    self.asked == old(self).asked,
                decreases unread - k,
            {
                let ghost prev = self.buf@;
                let b = self.buf[from + k];
                assert(b == old(self).buf@.skip(from + k)[0]);
                self.buf[k] = b;
                k = k + 1;
                proof {
                    assert(self.buf@.subrange(0, k as int) =~= prev.subrange(0, k - 1).push(b));
                    assert(old(self).buf@.subrange(from as int, from + k) =~= old(
                        self,
                    ).buf@.subrange(from as int, from + k - 1).push(b));
                    assert(self.buf@.skip(from + k) =~= prev.skip(from + k - 1).skip(1));
                    assert(old(self).buf@.skip(from + k) =~= old(self).buf@.skip(
                        from + k - 1,
                    ).skip(1));
                }
            }
            self.current_index = 0;
            self.bytes_read = unread;
        }
        let ghost kept = self.buf@.subrange(0, unread as int);
        self.buf.resize(buf_size, 0);
        proof {
            assert(self.buf@.subrange(0, unread as int) =~= kept);
            assert(self.buffered() =~= old(self).buffered());
        }
        Ok(())
    }

    /// Asks the source once for bytes and takes its answer.
    fn refill(&mut self) -> (r: Result<(), Error>)
        requires
            old(self).wf(),
            old(self).buffered().len() == 0,
            !old(self).ended(),
        ensures
            final(self).wf(),
            final(self).follows(old(self), 0),
            final(self).offers() == old(self).offers().push(old(self).capacity()),
            old(self).foreseen() ==> final(self).drained(),
            r == (if final(self).stalled() {
                Err::<(), Error>(Error::IoFailure)
            } else {
                Ok::<(), Error>(())
            }),
    {
        self.current_index = 0;
        self.bytes_read = 0;
        self.asked = Ghost(self.asked@.push(self.buf@.len()));
        let size: usize = self.buf.len();
        let answer = self.source.read(self.buf.as_mut_slice());
        // A slice keeps its length.  That is tested here, not assumed: a
        // buffer of another length is put right and counts as a failure.
        let outcome = if self.buf.len() == size {
            answer
        } else {
            self.buf.resize(size, 0);
            Err(DeviceError)
        };
        let r = self.absorb(outcome);
        proof {
            assert(old(self).buffered() =~= Seq::<u8>::empty());
            assert(old(self).delivered() =~= old(self).consumed());
            assert(old(self).delivered() =~= self.delivered().subrange(
                0,
                old(self).delivered().len() as int,
            ));
            assert(old(self).offers() =~= self.offers().subrange(
                0,
                old(self).offers().len() as int,
            ));
            if old(self).foreseen() {
                let rest = old(self).to_come();
                assert(old(self).expected() =~= rest);
                assert(self.window(old(self)) =~= self.buffered());
                if answer is Ok {
                    let n = answer->Ok_0 as int;
                    assert(rest.take(n) + rest.skip(n) =~= rest);
                } else {
                    assert(self.buffered() + rest =~= rest);
                }
            }
        }
        r
    }

    /// Takes the source's answer to a read into the empty buffer.  An answer
    /// of `n` bytes makes the first `n` bytes of the buffer the unread ones,
    /// and an answer of no bytes ends the input.  A failure, a count beyond
    /// the buffer and a stream longer than a `u64` can count are all
    /// reported as `IoFailure`, and the reader stays without bytes.
    fn absorb(&mut self, outcome: Result<usize, DeviceError>) -> (r: Result<(), Error>)
        requires
            old(self).wf(),
            old(self).bytes_read == 0,
            !old(self).exhausted,
        ensures
            final(self).wf(),
            final(self).source == old(self).source,
            final(self).buf == old(self).buf,
            final(self).consumed() == old(self).consumed(),
            final(self).offers() == old(self).offers(),
            r == (match outcome {
                Ok(n) if n <= old(self).capacity() && old(self).consumed().len() + n
                    <= u64::MAX => Ok::<(), Error>(()),
                _ => Err::<(), Error>(Error::IoFailure),
            }),
            r is Ok ==> final(self).buffered() == old(self).buf@.take(outcome->Ok_0 as int),
            r is Ok ==> final(self).ended() == (outcome->Ok_0 == 0),
            r is Err ==> final(self).stalled(),
    {
        match outcome {
            Ok(n) => {
                if n <= self.buf.len() && n as u64 <= u64::MAX - self.total {
                    self.bytes_read = n;
                    self.total = self.total + n as u64;
                    self.exhausted = n == 0;
                    assert(self.buffered() =~= old(self).buf@.take(n as int));
                    Ok(())
                } else {
                    assert(self.buffered() =~= Seq::<u8>::empty());
                    Err(Error::IoFailure)
                }
            },
            Err(_) => {
                assert(self.buffered() =~= Seq::<u8>::empty());
                Err(Error::IoFailure)
            },
        }
    }

    /// The byte under the cursor.
    fn peek(&self) -> (b: u8)
        requires
            self.wf(),
            self.buffered().len() > 0,
        ensures
            b == self.buffered()[0],
    {
        self.buf[self.current_index]
    }

    /// Whether a byte stands under the cursor.
    fn has_buffered(&self) -> (b: bool)
        requires
            self.wf(),
        ensures
            b == (self.buffered().len() > 0),
    {
        self.current_index < self.bytes_read
    }

    /// Moves the cursor over one byte.  If that was the last byte in the
    /// buffer, the buffer is filled again at once.
    fn consume(&mut self) -> (r: Result<(), Error>)
        requires
            old(self).wf(),
            old(self).buffered().len() > 0,
        ensures
            final(self).wf(),
            final(self).follows(old(self), 1),
            final(self).consumed() == old(self).consumed().push(old(self).buffered()[0]),
            old(self).foreseen() ==> final(self).drained(),
            r == (if final(self).stalled() {
                Err::<(), Error>(Error::IoFailure)
            } else {
                Ok::<(), Error>(())
            }),
    {
        let ghost b = self.buffered()[0];
        self.taken = Ghost(self.taken@.push(b));
        self.current_index = self.current_index + 1;
        proof {
            assert(old(self).delivered() =~= self.delivered());
            self.lemma_follows_self();
            assert(self.window(old(self)) =~= old(self).buffered());
        }
        if self.current_index == self.bytes_read {
            let ghost mid = *self;
            assert(self.buffered() =~= Seq::<u8>::empty());
            let r = self.refill();
            proof {
                self.lemma_follows_chain(&mid, old(self), 1, 0);
            }
            r
        } else {
            Ok(())
        }
    }

    /// Consumes the digit under the cursor and returns its value.
    fn pop_digit(&mut self) -> (r: Result<u8, Error>)
        requires
            old(self).wf(),
            old(self).buffered().len() > 0,
            is_digit(old(self).buffered()[0]),
        ensures
            final(self).wf(),
            final(self).follows(old(self), 1),
            final(self).consumed() == old(self).consumed().push(old(self).buffered()[0]),
            old(self).foreseen() ==> final(self).drained(),
            r == (if final(self).stalled() {
                Err::<u8, Error>(Error::IoFailure)
            } else {
                Ok::<u8, Error>((old(self).buffered()[0] - ZERO) as u8)
            }),
    {
        let c = self.peek();
        match self.consume() {
            Ok(()) => Ok(c - ZERO),
            Err(e) => Err(e),
        }
    }

    /// Consumes bytes until one of `class` stands under the cursor.  Fails
    /// with `EndOfInput` if the input ends before such a byte.
    fn consume_until(&mut self, class: ByteClass) -> (r: Result<(), Error>)
        requires
            old(self).wf(),
        ensures
            final(self).wf(),
            final(self).follows(
                old(self),
                scan_skip(final(self).window(old(self)), class, final(self).stalled()).used,
            ),
            r == scan_skip(final(self).window(old(self)), class, final(self).stalled()).result,
            old(self).foreseen() ==> final(self).drained(),
    {
        let ghost start = old(self).consumed().len();
        let ghost seen: nat = 0;
        proof {
            self.lemma_follows_self();
        }
        loop
            invariant
                self.wf(),
                old(self).wf(),
                start == old(self).consumed().len(),
                self.follows(old(self), seen),
                self.all_in(start, start + seen, class, false),
            decreases u64::MAX - self.consumed().len(),
        {
            let ghost at_top = *self;
            let more = self.has_more();
            proof {
                self.lemma_follows_chain(&at_top, old(self), seen, 0);
                self.lemma_all_in_kept(&at_top, start, start + seen, class, false);
                self.lemma_wf();
            }
            match more {
                Ok(true) => {},
                Ok(false) => {
                    proof {
                        self.lemma_window_token(old(self), class, seen, seen);
                    }
                    return Err(Error::EndOfInput);
                },
                Err(e) => {
                    proof {
                        self.lemma_window_token(old(self), class, seen, seen);
                    }
                    return Err(e);
                },
            }
            let b = self.peek();
            if class.contains(b) {
                proof {
                    self.lemma_window_start(old(self), class, seen);
                }
                return Ok(());
            }
            let ghost at_byte = *self;
            let step = self.consume();
            proof {
                self.lemma_window(&at_byte, 1);
                assert(self.window(&at_byte)[0] == b);
                self.lemma_stretch(&at_byte, old(self), seen, 1, class, false);
                seen = seen + 1;
                self.lemma_wf();
            }
            if let Err(e) = step {
                proof {
                    self.lemma_window_token(old(self), class, seen, seen);
                }
                return Err(e);
            }
        }
    }

    /// Consumes bytes until the first digit of a number stands under the
    /// cursor, and says whether the number is negative.  A `-` counts as a
    /// sign only where a digit follows it directly.
    fn consume_until_sign(&mut self) -> (r: Result<bool, Error>)
        requires
            old(self).wf(),
        ensures
            final(self).wf(),
            final(self).follows(
                old(self),
                scan_sign(final(self).window(old(self)), final(self).stalled()).used,
            ),
            r == scan_sign(final(self).window(old(self)), final(self).stalled()).result,
            r is Ok ==> final(self).buffered().len() > 0 && is_digit(final(self).buffered()[0]),
            old(self).foreseen() ==> final(self).drained(),
    {
        let ghost start = old(self).consumed().len();
        let ghost seen: nat = 0;
        proof {
            self.lemma_follows_self();
        }
        loop
            invariant
                self.wf(),
                old(self).wf(),
                start == old(self).consumed().len(),
                self.follows(old(self), seen),
                self.all_in(start, start + seen, ByteClass::Digit, false),
                seen > 0 ==> self.buffered().len() > 0 && !is_digit(self.buffered()[0]),
            decreases u64::MAX - self.consumed().len(),
        {
            let ghost at_top = *self;
            let skipped = self.consume_until(ByteClass::SignOrDigit);
            let ghost g = (self.consumed().len() - at_top.consumed().len()) as nat;
            proof {
                self.lemma_after_skip(&at_top, old(self), seen, skipped);
                self.lemma_wf();
            }
            if let Err(e) = skipped {
                proof {
                    self.lemma_window_token(old(self), ByteClass::Digit, seen + g, seen + g);
                }
                return Err(e);
            }
            let b = self.peek();
            if b != MINUS {
                proof {
                    self.lemma_window_start(old(self), ByteClass::Digit, seen + g);
                }
                return Ok(false);
            }
            let ghost at_sign = *self;
            let step = self.consume();
            proof {
                self.lemma_window(&at_sign, 1);
                assert(self.window(&at_sign)[0] == b);
                self.lemma_stretch(&at_sign, old(self), seen + g, 1, ByteClass::Digit, false);
                self.lemma_wf();
            }
            if let Err(e) = step {
                proof {
                    self.lemma_window_token(
                        old(self),
                        ByteClass::Digit,
                        seen + g + 1,
                        seen + g + 1,
                    );
                }
                return Err(e);
            }
            if self.current_index == self.bytes_read {
                proof {
                    assert(self.buffered() =~= Seq::<u8>::empty());
                    self.lemma_window_token(
                        old(self),
                        ByteClass::Digit,
                        seen + g + 1,
                        seen + g + 1,
                    );
                }
                return Err(Error::EndOfInput);
            }
            let d = self.peek();
            if ByteClass::Digit.contains(d) {
                proof {
                    self.lemma_window_start(old(self), ByteClass::Digit, seen + g + 1);
                }
                return Ok(true);
            }
            proof {
                seen = seen + g + 1;
            }
        }
    }

    /// What the invariant says in terms of the reader's public state.
    pub proof fn lemma_wf(&self)
        requires
            self.wf(),
        ensures
            self.buffered().len() <= self.capacity(),
            self.delivered().len() <= u64::MAX,
            self.ended() ==> self.buffered().len() == 0,
    {
    }
}


/// Taken on trust of the standard library: `String::push` appends the
/// character to the end of the string and leaves the rest as it is.
pub assume_specification[ String::push ](s: &mut String, ch: char)
    ensures
        final(s)@ == old(s)@.push(ch),
;

} // verus!
