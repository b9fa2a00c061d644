//! The types that a reader can read.
use vstd::prelude::*;
use crate::decimal::Decimal;
use crate::device::ByteSource;
use crate::error::Error;
use crate::input_reader::InputReader;
use crate::laws::{
    lemma_char_decided,
    lemma_decimal_decided,
    lemma_integer_decided,
    lemma_natural_decided,
    lemma_word_decided,
};
use crate::narrow::{
    lemma_wrap_negated,
    lemma_wrap_signed_twice,
    low_unsigned,
    narrow_signed,
    wrap_signed,
    wrap_unsigned,
    Width,
};
use crate::scan::{
    magnitude,
    negated,
    scan_char,
    scan_decimal,
    scan_integer,
    scan_natural,
    scan_signed,
    scan_unsigned,
    scan_word,
    viewed,
    Scanned,
};

verus! {

/// A type whose values can be read from an `InputReader`.
pub trait InputReadable: Sized + View {
    /// What reading a value of this type comes to on the input `s`: the
    /// result, and the number of bytes consumed.  `broken` says that the
    /// input ends in a failure of the source.
    spec fn scan(s: Seq<u8>, broken: bool) -> Scanned<Self::V>;

    /// Once a read has consumed less than the input holds, so that the byte
    /// behind the token has been seen, no input that follows and no way in
    /// which the input ends changes what the read comes to.
    proof fn lemma_decided(s: Seq<u8>, t: Seq<u8>, b1: bool, b2: bool)
        requires
            Self::scan(s, b1).used < s.len(),
        ensures
            Self::scan(s + t, b2) == Self::scan(s, b1),
    ;

    /// Reads the next value of this type from `input`.
    fn from_input<S: ByteSource>(input: &mut InputReader<S>) -> (r: Result<Self, Error>)
        requires
            old(input).wf(),
        ensures
            final(input).wf(),
            final(input).reads(
                old(input),
                Self::scan(final(input).window(old(input)), final(input).stalled()),
                Self::scan(old(input).buffered(), false),
                Self::scan(old(input).expected(), old(input).breaks()),
            ),
            viewed(r) == Self::scan(final(input).window(old(input)), final(input).stalled()).result,
    ;
}

impl InputReadable for u64 {
    open spec fn scan(s: Seq<u8>, broken: bool) -> Scanned<u64> {
        scan_unsigned(s, broken)
    }

    proof fn lemma_decided(s: Seq<u8>, t: Seq<u8>, b1: bool, b2: bool) {
        lemma_natural_decided(s, t, b1, b2);
    }

    fn from_input<S: ByteSource>(input: &mut InputReader<S>) -> (r: Result<Self, Error>) {
        input.next_unsigned()
    }
}

impl InputReadable for i64 {
    open spec fn scan(s: Seq<u8>, broken: bool) -> Scanned<i64> {
        scan_signed(s, broken)
    }

    proof fn lemma_decided(s: Seq<u8>, t: Seq<u8>, b1: bool, b2: bool) {
        lemma_integer_decided(s, t, b1, b2);
    }

    fn from_input<S: ByteSource>(input: &mut InputReader<S>) -> (r: Result<Self, Error>) {
        input.next_signed()
    }
}

impl InputReadable for Decimal {
    open spec fn scan(s: Seq<u8>, broken: bool) -> Scanned<<Decimal as View>::V> {
        scan_decimal(s, broken)
    }

    proof fn lemma_decided(s: Seq<u8>, t: Seq<u8>, b1: bool, b2: bool) {
        lemma_decimal_decided(s, t, b1, b2);
    }

    fn from_input<S: ByteSource>(input: &mut InputReader<S>) -> (r: Result<Self, Error>) {
        input.next_decimal()
    }
}

impl InputReadable for String {
    open spec fn scan(s: Seq<u8>, broken: bool) -> Scanned<Seq<char>> {
        scan_word(s, broken)
    }

    proof fn lemma_decided(s: Seq<u8>, t: Seq<u8>, b1: bool, b2: bool) {
        lemma_word_decided(s, t, b1, b2);
    }

    fn from_input<S: ByteSource>(input: &mut InputReader<S>) -> (r: Result<Self, Error>) {
        input.next_word()
    }
}

impl InputReadable for char {
    open spec fn scan(s: Seq<u8>, broken: bool) -> Scanned<char> {
        scan_char(s, broken)
    }

    proof fn lemma_decided(s: Seq<u8>, t: Seq<u8>, b1: bool, b2: bool) {
        lemma_char_decided(s, t, b1, b2);
    }

    fn from_input<S: ByteSource>(input: &mut InputReader<S>) -> (r: Result<Self, Error>) {
        input.next_char()
    }
}

impl InputReadable for u32 {
    open spec fn scan(s: Seq<u8>, broken: bool) -> Scanned<u32> {
        scan_natural(s, broken).map(
            |n: nat| wrap_unsigned(n as int, Width::Bits32.modulus()) as u32,
        )
    }

    proof fn lemma_decided(s: Seq<u8>, t: Seq<u8>, b1: bool, b2: bool) {
        lemma_natural_decided(s, t, b1, b2);
    }

    /// The unsigned integer read, reduced to its low 32 bits.
    fn from_input<S: ByteSource>(input: &mut InputReader<S>) -> (r: Result<Self, Error>) {
        let read = input.next_unsigned();
        proof {
            input.lemma_settled_natural(old(input));
            lemma_wrap_negated(magnitude(input.window(old(input))), Width::Bits32.modulus());
        }
        match read {
            Ok(v) => Ok(low_unsigned(v, Width::Bits32) as u32),
            Err(e) => Err(e),
        }
    }
}

impl InputReadable for i32 {
    open spec fn scan(s: Seq<u8>, broken: bool) -> Scanned<i32> {
        scan_integer(s, broken).map(|x: int| wrap_signed(x, Width::Bits32.modulus()) as i32)
    }

    proof fn lemma_decided(s: Seq<u8>, t: Seq<u8>, b1: bool, b2: bool) {
        lemma_integer_decided(s, t, b1, b2);
    }

    /// The signed integer read, reduced to its low 32 bits.
    fn from_input<S: ByteSource>(input: &mut InputReader<S>) -> (r: Result<Self, Error>) {
        let read = input.next_signed();
        proof {
            input.lemma_settled_integer(old(input));
            let w = input.window(old(input));
            lemma_wrap_signed_twice(
                if negated(w) {
                    -(magnitude(w) as int)
                } else {
                    magnitude(w) as int
                },
                Width::Bits32.modulus(),
            );
        }
        match read {
            Ok(v) => Ok(narrow_signed(v, Width::Bits32) as i32),
            Err(e) => Err(e),
        }
    }
}

impl InputReadable for u16 {
    open spec fn scan(s: Seq<u8>, broken: bool) -> Scanned<u16> {
        scan_natural(s, broken).map(
            |n: nat| wrap_unsigned(n as int, Width::Bits16.modulus()) as u16,
        )
    }

    proof fn lemma_decided(s: Seq<u8>, t: Seq<u8>, b1: bool, b2: bool) {
        lemma_natural_decided(s, t, b1, b2);
    }

    /// The unsigned integer read, reduced to its low 16 bits.
    fn from_input<S: ByteSource>(input: &mut InputReader<S>) -> (r: Result<Self, Error>) {
        let read = input.next_unsigned();
        proof {
            input.lemma_settled_natural(old(input));
            lemma_wrap_negated(magnitude(input.window(old(input))), Width::Bits16.modulus());
        }
        match read {
            Ok(v) => Ok(low_unsigned(v, Width::Bits16) as u16),
            Err(e) => Err(e),
        }
    }
}

impl InputReadable for u8 {
    open spec fn scan(s: Seq<u8>, broken: bool) -> Scanned<u8> {
        scan_natural(s, broken).map(|n: nat| wrap_unsigned(n as int, Width::Bits8.modulus()) as u8)
    }

    proof fn lemma_decided(s: Seq<u8>, t: Seq<u8>, b1: bool, b2: bool) {
        lemma_natural_decided(s, t, b1, b2);
    }

    /// The unsigned integer read, reduced to its low 8 bits.
    fn from_input<S: ByteSource>(input: &mut InputReader<S>) -> (r: Result<Self, Error>) {
        let read = input.next_unsigned();
        proof {
            input.lemma_settled_natural(old(input));
            lemma_wrap_negated(magnitude(input.window(old(input))), Width::Bits8.modulus());
        }
        match read {
            Ok(v) => Ok(low_unsigned(v, Width::Bits8) as u8),
            Err(e) => Err(e),
        }
    }
}

impl InputReadable for i16 {
    open spec fn scan(s: Seq<u8>, broken: bool) -> Scanned<i16> {
        scan_integer(s, broken).map(|x: int| wrap_signed(x, Width::Bits16.modulus()) as i16)
    }

    proof fn lemma_decided(s: Seq<u8>, t: Seq<u8>, b1: bool, b2: bool) {
        lemma_integer_decided(s, t, b1, b2);
    }

    /// The signed integer read, reduced to its low 16 bits.
    fn from_input<S: ByteSource>(input: &mut InputReader<S>) -> (r: Result<Self, Error>) {
        let read = input.next_signed();
        proof {
            input.lemma_settled_integer(old(input));
            let w = input.window(old(input));
            lemma_wrap_signed_twice(
                if negated(w) {
                    -(magnitude(w) as int)
                } else {
                    magnitude(w) as int
                },
                Width::Bits16.modulus(),
            );
        }
        match read {
            Ok(v) => Ok(narrow_signed(v, Width::Bits16) as i16),
            Err(e) => Err(e),
        }
    }
}

impl InputReadable for i8 {
    open spec fn scan(s: Seq<u8>, broken: bool) -> Scanned<i8> {
        scan_integer(s, broken).map(|x: int| wrap_signed(x, Width::Bits8.modulus()) as i8)
    }

    proof fn lemma_decided(s: Seq<u8>, t: Seq<u8>, b1: bool, b2: bool) {
        lemma_integer_decided(s, t, b1, b2);
    }

    /// The signed integer read, reduced to its low 8 bits.
    fn from_input<S: ByteSource>(input: &mut InputReader<S>) -> (r: Result<Self, Error>) {
        let read = input.next_signed();
        proof {
            input.lemma_settled_integer(old(input));
            let w = input.window(old(input));
            lemma_wrap_signed_twice(
                if negated(w) {
                    -(magnitude(w) as int)
                } else {
                    magnitude(w) as int
                },
                Width::Bits8.modulus(),
            );
        }
        match read {
            Ok(v) => Ok(narrow_signed(v, Width::Bits8) as i8),
            Err(e) => Err(e),
        }
    }
}

impl InputReadable for usize {
    open spec fn scan(s: Seq<u8>, broken: bool) -> Scanned<usize> {
        scan_natural(s, broken).map(
            |n: nat| wrap_unsigned(n as int, Width::Pointer.modulus()) as usize,
        )
    }

    proof fn lemma_decided(s: Seq<u8>, t: Seq<u8>, b1: bool, b2: bool) {
        lemma_natural_decided(s, t, b1, b2);
    }

    /// The unsigned integer read, reduced to the low bits that a `usize`
    /// has.
    fn from_input<S: ByteSource>(input: &mut InputReader<S>) -> (r: Result<Self, Error>) {
        let read = input.next_unsigned();
        proof {
            input.lemma_settled_natural(old(input));
            lemma_wrap_negated(magnitude(input.window(old(input))), Width::Pointer.modulus());
        }
        match read {
            Ok(v) => Ok(low_unsigned(v, Width::Pointer) as usize),
            Err(e) => Err(e),
        }
    }
}

impl InputReadable for isize {
    open spec fn scan(s: Seq<u8>, broken: bool) -> Scanned<isize> {
        scan_integer(s, broken).map(|x: int| wrap_signed(x, Width::Pointer.modulus()) as isize)
    }

    proof fn lemma_decided(s: Seq<u8>, t: Seq<u8>, b1: bool, b2: bool) {
        lemma_integer_decided(s, t, b1, b2);
    }

    /// The signed integer read, reduced to the low bits that an `isize`
    /// has.
    fn from_input<S: ByteSource>(input: &mut InputReader<S>) -> (r: Result<Self, Error>) {
        let read = input.next_signed();
        proof {
            input.lemma_settled_integer(old(input));
            let w = input.window(old(input));
            lemma_wrap_signed_twice(
                if negated(w) {
                    -(magnitude(w) as int)
                } else {
                    magnitude(w) as int
                },
                Width::Pointer.modulus(),
            );
        }
        match read {
            Ok(v) => Ok(narrow_signed(v, Width::Pointer) as isize),
            Err(e) => Err(e),
        }
    }
}

} // verus!
