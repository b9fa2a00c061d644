//! What a token is.
//!
//! A scanner reads a token off the front of a byte sequence.  The sequence
//! stands for everything that a source delivers from some point on; a flag
//! says whether the delivery broke off with a failure or came to a clean end.
//! Each scanner answers with what a reader returns on that input and with
//! the number of bytes that the reader consumes.
use vstd::prelude::*;
use crate::decimal::DecimalView;
use crate::error::Error;
use crate::narrow::{word, wrap_signed, wrap_unsigned};

verus! {

/// The byte `-`.
pub const MINUS: u8 = 0x2d;

/// The byte `.`.
pub const POINT: u8 = 0x2e;

/// The byte that ends a line.
pub const NEWLINE: u8 = 0x0a;

/// The byte `0`; a digit's value is its distance from it.
pub const ZERO: u8 = 0x30;

/// `0` to `9`.
pub open spec fn is_digit(b: u8) -> bool {
    0x30 <= b <= 0x39
}

/// The printable ASCII bytes other than the space.
pub open spec fn is_graphic(b: u8) -> bool {
    0x21 <= b <= 0x7e
}

/// Space, tab, line feed, form feed and carriage return.
pub open spec fn is_whitespace(b: u8) -> bool {
    b == 0x20 || b == 0x09 || b == 0x0a || b == 0x0c || b == 0x0d
}

/// The sets of bytes that tokens are made of or end at.
#[derive(Clone, Copy, Debug, PartialEq, Eq)]
pub enum ByteClass {
    /// The decimal digits.
    Digit,
    /// The printable bytes other than the space.
    Graphic,
    /// The decimal digits and `-`.
    SignOrDigit,
    /// The line feed alone.
    Newline,
}

impl ByteClass {
    /// Whether `b` belongs to the class.
    pub open spec fn holds(self, b: u8) -> bool {
        match self {
            ByteClass::Digit => is_digit(b),
            ByteClass::Graphic => is_graphic(b),
            ByteClass::SignOrDigit => is_digit(b) || b == MINUS,
            ByteClass::Newline => b == NEWLINE,
        }
    }

    /// Whether `b` belongs to the class.
    pub fn contains(self, b: u8) -> (r: bool)
        ensures
            r == self.holds(b),
    {
        match self {
            ByteClass::Digit => 0x30 <= b && b <= 0x39,
            ByteClass::Graphic => 0x21 <= b && b <= 0x7e,
            ByteClass::SignOrDigit => (0x30 <= b && b <= 0x39) || b == MINUS,
            ByteClass::Newline => b == NEWLINE,
        }
    }
}

/// The length of the longest front part of `s` all of whose bytes are in
/// `class` (for `member`) or all of whose bytes are outside it.
pub open spec fn span(s: Seq<u8>, class: ByteClass, member: bool) -> nat
    decreases s.len(),
{
    if s.len() > 0 && class.holds(s[0]) == member {
        1 + span(s.skip(1), class, member)
    } else {
        0
    }
}

/// How many bytes stand before the first byte of `class` in `s`.
pub open spec fn gap(s: Seq<u8>, class: ByteClass) -> nat {
    span(s, class, false)
}

/// How many bytes of `class` stand at the front of `s`.
pub open spec fn run(s: Seq<u8>, class: ByteClass) -> nat {
    span(s, class, true)
}

/// The number that a sequence of digits denotes in base ten.
pub open spec fn digits_value(s: Seq<u8>) -> nat
    decreases s.len(),
{
    if s.len() == 0 {
        0
    } else {
        10 * digits_value(s.drop_last()) + (s.last() - ZERO) as nat
    }
}

/// The value of each digit of `s`.
pub open spec fn digit_values(s: Seq<u8>) -> Seq<u8> {
    Seq::new(s.len(), |k: int| (s[k] - ZERO) as u8)
}

/// The text that the bytes of `s` stand for, one character per byte.
pub open spec fn text_of(s: Seq<u8>) -> Seq<char> {
    Seq::new(s.len(), |k: int| s[k] as char)
}

/// What a scanner answers: the result of the read, and how many bytes of the
/// input the read consumes.
pub struct Scanned<T> {
    pub result: Result<T, Error>,
    pub used: nat,
}

impl<T> Scanned<T> {
    /// The same answer with `f` applied to the token.
    pub open spec fn map<U>(self, f: spec_fn(T) -> U) -> Scanned<U> {
        Scanned {
            result: match self.result {
                Ok(v) => Ok(f(v)),
                Err(e) => Err(e),
            },
            used: self.used,
        }
    }
}

/// The answer of a scan over `len` bytes that found `found` and looked at
/// `used` bytes.  A scan that came to the end of a broken input fails with
/// `IoFailure`, whatever it had found; a scan that found nothing consumed
/// everything and fails with `EndOfInput`.
pub open spec fn settle<T>(found: Option<T>, used: nat, len: nat, broken: bool) -> Scanned<T> {
    if broken && used >= len {
        Scanned { result: Err(Error::IoFailure), used: len }
    } else {
        match found {
            Some(v) => Scanned { result: Ok(v), used },
            None => Scanned { result: Err(Error::EndOfInput), used: len },
        }
    }
}

/// A result with its value replaced by the value's view.
pub open spec fn viewed<T: View>(r: Result<T, Error>) -> Result<T::V, Error> {
    match r {
        Ok(v) => Ok(v@),
        Err(e) => Err(e),
    }
}

/// Where the first byte of `class` stands in `s`; `s.len()` if there is
/// none.
pub open spec fn token_start(s: Seq<u8>, class: ByteClass) -> nat {
    gap(s, class)
}

/// Where the bytes of `class` that begin at `token_start(s, class)` end.
pub open spec fn token_end(s: Seq<u8>, class: ByteClass) -> nat {
    token_start(s, class) + run(s.skip(token_start(s, class) as int), class)
}

/// Where the first digit of `s` stands; `s.len()` if it has none.
pub open spec fn number_start(s: Seq<u8>) -> nat {
    token_start(s, ByteClass::Digit)
}

/// Where the digits that begin at `number_start(s)` end.
pub open spec fn number_end(s: Seq<u8>) -> nat {
    token_end(s, ByteClass::Digit)
}

/// Whether a `-` stands directly before the first digit of `s`.  Any other
/// `-` is a separator like every byte that is no digit.
pub open spec fn negated(s: Seq<u8>) -> bool {
    number_start(s) > 0 && s[number_start(s) - 1] == MINUS
}

/// The number that the first digits of `s` denote.
pub open spec fn magnitude(s: Seq<u8>) -> nat {
    digits_value(s.subrange(number_start(s) as int, number_end(s) as int))
}

/// Whether a byte is left to read.
pub open spec fn scan_more(s: Seq<u8>, broken: bool) -> Scanned<bool> {
    settle(Some(s.len() > 0), 0, s.len(), broken)
}

/// What skipping to the first byte of `class` comes to: it consumes the
/// bytes before that byte, and fails if there is no such byte.
pub open spec fn scan_skip(s: Seq<u8>, class: ByteClass, broken: bool) -> Scanned<()> {
    settle(
        if token_start(s, class) < s.len() {
            Some(())
        } else {
            None
        },
        token_start(s, class),
        s.len(),
        broken,
    )
}

/// What finding the start of a number comes to: it consumes the bytes
/// before the first digit and tells whether the number is negative.
pub open spec fn scan_sign(s: Seq<u8>, broken: bool) -> Scanned<bool> {
    settle(
        if number_start(s) < s.len() {
            Some(negated(s))
        } else {
            None
        },
        number_start(s),
        s.len(),
        broken,
    )
}

/// The first run of digits of `s` as a natural number.
pub open spec fn scan_natural(s: Seq<u8>, broken: bool) -> Scanned<nat> {
    settle(
        if number_start(s) < s.len() {
            Some(magnitude(s))
        } else {
            None
        },
        number_end(s),
        s.len(),
        broken,
    )
}

/// The first run of digits of `s` as an integer, negative if a `-` stands
/// directly before it.
pub open spec fn scan_integer(s: Seq<u8>, broken: bool) -> Scanned<int> {
    settle(
        if number_start(s) < s.len() {
            Some(
                if negated(s) {
                    -(magnitude(s) as int)
                } else {
                    magnitude(s) as int
                },
            )
        } else {
            None
        },
        number_end(s),
        s.len(),
        broken,
    )
}

/// What `next_unsigned` reads: the first run of digits, reduced to 64 bits.
pub open spec fn scan_unsigned(s: Seq<u8>, broken: bool) -> Scanned<u64> {
    scan_natural(s, broken).map(|n: nat| wrap_unsigned(n as int, word()) as u64)
}

/// What `next_signed` reads: the first run of digits with its sign, reduced
/// to 64 bits in two's complement.
pub open spec fn scan_signed(s: Seq<u8>, broken: bool) -> Scanned<i64> {
    scan_integer(s, broken).map(|x: int| wrap_signed(x, word()) as i64)
}

/// Where the digits behind the point end, if a point stands directly behind
/// the first run of digits; else where that run ends.
pub open spec fn decimal_end(s: Seq<u8>) -> nat {
    if number_end(s) < s.len() && s[number_end(s) as int] == POINT {
        number_end(s) + 1 + run(s.skip((number_end(s) + 1) as int), ByteClass::Digit)
    } else {
        number_end(s)
    }
}

/// The decimal number at the front of `s`: sign and digits as for an
/// integer, then, if a point follows directly, the point and the digits
/// behind it.
pub open spec fn decimal_at(s: Seq<u8>) -> DecimalView {
    if number_end(s) < s.len() && s[number_end(s) as int] == POINT {
        DecimalView {
            negative: negated(s),
            digits: digit_values(
                s.subrange(number_start(s) as int, number_end(s) as int) + s.subrange(
                    (number_end(s) + 1) as int,
                    decimal_end(s) as int,
                ),
            ),
            scale: (decimal_end(s) - number_end(s) - 1) as nat,
        }
    } else {
        DecimalView {
            negative: negated(s),
            digits: digit_values(s.subrange(number_start(s) as int, number_end(s) as int)),
            scale: 0,
        }
    }
}

/// What `next_decimal` reads.
pub open spec fn scan_decimal(s: Seq<u8>, broken: bool) -> Scanned<DecimalView> {
    settle(
        if number_start(s) < s.len() {
            Some(decimal_at(s))
        } else {
            None
        },
        decimal_end(s),
        s.len(),
        broken,
    )
}

/// Where the first graphic byte of `s` stands; `s.len()` if it has none.
pub open spec fn word_start(s: Seq<u8>) -> nat {
    token_start(s, ByteClass::Graphic)
}

/// Where the graphic bytes that begin at `word_start(s)` end.
pub open spec fn word_end(s: Seq<u8>) -> nat {
    token_end(s, ByteClass::Graphic)
}

/// What `next_word` reads: the first run of graphic bytes, as text.
pub open spec fn scan_word(s: Seq<u8>, broken: bool) -> Scanned<Seq<char>> {
    settle(
        if word_start(s) < s.len() {
            Some(text_of(s.subrange(word_start(s) as int, word_end(s) as int)))
        } else {
            None
        },
        word_end(s),
        s.len(),
        broken,
    )
}

/// What `next_char` reads: the first graphic byte, as a character.
pub open spec fn scan_char(s: Seq<u8>, broken: bool) -> Scanned<char> {
    settle(
        if word_start(s) < s.len() {
            Some(s[word_start(s) as int] as char)
        } else {
            None
        },
        if word_start(s) < s.len() {
            word_start(s) + 1
        } else {
            word_start(s)
        },
        s.len(),
        broken,
    )
}

/// How many bytes stand before the first line feed of `s`.
pub open spec fn line_len(s: Seq<u8>) -> nat {
    gap(s, ByteClass::Newline)
}

/// What `next_line` reads: the bytes before the first line feed, as text.
/// The line feed is consumed with them.  The last line needs no line feed;
/// where no byte is left there is no line.
pub open spec fn scan_line(s: Seq<u8>, broken: bool) -> Scanned<Seq<char>> {
    settle(
        if s.len() > 0 {
            Some(text_of(s.take(line_len(s) as int)))
        } else {
            None
        },
        if line_len(s) < s.len() {
            line_len(s) + 1
        } else {
            line_len(s)
        },
        s.len(),
        broken,
    )
}

/// A span is a front part, its bytes are all on the same side of the class,
/// and the byte behind it, if there is one, is on the other side.
pub proof fn lemma_span(s: Seq<u8>, class: ByteClass, member: bool)
    ensures
        span(s, class, member) <= s.len(),
        forall|k: int| 0 <= k < span(s, class, member) ==> class.holds(#[trigger] s[k]) == member,
        span(s, class, member) < s.len() ==> class.holds(s[span(s, class, member) as int])
            != member,
    decreases s.len(),
{
    if s.len() > 0 && class.holds(s[0]) == member {
        let rest = s.skip(1);
        lemma_span(rest, class, member);
        assert forall|k: int| 0 <= k < span(s, class, member) implies class.holds(
            #[trigger] s[k],
        ) == member by {
            if k > 0 {
                assert(s[k] == rest[k - 1]);
            }
        }
        if span(s, class, member) < s.len() {
            assert(s[span(s, class, member) as int] == rest[span(rest, class, member) as int]);
        }
    }
}

/// The span is the only front part of its kind.
pub proof fn lemma_span_is(s: Seq<u8>, class: ByteClass, member: bool, n: nat)
    requires
        n <= s.len(),
        forall|k: int| 0 <= k < n ==> class.holds(#[trigger] s[k]) == member,
        n < s.len() ==> class.holds(s[n as int]) != member,
    ensures
        span(s, class, member) == n,
    decreases s.len(),
{
    if n > 0 {
        let rest = s.skip(1);
        assert(class.holds(s[0]) == member);
        assert forall|k: int| 0 <= k < n - 1 implies class.holds(#[trigger] rest[k])
            == member by {
            assert(rest[k] == s[k + 1]);
        }
        if n < s.len() {
            assert(rest[n - 1] == s[n as int]);
        }
        lemma_span_is(rest, class, member, (n - 1) as nat);
    }
}

/// A span that ends inside `s` is not changed by what follows `s`.
pub proof fn lemma_span_decided(s: Seq<u8>, t: Seq<u8>, class: ByteClass, member: bool)
    requires
        span(s, class, member) < s.len(),
    ensures
        span(s + t, class, member) == span(s, class, member),
{
    let n = span(s, class, member);
    lemma_span(s, class, member);
    assert forall|k: int| 0 <= k < n implies class.holds(#[trigger] (s + t)[k]) == member by {
        assert((s + t)[k] == s[k]);
    }
    assert((s + t)[n as int] == s[n as int]);
    lemma_span_is(s + t, class, member, n);
}

/// A token that begins at `i` and ends at `j`: no byte of the class before
/// it, only such bytes in it, and none directly behind it.
pub proof fn lemma_token_is(s: Seq<u8>, class: ByteClass, i: nat, j: nat)
    requires
        i <= j <= s.len(),
        forall|k: int| 0 <= k < i ==> !class.holds(#[trigger] s[k]),
        forall|k: int| i <= k < j ==> class.holds(#[trigger] s[k]),
        i < s.len() ==> i < j,
        j < s.len() ==> !class.holds(s[j as int]),
    ensures
        token_start(s, class) == i,
        token_end(s, class) == j,
{
    lemma_span_is(s, class, false, i);
    let rest = s.skip(i as int);
    assert forall|k: int| 0 <= k < j - i implies class.holds(#[trigger] rest[k]) by {
        assert(rest[k] == s[i + k]);
    }
    if j < s.len() {
        assert(rest[j - i] == s[j as int]);
    }
    lemma_span_is(rest, class, true, (j - i) as nat);
}

/// Where a token begins and ends.
pub proof fn lemma_token(s: Seq<u8>, class: ByteClass)
    ensures
        token_start(s, class) <= token_end(s, class) <= s.len(),
        token_start(s, class) < s.len() ==> token_start(s, class) < token_end(s, class),
        forall|k: int| 0 <= k < token_start(s, class) ==> !class.holds(#[trigger] s[k]),
        forall|k: int|
            token_start(s, class) <= k < token_end(s, class) ==> class.holds(#[trigger] s[k]),
        token_end(s, class) < s.len() ==> !class.holds(s[token_end(s, class) as int]),
{
    let i = token_start(s, class);
    lemma_span(s, class, false);
    let rest = s.skip(i as int);
    lemma_span(rest, class, true);
    let n = run(rest, class);
    assert forall|k: int| i <= k < i + n implies class.holds(#[trigger] s[k]) by {
        assert(s[k] == rest[k - i]);
    }
    if i + n < s.len() {
        assert(s[(i + n) as int] == rest[n as int]);
    }
    if i < s.len() {
        assert(rest[0] == s[i as int]);
    }
}

/// One more byte behind a text.
pub proof fn lemma_text_of_push(s: Seq<u8>, b: u8)
    ensures
        text_of(s.push(b)) == text_of(s).push(b as char),
{
    assert(text_of(s.push(b)) =~= text_of(s).push(b as char));
}

/// One more digit behind a sequence of digit values.
pub proof fn lemma_digit_values_push(s: Seq<u8>, b: u8)
    ensures
        digit_values(s.push(b)) == digit_values(s).push((b - ZERO) as u8),
{
    assert(digit_values(s.push(b)) =~= digit_values(s).push((b - ZERO) as u8));
}

/// One more digit behind a sequence of digits.
pub proof fn lemma_digits_value_push(s: Seq<u8>, b: u8)
    ensures
        digits_value(s.push(b)) == 10 * digits_value(s) + (b - ZERO) as nat,
{
    assert(s.push(b).drop_last() =~= s);
}

} // verus!
