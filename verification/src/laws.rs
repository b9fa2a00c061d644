//! What holds of the scanners, and of the reads, on every input.
//!
//! A reader returns what a scanner answers on the bytes that the reader has
//! received from the place of its cursor on.  How many bytes that are
//! depends on the size of the buffer and on how the source hands its bytes
//! out.  The first group of laws says that this makes no difference: once a
//! scanner's answer is decided, more input does not change it.  The second
//! group says what the scanners answer on numbers as they are usually
//! written.  The third group follows a reader through a list of numbers and
//! to the end of its input.
use vstd::prelude::*;
use crate::decimal::DecimalView;
use crate::device::ByteSource;
use crate::error::Error;
use crate::input_reader::InputReader;
use crate::readable::InputReadable;
use crate::narrow::{wrap_signed, wrap_unsigned, word};
use crate::scan::{
    decimal_end,
    digit_values,
    digits_value,
    is_digit,
    is_graphic,
    is_whitespace,
    lemma_digits_value_push,
    lemma_span_decided,
    lemma_span_is,
    lemma_token,
    lemma_token_is,
    line_len,
    magnitude,
    number_end,
    number_start,
    scan_char,
    scan_decimal,
    scan_integer,
    scan_line,
    scan_more,
    scan_natural,
    scan_signed,
    scan_unsigned,
    scan_word,
    text_of,
    token_end,
    token_start,
    ByteClass,
    Scanned,
    MINUS,
    POINT,
    ZERO,
};

verus! {

/// A token that ends inside `s` is not changed by what follows `s`.
pub proof fn lemma_token_decided(s: Seq<u8>, t: Seq<u8>, class: ByteClass)
    requires
        token_end(s, class) < s.len(),
    ensures
        token_start(s + t, class) == token_start(s, class),
        token_end(s + t, class) == token_end(s, class),
        (s + t).subrange(token_start(s, class) as int, token_end(s, class) as int) == s.subrange(
            token_start(s, class) as int,
            token_end(s, class) as int,
        ),
{
    let i = token_start(s, class);
    let j = token_end(s, class);
    lemma_token(s, class);
    lemma_span_decided(s, t, class, false);
    assert((s + t).skip(i as int) =~= s.skip(i as int) + t);
    lemma_span_decided(s.skip(i as int), t, class, true);
    assert((s + t).subrange(i as int, j as int) =~= s.subrange(i as int, j as int));
}

/// Once a byte is there, more input does not change that.
pub proof fn lemma_more_decided(s: Seq<u8>, t: Seq<u8>, b1: bool, b2: bool)
    requires
        scan_more(s, b1).used < s.len(),
    ensures
        scan_more(s + t, b2) == scan_more(s, b1),
{
}

/// Once the byte behind a number has been received, more input does not
/// change the number.
pub proof fn lemma_natural_decided(s: Seq<u8>, t: Seq<u8>, b1: bool, b2: bool)
    requires
        scan_natural(s, b1).used < s.len(),
    ensures
        scan_natural(s + t, b2) == scan_natural(s, b1),
{
    lemma_token(s, ByteClass::Digit);
    lemma_token_decided(s, t, ByteClass::Digit);
}

/// Once the byte behind a number has been received, more input does not
/// change the number or its sign.
pub proof fn lemma_integer_decided(s: Seq<u8>, t: Seq<u8>, b1: bool, b2: bool)
    requires
        scan_integer(s, b1).used < s.len(),
    ensures
        scan_integer(s + t, b2) == scan_integer(s, b1),
{
    lemma_token(s, ByteClass::Digit);
    lemma_token_decided(s, t, ByteClass::Digit);
    if number_start(s) > 0 {
        assert((s + t)[number_start(s) - 1] == s[number_start(s) - 1]);
    }
}

/// Once the byte behind a decimal number has been received, more input does
/// not change the number.
pub proof fn lemma_decimal_decided(s: Seq<u8>, t: Seq<u8>, b1: bool, b2: bool)
    requires
        scan_decimal(s, b1).used < s.len(),
    ensures
        scan_decimal(s + t, b2) == scan_decimal(s, b1),
{
    let class = ByteClass::Digit;
    let i = number_start(s);
    let j = number_end(s);
    lemma_token(s, class);
    lemma_token_decided(s, t, class);
    if number_start(s) > 0 {
        assert((s + t)[number_start(s) - 1] == s[number_start(s) - 1]);
    }
    assert((s + t)[j as int] == s[j as int]);
    if s[j as int] == POINT {
        let k = decimal_end(s);
        assert((s + t).skip((j + 1) as int) =~= s.skip((j + 1) as int) + t);
        lemma_span_decided(s.skip((j + 1) as int), t, class, true);
        assert((s + t).subrange((j + 1) as int, k as int) =~= s.subrange(
            (j + 1) as int,
            k as int,
        ));
    }
}

/// Once the byte behind a word has been received, more input does not
/// change the word.
pub proof fn lemma_word_decided(s: Seq<u8>, t: Seq<u8>, b1: bool, b2: bool)
    requires
        scan_word(s, b1).used < s.len(),
    ensures
        scan_word(s + t, b2) == scan_word(s, b1),
{
    lemma_token(s, ByteClass::Graphic);
    lemma_token_decided(s, t, ByteClass::Graphic);
}

/// Once the byte behind a character has been received, more input does not
/// change the character.
pub proof fn lemma_char_decided(s: Seq<u8>, t: Seq<u8>, b1: bool, b2: bool)
    requires
        scan_char(s, b1).used < s.len(),
    ensures
        scan_char(s + t, b2) == scan_char(s, b1),
{
    let class = ByteClass::Graphic;
    lemma_span_decided(s, t, class, false);
    assert((s + t)[token_start(s, class) as int] == s[token_start(s, class) as int]);
}

/// Once the byte behind a line's end has been received, more input does not
/// change the line.
pub proof fn lemma_line_decided(s: Seq<u8>, t: Seq<u8>, b1: bool, b2: bool)
    requires
        scan_line(s, b1).used < s.len(),
    ensures
        scan_line(s + t, b2) == scan_line(s, b1),
{
    lemma_span_decided(s, t, ByteClass::Newline, false);
    assert((s + t).take(line_len(s) as int) =~= s.take(line_len(s) as int));
}

/// What a read comes to does not depend on how much of the input had been
/// received when the read ended: if `window` is the front part of the input
/// `whole` that the reader had received, and the read was decided in it or
/// the reader had received all there is, then the read comes to what it
/// comes to on `whole`.
pub proof fn lemma_boundary_invariance<T: InputReadable>(window: Seq<u8>, whole: Seq<u8>)
    requires
        window.is_prefix_of(whole),
        T::scan(window, false).used < window.len() || window == whole,
    ensures
        T::scan(window, false) == T::scan(whole, false),
{
    if window != whole {
        let t = whole.skip(window.len() as int);
        assert(window + t =~= whole);
        T::lemma_decided(window, t, false, false);
    }
}

/// The digits of `n` in base ten, without leading zeros.
pub open spec fn decimal_text(n: nat) -> Seq<u8>
    decreases n,
{
    if n < 10 {
        seq![(ZERO + n) as u8]
    } else {
        decimal_text(n / 10).push((ZERO + n % 10) as u8)
    }
}

/// `x` as it is usually written: a `-` if it is negative, then the digits of
/// its absolute value.
pub open spec fn signed_text(x: int) -> Seq<u8> {
    if x < 0 {
        seq![MINUS] + decimal_text((-x) as nat)
    } else {
        decimal_text(x as nat)
    }
}

/// Whether no byte of `s` is a digit.
pub open spec fn no_digit(s: Seq<u8>) -> bool {
    forall|k: int| 0 <= k < s.len() ==> !is_digit(#[trigger] s[k])
}

/// Whether `s` is empty or begins with a byte of `class` (for `member`) or
/// with one outside it.
pub open spec fn begins(s: Seq<u8>, class: ByteClass, member: bool) -> bool {
    s.len() == 0 || class.holds(s[0]) == member
}

/// The text of a number is made of digits, and they denote the number.
pub proof fn lemma_decimal_text(n: nat)
    ensures
        decimal_text(n).len() > 0,
        forall|k: int| 0 <= k < decimal_text(n).len() ==> is_digit(#[trigger] decimal_text(n)[k]),
        digits_value(decimal_text(n)) == n,
    decreases n,
{
    if n < 10 {
        lemma_digits_value_push(Seq::<u8>::empty(), (ZERO + n) as u8);
        assert(Seq::<u8>::empty().push((ZERO + n) as u8) =~= decimal_text(n));
    } else {
        lemma_decimal_text(n / 10);
        lemma_digits_value_push(decimal_text(n / 10), (ZERO + n % 10) as u8);
    }
}

/// Where the number stands in a text made of bytes that are no digits, then
/// digits, then a rest that does not begin with a digit.
pub proof fn lemma_number_between(lead: Seq<u8>, digits: Seq<u8>, rest: Seq<u8>)
    requires
        no_digit(lead),
        digits.len() > 0,
        forall|k: int| 0 <= k < digits.len() ==> is_digit(#[trigger] digits[k]),
        begins(rest, ByteClass::Digit, false),
    ensures
        number_start(lead + digits + rest) == lead.len(),
        number_end(lead + digits + rest) == lead.len() + digits.len(),
        magnitude(lead + digits + rest) == digits_value(digits),
        (lead + digits + rest).skip((lead.len() + digits.len()) as int) == rest,
        lead.len() > 0 ==> (lead + digits + rest)[lead.len() - 1] == lead.last(),
{
    let s = lead + digits + rest;
    let i = lead.len();
    let j = lead.len() + digits.len();
    assert forall|k: int| 0 <= k < i implies !is_digit(#[trigger] s[k]) by {
        assert(s[k] == lead[k]);
    }
    assert forall|k: int| i <= k < j implies is_digit(#[trigger] s[k]) by {
        assert(s[k] == digits[k - i]);
    }
    if j < s.len() {
        assert(s[j as int] == rest[0]);
    }
    lemma_token_is(s, ByteClass::Digit, i, j);
    assert(s.subrange(i as int, j as int) =~= digits);
    assert(s.skip(j as int) =~= rest);
}

/// Reading back what was written, unsigned: a number written in digits
/// after bytes that are no digits, and followed by the end of the input or
/// by a byte that is no digit, is read as that number, reduced to 64 bits.
/// The read consumes the text up to the number's last digit.
pub proof fn lemma_unsigned_round_trip(n: nat, lead: Seq<u8>, rest: Seq<u8>)
    requires
        no_digit(lead),
        begins(rest, ByteClass::Digit, false),
    ensures
        scan_unsigned(lead + decimal_text(n) + rest, false) == (Scanned {
            result: Ok::<u64, Error>(wrap_unsigned(n as int, word()) as u64),
            used: lead.len() + decimal_text(n).len(),
        }),
        n <= u64::MAX ==> scan_unsigned(lead + decimal_text(n) + rest, false).result == Ok::<
            u64,
            Error,
        >(n as u64),
{
    lemma_decimal_text(n);
    lemma_number_between(lead, decimal_text(n), rest);
}

/// Reading back what was written, signed: an integer written with a `-` if
/// it is negative, after bytes that are no digits, and followed by the end
/// of the input or by a byte that is no digit, is read as that integer,
/// reduced to 64 bits.  A `-` anywhere but directly before the first digit
/// is passed over like any other byte that is no digit.
pub proof fn lemma_signed_round_trip(x: int, lead: Seq<u8>, rest: Seq<u8>)
    requires
        no_digit(lead),
        x >= 0 && lead.len() > 0 ==> lead.last() != MINUS,
        begins(rest, ByteClass::Digit, false),
    ensures
        scan_signed(lead + signed_text(x) + rest, false) == (Scanned {
            result: Ok::<i64, Error>(wrap_signed(x, word()) as i64),
            used: lead.len() + signed_text(x).len(),
        }),
        i64::MIN <= x <= i64::MAX ==> scan_signed(lead + signed_text(x) + rest, false).result
            == Ok::<i64, Error>(x as i64),
{
    if x < 0 {
        let n = (-x) as nat;
        let lead2 = lead.push(MINUS);
        lemma_decimal_text(n);
        assert forall|k: int| 0 <= k < lead2.len() implies !is_digit(#[trigger] lead2[k]) by {
            if k < lead.len() {
                assert(lead2[k] == lead[k]);
            }
        }
        lemma_number_between(lead2, decimal_text(n), rest);
        assert(lead + signed_text(x) + rest =~= lead2 + decimal_text(n) + rest);
    } else {
        lemma_decimal_text(x as nat);
        lemma_number_between(lead, decimal_text(x as nat), rest);
    }
}

/// Whether every byte of `s` is a digit.
pub open spec fn all_digits(s: Seq<u8>) -> bool {
    forall|k: int| 0 <= k < s.len() ==> is_digit(#[trigger] s[k])
}

/// The `-` of a negative number, or nothing.
pub open spec fn sign_text(negative: bool) -> Seq<u8> {
    if negative {
        seq![MINUS]
    } else {
        Seq::empty()
    }
}

/// Reading back what was written, with a point: digits, a point and more
/// digits, with a `-` before them if the number is negative, are read as a
/// decimal number with exactly those digits, as many of them behind the
/// point as were written there.  The read consumes the text up to the last
/// digit, or up to the point if no digit follows it.
pub proof fn lemma_decimal_round_trip(
    negative: bool,
    whole: Seq<u8>,
    fraction: Seq<u8>,
    lead: Seq<u8>,
    rest: Seq<u8>,
)
    requires
        no_digit(lead),
        !negative && lead.len() > 0 ==> lead.last() != MINUS,
        whole.len() > 0,
        all_digits(whole),
        all_digits(fraction),
        begins(rest, ByteClass::Digit, false),
    ensures
        scan_decimal(
            lead + sign_text(negative) + whole + seq![POINT] + fraction + rest,
            false,
        ) == (Scanned {
            result: Ok::<DecimalView, Error>(
                DecimalView {
                    negative,
                    digits: digit_values(whole + fraction),
                    scale: fraction.len(),
                },
            ),
            used: lead.len() + sign_text(negative).len() + whole.len() + 1 + fraction.len(),
        }),
{
    let front = lead + sign_text(negative);
    let back = seq![POINT] + fraction + rest;
    let s = lead + sign_text(negative) + whole + seq![POINT] + fraction + rest;
    let j = front.len() + whole.len();
    assert forall|k: int| 0 <= k < front.len() implies !is_digit(#[trigger] front[k]) by {
        if k < lead.len() {
            assert(front[k] == lead[k]);
        }
    }
    assert(back[0] == POINT);
    lemma_number_between(front, whole, back);
    assert(s =~= front + whole + back);
    assert(s[j as int] == back[0]);
    let tail = s.skip((j + 1) as int);
    assert(tail =~= fraction + rest);
    assert forall|k: int| 0 <= k < fraction.len() implies is_digit(#[trigger] tail[k]) by {
        assert(tail[k] == fraction[k]);
    }
    if fraction.len() < tail.len() {
        assert(tail[fraction.len() as int] == rest[0]);
    }
    lemma_span_is(tail, ByteClass::Digit, true, fraction.len());
    assert(s.subrange(front.len() as int, j as int) =~= whole);
    assert(s.subrange((j + 1) as int, (j + 1 + fraction.len()) as int) =~= fraction);
    if front.len() > 0 {
        assert(s[front.len() - 1] == front.last());
        if negative {
            assert(front.last() == MINUS);
        } else {
            assert(front =~= lead);
        }
    }
}

/// Reading back what was written, without a point: digits, with a `-`
/// before them if the number is negative, and neither a digit nor a point
/// behind them, are read as a decimal number with exactly those digits and
/// none behind the point.
pub proof fn lemma_decimal_round_trip_whole(
    negative: bool,
    whole: Seq<u8>,
    lead: Seq<u8>,
    rest: Seq<u8>,
)
    requires
        no_digit(lead),
        !negative && lead.len() > 0 ==> lead.last() != MINUS,
        whole.len() > 0,
        all_digits(whole),
        begins(rest, ByteClass::Digit, false),
        rest.len() > 0 ==> rest[0] != POINT,
    ensures
        scan_decimal(lead + sign_text(negative) + whole + rest, false) == (Scanned {
            result: Ok::<DecimalView, Error>(
                DecimalView { negative, digits: digit_values(whole), scale: 0 },
            ),
            used: lead.len() + sign_text(negative).len() + whole.len(),
        }),
{
    let front = lead + sign_text(negative);
    let s = lead + sign_text(negative) + whole + rest;
    let j = front.len() + whole.len();
    assert forall|k: int| 0 <= k < front.len() implies !is_digit(#[trigger] front[k]) by {
        if k < lead.len() {
            assert(front[k] == lead[k]);
        }
    }
    lemma_number_between(front, whole, rest);
    if j < s.len() {
        assert(s[j as int] == rest[0]);
    }
    assert(s.subrange(front.len() as int, j as int) =~= whole);
    if front.len() > 0 {
        assert(s[front.len() - 1] == front.last());
        if negative {
            assert(front.last() == MINUS);
        } else {
            assert(front =~= lead);
        }
    }
}

/// Whether `seps` can stand around the numbers `ns`: one separator before
/// each number and one behind the last, all of whitespace, and those between
/// two numbers not empty.
pub open spec fn separates(seps: Seq<Seq<u8>>, ns: Seq<nat>) -> bool {
    &&& seps.len() == ns.len() + 1
    &&& forall|i: int, k: int|
        0 <= i < seps.len() && 0 <= k < seps[i].len() ==> is_whitespace(#[trigger] seps[i][k])
    &&& forall|i: int| 0 < i < ns.len() ==> (#[trigger] seps[i]).len() > 0
}

/// The numbers `ns` written one after the other, with the separators `seps`
/// around them.
pub open spec fn joined(ns: Seq<nat>, seps: Seq<Seq<u8>>) -> Seq<u8>
    decreases ns.len(),
{
    if seps.len() == 0 {
        Seq::empty()
    } else if ns.len() == 0 {
        seps[0]
    } else {
        seps[0] + decimal_text(ns[0]) + joined(ns.skip(1), seps.skip(1))
    }
}

/// What reading unsigned integers from `s` returns, read after read, until
/// a read fails.
pub open spec fn all_unsigned(s: Seq<u8>) -> Seq<u64>
    decreases s.len(),
{
    let first = scan_unsigned(s, false);
    if first.result is Ok && 0 < first.used <= s.len() {
        seq![first.result->Ok_0] + all_unsigned(s.skip(first.used as int))
    } else {
        Seq::empty()
    }
}

/// Reading back a list: unsigned integers written with whitespace between
/// them are read, one after the other, as the same integers in the same
/// order, each reduced to 64 bits, and then the input is at its end.
pub proof fn lemma_unsigned_list_round_trip(ns: Seq<nat>, seps: Seq<Seq<u8>>)
    requires
        separates(seps, ns),
    ensures
        all_unsigned(joined(ns, seps)) == Seq::new(
            ns.len(),
            |i: int| wrap_unsigned(ns[i] as int, word()) as u64,
        ),
    decreases ns.len(),
{
    let s = joined(ns, seps);
    let want = Seq::new(ns.len(), |i: int| wrap_unsigned(ns[i] as int, word()) as u64);
    assert forall|k: int| 0 <= k < seps[0].len() implies !is_digit(#[trigger] seps[0][k]) by {
        assert(is_whitespace(seps[0][k]));
    }
    if ns.len() == 0 {
        lemma_token_is(s, ByteClass::Digit, s.len(), s.len());
        assert(all_unsigned(s) =~= want);
    } else {
        let tail = joined(ns.skip(1), seps.skip(1));
        let later = seps.skip(1);
        assert(later[0] == seps[1]);
        if tail.len() > 0 {
            if ns.len() == 1 {
                assert(tail == seps[1]);
                assert(is_whitespace(seps[1][0]));
            } else {
                assert(seps[1].len() > 0);
                assert(tail[0] == seps[1][0]);
                assert(is_whitespace(seps[1][0]));
            }
        }
        lemma_unsigned_round_trip(ns[0], seps[0], tail);
        lemma_decimal_text(ns[0]);
        lemma_number_between(seps[0], decimal_text(ns[0]), tail);
        assert forall|i: int, k: int|
            0 <= i < later.len() && 0 <= k < later[i].len() implies is_whitespace(
            #[trigger] later[i][k],
        ) by {
            assert(later[i] == seps[i + 1]);
            assert(is_whitespace(seps[i + 1][k]));
        }
        assert forall|i: int| 0 < i < ns.skip(1).len() implies (#[trigger] later[i]).len()
            > 0 by {
            assert(later[i] == seps[i + 1]);
        }
        lemma_unsigned_list_round_trip(ns.skip(1), later);
        let rest_want = Seq::new(
            ns.skip(1).len(),
            |i: int| wrap_unsigned(ns.skip(1)[i] as int, word()) as u64,
        );
        assert(want =~= seq![wrap_unsigned(ns[0] as int, word()) as u64] + rest_want);
    }
}

/// Reading a list, read by read: a reader that expects the numbers `ns`,
/// written with whitespace between them, returns the first of them when it
/// reads an unsigned integer, and expects the others afterwards.  So the
/// reads return the numbers one after the other in their order, whatever the
/// size of the buffer and however the source hands out its bytes.
pub proof fn lemma_unsigned_list_step<S: ByteSource>(
    before: InputReader<S>,
    after: InputReader<S>,
    ns: Seq<nat>,
    seps: Seq<Seq<u8>>,
)
    requires
        before.wf(),
        after.wf(),
        before.foreseen(),
        !before.breaks(),
        separates(seps, ns),
        ns.len() > 0,
        before.expected() == joined(ns, seps),
        after.reads(
            &before,
            scan_unsigned(after.window(&before), after.stalled()),
            scan_unsigned(before.buffered(), false),
            scan_unsigned(before.expected(), false),
        ),
    ensures
        scan_unsigned(after.window(&before), after.stalled()).result == Ok::<u64, Error>(
            wrap_unsigned(ns[0] as int, word()) as u64,
        ),
        after.foreseen(),
        !after.breaks(),
        separates(seps.skip(1), ns.skip(1)),
        after.expected() == joined(ns.skip(1), seps.skip(1)),
{
    let later = seps.skip(1);
    let tail = joined(ns.skip(1), later);
    assert forall|k: int| 0 <= k < seps[0].len() implies !is_digit(#[trigger] seps[0][k]) by {
        assert(is_whitespace(seps[0][k]));
    }
    assert(later[0] == seps[1]);
    if tail.len() > 0 {
        if ns.len() == 1 {
            assert(tail == seps[1]);
            assert(is_whitespace(seps[1][0]));
        } else {
            assert(seps[1].len() > 0);
            assert(tail[0] == seps[1][0]);
            assert(is_whitespace(seps[1][0]));
        }
    }
    assert forall|i: int, k: int|
        0 <= i < later.len() && 0 <= k < later[i].len() implies is_whitespace(
        #[trigger] later[i][k],
    ) by {
        assert(later[i] == seps[i + 1]);
        assert(is_whitespace(seps[i + 1][k]));
    }
    assert forall|i: int| 0 < i < ns.skip(1).len() implies (#[trigger] later[i]).len() > 0 by {
        assert(later[i] == seps[i + 1]);
    }
    lemma_unsigned_round_trip(ns[0], seps[0], tail);
    lemma_decimal_text(ns[0]);
    lemma_number_between(seps[0], decimal_text(ns[0]), tail);
    after.lemma_expected(&before, scan_unsigned(before.expected(), false).used);
}

/// After a read that has consumed all that was expected, no byte is left:
/// a token or a line that ends with the input is followed by nothing.
pub proof fn lemma_nothing_more<S: ByteSource>(
    before: InputReader<S>,
    mid: InputReader<S>,
    after: InputReader<S>,
)
    requires
        before.wf(),
        mid.wf(),
        after.wf(),
        before.foreseen(),
        !before.breaks(),
        mid.follows(&before, before.expected().len()),
        after.reads(
            &mid,
            scan_more(after.window(&mid), after.stalled()),
            scan_more(mid.buffered(), false),
            scan_more(mid.expected(), false),
        ),
    ensures
        scan_more(after.window(&mid), after.stalled()).result == Ok::<bool, Error>(false),
{
    mid.lemma_expected(&before, before.expected().len());
}

/// A word that ends with the input is read whole, and the read leaves
/// nothing behind: no byte is left to read then.
pub proof fn lemma_word_at_end(lead: Seq<u8>, word: Seq<u8>)
    requires
        forall|k: int| 0 <= k < lead.len() ==> !is_graphic(#[trigger] lead[k]),
        word.len() > 0,
        forall|k: int| 0 <= k < word.len() ==> is_graphic(#[trigger] word[k]),
    ensures
        scan_word(lead + word, false) == (Scanned {
            result: Ok::<Seq<char>, Error>(text_of(word)),
            used: (lead + word).len(),
        }),
        scan_more((lead + word).skip((lead + word).len() as int), false).result == Ok::<
            bool,
            Error,
        >(false),
{
    let s = lead + word;
    assert forall|k: int| 0 <= k < lead.len() implies !ByteClass::Graphic.holds(
        #[trigger] s[k],
    ) by {
        assert(s[k] == lead[k]);
    }
    assert forall|k: int| lead.len() <= k < s.len() implies ByteClass::Graphic.holds(
        #[trigger] s[k],
    ) by {
        assert(s[k] == word[k - lead.len()]);
    }
    lemma_token_is(s, ByteClass::Graphic, lead.len(), s.len());
    assert(s.subrange(lead.len() as int, s.len() as int) =~= word);
}

/// A last line without a line feed is read whole, and the read leaves
/// nothing behind: no byte is left to read then.
pub proof fn lemma_line_at_end(line: Seq<u8>)
    requires
        line.len() > 0,
        forall|k: int| 0 <= k < line.len() ==> #[trigger] line[k] != crate::scan::NEWLINE,
    ensures
        scan_line(line, false) == (Scanned {
            result: Ok::<Seq<char>, Error>(text_of(line)),
            used: line.len(),
        }),
        scan_more(line.skip(line.len() as int), false).result == Ok::<bool, Error>(false),
{
    lemma_span_is(line, ByteClass::Newline, false, line.len());
    assert(line.take(line.len() as int) =~= line);
}

} // verus!
