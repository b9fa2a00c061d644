//! What holds of the windows of a reader, and how the reads arrive at their
//! results.
use vstd::prelude::*;
use crate::device::ByteSource;
use crate::error::Error;
use crate::input_reader::InputReader;
use crate::laws::{
    lemma_char_decided,
    lemma_decimal_decided,
    lemma_integer_decided,
    lemma_line_decided,
    lemma_more_decided,
    lemma_natural_decided,
    lemma_word_decided,
};
use crate::scan::{
    decimal_end,
    gap,
    is_digit,
    lemma_span,
    lemma_span_decided,
    lemma_span_is,
    lemma_token,
    lemma_token_is,
    magnitude,
    negated,
    number_end,
    number_start,
    scan_char,
    scan_decimal,
    scan_integer,
    scan_line,
    scan_more,
    scan_natural,
    scan_sign,
    scan_skip,
    scan_word,
    token_end,
    token_start,
    ByteClass,
    MINUS,
    POINT,
};

verus! {

impl<S: ByteSource> InputReader<S> {
    /// Consuming in two steps is consuming.
    pub proof fn lemma_follows_chain(&self, mid: &Self, before: &Self, first: nat, second: nat)
        requires
            before.wf(),
            mid.wf(),
            self.wf(),
            mid.follows(before, first),
            self.follows(mid, second),
        ensures
            self.follows(before, first + second),
            forall|k: int|
                0 <= k < mid.delivered().len() ==> #[trigger] self.delivered()[k]
                    == mid.delivered()[k],
    {
        let a = before.delivered();
        let b = mid.delivered();
        let c = self.delivered();
        assert(a =~= b.subrange(0, a.len() as int));
        assert(b =~= c.subrange(0, b.len() as int));
        assert(a =~= c.subrange(0, a.len() as int));
        assert forall|k: int| 0 <= k < b.len() implies #[trigger] c[k] == b[k] by {
            assert(c.subrange(0, b.len() as int)[k] == c[k]);
        }
        let oa = before.offers();
        let ob = mid.offers();
        let oc = self.offers();
        assert(oa =~= ob.subrange(0, oa.len() as int));
        assert(ob =~= oc.subrange(0, ob.len() as int));
        assert(oa =~= oc.subrange(0, oa.len() as int));
        assert forall|k: int| oa.len() <= k < oc.len() implies #[trigger] oc[k]
            == self.capacity() by {
            if k < ob.len() {
                assert(oc.subrange(0, ob.len() as int)[k] == oc[k]);
            }
        }
        if before.foreseen() {
            let early = mid.window(before);
            let late = self.window(mid);
            assert(early.take(first as int) + mid.buffered() =~= early);
            assert(late.take(mid.buffered().len() as int) =~= mid.buffered()) by {
                assert forall|k: int| 0 <= k < mid.buffered().len() implies late[k]
                    == mid.buffered()[k] by {
                    assert(c[mid.consumed().len() + k] == b[mid.consumed().len() + k]);
                }
            }
            assert(self.window(before) =~= early.take(first as int) + late);
            assert(self.window(before) + self.to_come() =~= early.take(first as int) + (late
                + self.to_come()));
            assert(early.take(first as int) + (mid.buffered() + mid.to_come()) =~= early
                + mid.to_come());
        }
    }

    /// A reader follows itself by consuming nothing.
    pub proof fn lemma_follows_self(&self)
        ensures
            self.follows(self, 0),
    {
        assert(self.delivered() =~= self.delivered().subrange(
            0,
            self.delivered().len() as int,
        ));
        assert(self.offers() =~= self.offers().subrange(0, self.offers().len() as int));
        assert(self.window(self) =~= self.buffered());
    }

    /// The window of a reader that has consumed `used` bytes: those bytes,
    /// then the buffered ones.
    pub proof fn lemma_window(&self, before: &Self, used: nat)
        requires
            before.wf(),
            self.wf(),
            self.follows(before, used),
        ensures
            self.window(before).len() == used + self.buffered().len(),
            forall|k: int|
                0 <= k < used + self.buffered().len() ==> #[trigger] self.window(before)[k]
                    == self.delivered()[before.consumed().len() + k],
            self.buffered().len() > 0 ==> self.window(before)[used as int] == self.buffered()[0],
            used < before.buffered().len() ==> self.buffered() == before.buffered().skip(
                used as int,
            ),
            used == 0 && before.buffered().len() > 0 ==> self.buffered() == before.buffered(),
    {
        let start = before.consumed().len();
        if used < before.buffered().len() {
            assert(before.delivered() =~= before.delivered().subrange(
                0,
                before.delivered().len() as int,
            ));
            assert(self.consumed() =~= self.delivered().subrange(0, (start + used) as int));
            assert(self.buffered() =~= self.delivered().subrange(
                (start + used) as int,
                self.delivered().len() as int,
            ));
            assert(before.buffered() =~= before.delivered().subrange(
                start as int,
                before.delivered().len() as int,
            ));
            assert(self.buffered() =~= before.buffered().skip(used as int));
            if used == 0 {
                assert(before.buffered().skip(0) =~= before.buffered());
            }
        }
    }

    /// What a reader that foresaw its input still expects after it has
    /// consumed `used` bytes: what it expected before, without those bytes.
    pub proof fn lemma_expected(&self, before: &Self, used: nat)
        requires
            before.wf(),
            self.wf(),
            self.follows(before, used),
            before.foreseen(),
        ensures
            used <= before.expected().len(),
            self.expected() == before.expected().skip(used as int),
            self.breaks() == before.breaks(),
            self.foreseen(),
    {
        let w = self.window(before);
        self.lemma_window(before, used);
        assert(w.skip(used as int) =~= self.buffered());
        assert((w + self.to_come()).skip(used as int) =~= w.skip(used as int) + self.to_come());
    }

    /// What a reader has received from the place of the old cursor on: the
    /// bytes that were buffered then, and those that came after them.
    pub proof fn lemma_fresh(&self, before: &Self)
        requires
            before.wf(),
            self.wf(),
            before.delivered().is_prefix_of(self.delivered()),
        ensures
            self.window(before) == before.buffered() + self.delivered().skip(
                before.delivered().len() as int,
            ),
    {
        let d0 = before.delivered();
        let d1 = self.delivered();
        let n = before.consumed().len() as int;
        assert(d0 =~= d1.subrange(0, d0.len() as int));
        assert(before.buffered() =~= d0.skip(n));
        assert forall|k: int| 0 <= k < d0.len() - n implies d1.skip(n)[k] == d0.skip(n)[k] by {
            assert(d1.subrange(0, d0.len() as int)[n + k] == d1[n + k]);
        }
        assert(d1.skip(n) =~= d0.skip(n) + d1.skip(d0.len() as int));
    }

    /// Whether the bytes received at the places from `from` up to `to` are
    /// all in `class` (for `member`) or all outside it.
    pub(crate) open spec fn all_in(
        &self,
        from: nat,
        to: nat,
        class: ByteClass,
        member: bool,
    ) -> bool {
        forall|k: int| from <= k < to ==> class.holds(#[trigger] self.delivered()[k]) == member
    }

    /// What is known of received bytes stays true when more is received.
    pub(crate) proof fn lemma_all_in_kept(
        &self,
        mid: &Self,
        from: nat,
        to: nat,
        class: ByteClass,
        member: bool,
    )
        requires
            mid.all_in(from, to, class, member),
            to <= mid.delivered().len(),
            forall|k: int|
                0 <= k < mid.delivered().len() ==> #[trigger] self.delivered()[k]
                    == mid.delivered()[k],
        ensures
            self.all_in(from, to, class, member),
    {
        assert forall|k: int| from <= k < to implies class.holds(#[trigger] self.delivered()[k])
            == member by {
            assert(self.delivered()[k] == mid.delivered()[k]);
        }
    }

    /// What is known of the bytes consumed so far stays true when a stretch
    /// of bytes on the same side of the class is consumed after them.
    pub(crate) proof fn lemma_stretch(
        &self,
        mid: &Self,
        before: &Self,
        seen: nat,
        more: nat,
        class: ByteClass,
        member: bool,
    )
        requires
            before.wf(),
            mid.wf(),
            self.wf(),
            mid.follows(before, seen),
            self.follows(mid, more),
            mid.all_in(before.consumed().len(), before.consumed().len() + seen, class, member),
            forall|k: int| 0 <= k < more ==> class.holds(#[trigger] self.window(mid)[k]) == member,
        ensures
            self.follows(before, seen + more),
            self.all_in(
                before.consumed().len(),
                before.consumed().len() + seen + more,
                class,
                member,
            ),
    {
        let start = before.consumed().len();
        self.lemma_follows_chain(mid, before, seen, more);
        self.lemma_window(mid, more);
        assert forall|k: int| start <= k < start + seen + more implies class.holds(
            #[trigger] self.delivered()[k],
        ) == member by {
            if k < start + seen {
                assert(self.delivered()[k] == mid.delivered()[k]);
            } else {
                assert(self.delivered()[k] == self.window(mid)[k - start - seen]);
            }
        }
    }

    /// What is known of a token that is being consumed stays true when one
    /// more byte of it is consumed.
    pub(crate) proof fn lemma_run_step(
        &self,
        mid: &Self,
        before: &Self,
        i: nat,
        seen: nat,
        class: ByteClass,
    )
        requires
            before.wf(),
            mid.wf(),
            self.wf(),
            mid.follows(before, seen),
            self.follows(mid, 1),
            i <= seen,
            mid.all_in(before.consumed().len(), before.consumed().len() + i, class, false),
            mid.all_in(before.consumed().len() + i, before.consumed().len() + seen, class, true),
            mid.buffered().len() > 0,
            class.holds(mid.buffered()[0]),
        ensures
            self.follows(before, seen + 1),
            self.all_in(before.consumed().len(), before.consumed().len() + i, class, false),
            self.all_in(
                before.consumed().len() + i,
                before.consumed().len() + seen + 1,
                class,
                true,
            ),
            self.delivered().subrange(
                (before.consumed().len() + i) as int,
                (before.consumed().len() + seen + 1) as int,
            ) == mid.delivered().subrange(
                (before.consumed().len() + i) as int,
                (before.consumed().len() + seen) as int,
            ).push(mid.buffered()[0]),
    {
        let start = before.consumed().len();
        self.lemma_follows_chain(mid, before, seen, 1);
        assert(mid.delivered()[(start + seen) as int] == mid.buffered()[0]);
        assert forall|k: int| start <= k < start + i implies !class.holds(
            #[trigger] self.delivered()[k],
        ) by {
            assert(self.delivered()[k] == mid.delivered()[k]);
        }
        assert forall|k: int| start + i <= k < start + seen + 1 implies class.holds(
            #[trigger] self.delivered()[k],
        ) by {
            assert(self.delivered()[k] == mid.delivered()[k]);
        }
        assert(self.delivered().subrange((start + i) as int, (start + seen + 1) as int)
            =~= mid.delivered().subrange((start + i) as int, (start + seen) as int).push(
            mid.buffered()[0],
        ));
    }

    /// What is known of the bytes of `class` that have been consumed from
    /// the place `from` on stays true when one more of them is consumed.
    pub(crate) proof fn lemma_member_step(
        &self,
        mid: &Self,
        before: &Self,
        from: nat,
        seen: nat,
        class: ByteClass,
    )
        requires
            before.wf(),
            mid.wf(),
            self.wf(),
            mid.follows(before, seen),
            self.follows(mid, 1),
            before.consumed().len() <= from <= before.consumed().len() + seen,
            mid.all_in(from, before.consumed().len() + seen, class, true),
            mid.buffered().len() > 0,
            class.holds(mid.buffered()[0]),
        ensures
            self.follows(before, seen + 1),
            self.all_in(from, before.consumed().len() + seen + 1, class, true),
            self.delivered().subrange(from as int, (before.consumed().len() + seen + 1) as int)
                == mid.delivered().subrange(
                from as int,
                (before.consumed().len() + seen) as int,
            ).push(mid.buffered()[0]),
            forall|k: int|
                0 <= k < mid.delivered().len() ==> #[trigger] self.delivered()[k]
                    == mid.delivered()[k],
    {
        let start = before.consumed().len();
        self.lemma_follows_chain(mid, before, seen, 1);
        assert(mid.delivered()[(start + seen) as int] == mid.buffered()[0]);
        assert forall|k: int| from <= k < start + seen + 1 implies class.holds(
            #[trigger] self.delivered()[k],
        ) by {
            assert(self.delivered()[k] == mid.delivered()[k]);
        }
        assert(self.delivered().subrange(from as int, (start + seen + 1) as int)
            =~= mid.delivered().subrange(from as int, (start + seen) as int).push(
            mid.buffered()[0],
        ));
    }

    /// Where a reader stands after it has skipped to the first byte of
    /// `class`.
    pub(crate) proof fn lemma_skipped(&self, before: &Self, class: ByteClass, r: Result<(), Error>)
        requires
            before.wf(),
            self.wf(),
            self.follows(before, scan_skip(self.window(before), class, self.stalled()).used),
            r == scan_skip(self.window(before), class, self.stalled()).result,
        ensures
            ({
                let i = self.consumed().len() - before.consumed().len();
                &&& i >= 0
                &&& self.follows(before, i as nat)
                &&& self.all_in(
                    before.consumed().len(),
                    (before.consumed().len() + i) as nat,
                    class,
                    false,
                )
                &&& token_start(self.window(before), class) == i
                &&& if r is Ok {
                    self.buffered().len() > 0 && class.holds(self.buffered()[0])
                } else {
                    self.buffered().len() == 0 && r == Err::<(), Error>(
                        if self.stalled() {
                            Error::IoFailure
                        } else {
                            Error::EndOfInput
                        },
                    )
                }
            }),
    {
        let w = self.window(before);
        let g = gap(w, class);
        lemma_span(w, class, false);
        self.lemma_window(before, g);
        assert forall|k: int|
            before.consumed().len() <= k < before.consumed().len() + g implies !class.holds(
            #[trigger] self.delivered()[k],
        ) by {
            assert(self.delivered()[k] == w[k - before.consumed().len()]);
        }
    }

    /// Where a reader stands after it has looked for the start of a number.
    pub(crate) proof fn lemma_signed(&self, before: &Self, r: Result<bool, Error>)
        requires
            before.wf(),
            self.wf(),
            self.follows(before, scan_sign(self.window(before), self.stalled()).used),
            r == scan_sign(self.window(before), self.stalled()).result,
        ensures
            ({
                let start = before.consumed().len();
                let i = self.consumed().len() - start;
                &&& i >= 0
                &&& self.follows(before, i as nat)
                &&& self.all_in(start, (start + i) as nat, ByteClass::Digit, false)
                &&& if r is Ok {
                    &&& self.buffered().len() > 0
                    &&& is_digit(self.buffered()[0])
                    &&& r == Ok::<bool, Error>(i > 0 && self.delivered()[start + i - 1] == MINUS)
                } else {
                    &&& self.buffered().len() == 0
                    &&& r == Err::<bool, Error>(
                        if self.stalled() {
                            Error::IoFailure
                        } else {
                            Error::EndOfInput
                        },
                    )
                }
            }),
    {
        let w = self.window(before);
        let g = number_start(w);
        lemma_span(w, ByteClass::Digit, false);
        self.lemma_window(before, g);
        assert forall|k: int|
            before.consumed().len() <= k < before.consumed().len() + g implies !is_digit(
            #[trigger] self.delivered()[k],
        ) by {
            assert(self.delivered()[k] == w[k - before.consumed().len()]);
        }
    }

    /// Where a reader stands after it has skipped to a sign or a digit from
    /// a place before which it had seen no digit.
    pub(crate) proof fn lemma_after_skip(
        &self,
        mid: &Self,
        before: &Self,
        seen: nat,
        r: Result<(), Error>,
    )
        requires
            before.wf(),
            mid.wf(),
            self.wf(),
            mid.follows(before, seen),
            mid.all_in(
                before.consumed().len(),
                before.consumed().len() + seen,
                ByteClass::Digit,
                false,
            ),
            self.follows(
                mid,
                scan_skip(self.window(mid), ByteClass::SignOrDigit, self.stalled()).used,
            ),
            r == scan_skip(self.window(mid), ByteClass::SignOrDigit, self.stalled()).result,
        ensures
            ({
                let g = self.consumed().len() - mid.consumed().len();
                &&& g >= 0
                &&& self.follows(before, (seen + g) as nat)
                &&& self.all_in(
                    before.consumed().len(),
                    (before.consumed().len() + seen + g) as nat,
                    ByteClass::Digit,
                    false,
                )
                &&& g > 0 ==> self.delivered()[before.consumed().len() + seen + g - 1] != MINUS
                &&& g == 0 && mid.buffered().len() > 0 ==> self.buffered() == mid.buffered()
                &&& if r is Ok {
                    self.buffered().len() > 0 && ByteClass::SignOrDigit.holds(self.buffered()[0])
                } else {
                    self.buffered().len() == 0 && r == Err::<(), Error>(
                        if self.stalled() {
                            Error::IoFailure
                        } else {
                            Error::EndOfInput
                        },
                    )
                }
            }),
    {
        let w = self.window(mid);
        let class = ByteClass::SignOrDigit;
        let g = gap(w, class);
        lemma_span(w, class, false);
        let used = scan_skip(w, class, self.stalled()).used;
        assert(used == g);
        self.lemma_window(mid, g);
        assert forall|k: int| 0 <= k < g implies ByteClass::Digit.holds(#[trigger] w[k])
            == false by {
            assert(!class.holds(w[k]));
        }
        self.lemma_stretch(mid, before, seen, g, ByteClass::Digit, false);
        if g > 0 {
            assert(!class.holds(w[g - 1]));
            assert(w[g - 1] == self.delivered()[mid.consumed().len() + (g - 1)]);
        }
    }

    /// Where the token begins in the window of a reader which has skipped
    /// `i` bytes outside `class` and now holds a byte of `class`.
    pub(crate) proof fn lemma_window_start(&self, before: &Self, class: ByteClass, i: nat)
        requires
            before.wf(),
            self.wf(),
            self.follows(before, i),
            self.all_in(before.consumed().len(), before.consumed().len() + i, class, false),
            self.buffered().len() > 0,
            class.holds(self.buffered()[0]),
        ensures
            self.window(before).len() == i + self.buffered().len(),
            token_start(self.window(before), class) == i,
            i > 0 ==> self.window(before)[i - 1] == self.delivered()[before.consumed().len() + i
                - 1],
    {
        let w = self.window(before);
        self.lemma_window(before, i);
        lemma_span_is(w, class, false, i);
    }

    /// Where the token begins in the window of a reader which has skipped
    /// `i` bytes outside `class` and has then consumed a byte of `class`.
    pub(crate) proof fn lemma_window_begun(&self, before: &Self, class: ByteClass, i: nat, j: nat)
        requires
            before.wf(),
            self.wf(),
            self.follows(before, j),
            i < j,
            self.all_in(before.consumed().len(), before.consumed().len() + i, class, false),
            class.holds(self.delivered()[(before.consumed().len() + i) as int]),
        ensures
            self.window(before).len() == j + self.buffered().len(),
            token_start(self.window(before), class) == i,
            self.window(before)[i as int] == self.delivered()[(before.consumed().len() + i) as int],
    {
        let w = self.window(before);
        self.lemma_window(before, j);
        lemma_span_is(w, class, false, i);
    }

    /// The token that lies in the window of a reader which has skipped
    /// `i` bytes outside `class`, then consumed bytes of `class` up to `j`,
    /// and now holds a byte outside `class` or nothing at all.
    pub(crate) proof fn lemma_window_token(&self, before: &Self, class: ByteClass, i: nat, j: nat)
        requires
            before.wf(),
            self.wf(),
            self.follows(before, j),
            i <= j,
            self.all_in(before.consumed().len(), before.consumed().len() + i, class, false),
            self.all_in(before.consumed().len() + i, before.consumed().len() + j, class, true),
            self.buffered().len() > 0 ==> !class.holds(self.buffered()[0]),
            i < j || self.buffered().len() == 0,
        ensures
            self.window(before).len() == j + self.buffered().len(),
            token_start(self.window(before), class) == i,
            token_end(self.window(before), class) == j,
            self.window(before).subrange(i as int, j as int) == self.delivered().subrange(
                (before.consumed().len() + i) as int,
                (before.consumed().len() + j) as int,
            ),
    {
        let w = self.window(before);
        let start = before.consumed().len();
        self.lemma_window(before, j);
        lemma_token_is(w, class, i, j);
        assert(w.subrange(i as int, j as int) =~= self.delivered().subrange(
            (start + i) as int,
            (start + j) as int,
        ));
    }

    /// The decimal number that lies in the window of a reader which has
    /// skipped `i` bytes, consumed digits up to `j`, a point, and digits up
    /// to `seen`, and now holds a byte that is no digit or nothing at all.
    pub(crate) proof fn lemma_window_decimal(&self, before: &Self, i: nat, j: nat, seen: nat)
        requires
            before.wf(),
            self.wf(),
            self.follows(before, seen),
            i < j < seen,
            self.all_in(
                before.consumed().len(),
                before.consumed().len() + i,
                ByteClass::Digit,
                false,
            ),
            self.all_in(
                before.consumed().len() + i,
                before.consumed().len() + j,
                ByteClass::Digit,
                true,
            ),
            self.delivered()[(before.consumed().len() + j) as int] == POINT,
            self.all_in(
                before.consumed().len() + j + 1,
                before.consumed().len() + seen,
                ByteClass::Digit,
                true,
            ),
            self.buffered().len() > 0 ==> !is_digit(self.buffered()[0]),
        ensures
            self.window(before).len() == seen + self.buffered().len(),
            number_start(self.window(before)) == i,
            number_end(self.window(before)) == j,
            self.window(before)[j as int] == POINT,
            decimal_end(self.window(before)) == seen,
            self.window(before).subrange(i as int, j as int) == self.delivered().subrange(
                (before.consumed().len() + i) as int,
                (before.consumed().len() + j) as int,
            ),
            self.window(before).subrange((j + 1) as int, seen as int)
                == self.delivered().subrange(
                (before.consumed().len() + j + 1) as int,
                (before.consumed().len() + seen) as int,
            ),
            i > 0 ==> self.window(before)[i - 1] == self.delivered()[before.consumed().len() + i
                - 1],
    {
        let w = self.window(before);
        let start = before.consumed().len();
        self.lemma_window(before, seen);
        lemma_token_is(w, ByteClass::Digit, i, j);
        let rest = w.skip((j + 1) as int);
        assert forall|k: int| 0 <= k < seen - j - 1 implies is_digit(#[trigger] rest[k]) by {
            assert(rest[k] == w[j + 1 + k]);
        }
        if seen < w.len() {
            assert(rest[seen - j - 1] == w[seen as int]);
        }
        lemma_span_is(rest, ByteClass::Digit, true, (seen - j - 1) as nat);
        assert(w.subrange(i as int, j as int) =~= self.delivered().subrange(
            (start + i) as int,
            (start + j) as int,
        ));
        assert(w.subrange((j + 1) as int, seen as int) =~= self.delivered().subrange(
            (start + j + 1) as int,
            (start + seen) as int,
        ));
    }

    /// How the start of a number and the digits read behind it make up the
    /// number in the window of the whole read.
    pub(crate) proof fn lemma_sign_then_digits(&self, mid: &Self, before: &Self)
        requires
            before.wf(),
            mid.wf(),
            self.wf(),
            mid.follows(before, scan_sign(mid.window(before), mid.stalled()).used),
            scan_sign(mid.window(before), mid.stalled()).result is Ok,
            mid.buffered().len() > 0,
            self.follows(mid, scan_natural(self.window(mid), self.stalled()).used),
        ensures
            self.follows(before, number_end(self.window(before))),
            self.window(before).len() == number_start(self.window(before)) + self.window(
                mid,
            ).len(),
            number_start(self.window(before)) == number_start(mid.window(before)),
            number_start(self.window(before)) < self.window(before).len(),
            number_start(self.window(mid)) == 0,
            number_end(self.window(before)) == number_start(self.window(before)) + number_end(
                self.window(mid),
            ),
            negated(self.window(before)) == negated(mid.window(before)),
            magnitude(self.window(before)) == magnitude(self.window(mid)),
            scan_natural(self.window(mid), self.stalled()).used == number_end(self.window(mid)),
    {
        let wm = mid.window(before);
        let w = self.window(before);
        let ws = self.window(mid);
        let i = number_start(wm);
        let class = ByteClass::Digit;
        lemma_token(wm, class);
        lemma_token(ws, class);
        mid.lemma_window(before, i);
        self.lemma_follows_chain(mid, before, i, scan_natural(ws, self.stalled()).used);
        let fresh = self.delivered().skip(mid.delivered().len() as int);
        assert(mid.delivered() =~= self.delivered().subrange(0, mid.delivered().len() as int));
        assert(w =~= wm + fresh);
        lemma_span_decided(wm, fresh, class, false);
        assert(ws =~= w.skip(i as int));
        assert(ws.skip(0) =~= ws);
        assert(ws[0] == w[i as int]);
        assert(w[i as int] == wm[i as int]);
        lemma_span_is(ws, class, false, 0);
        assert(w.subrange(i as int, number_end(w) as int) =~= ws.subrange(
            0,
            number_end(ws) as int,
        ));
        if i > 0 {
            assert(w[i - 1] == wm[i - 1]);
        }
    }

    /// A reader that has consumed what the scan of a natural number uses has read
    /// accordingly: the buffered bytes decide where they can, and what was
    /// foreseen has come.
    pub(crate) proof fn lemma_settled_natural(&self, before: &Self)
        requires
            before.wf(),
            self.wf(),
            self.follows(before, scan_natural(self.window(before), self.stalled()).used),
            before.foreseen() ==> self.drained(),
        ensures
            self.reads(
                before,
                scan_natural(self.window(before), self.stalled()),
                scan_natural(before.buffered(), false),
                scan_natural(before.expected(), before.breaks()),
            ),
    {
        self.lemma_fresh(before);
        if scan_natural(before.buffered(), false).used < before.buffered().len() {
            lemma_natural_decided(
                before.buffered(),
                self.delivered().skip(before.delivered().len() as int),
                false,
                self.stalled(),
            );
        }
        if before.foreseen() {
            let w = self.window(before);
            self.lemma_window(before, scan_natural(w, self.stalled()).used);
            self.lemma_wf();
            if scan_natural(w, self.stalled()).used < w.len() {
                lemma_natural_decided(w, self.to_come(), self.stalled(), before.breaks());
            } else {
                assert(w + self.to_come() =~= w);
            }
        }
    }

    /// A reader that has consumed what the scan of an integer uses has read
    /// accordingly: the buffered bytes decide where they can, and what was
    /// foreseen has come.
    pub(crate) proof fn lemma_settled_integer(&self, before: &Self)
        requires
            before.wf(),
            self.wf(),
            self.follows(before, scan_integer(self.window(before), self.stalled()).used),
            before.foreseen() ==> self.drained(),
        ensures
            self.reads(
                before,
                scan_integer(self.window(before), self.stalled()),
                scan_integer(before.buffered(), false),
                scan_integer(before.expected(), before.breaks()),
            ),
    {
        self.lemma_fresh(before);
        if scan_integer(before.buffered(), false).used < before.buffered().len() {
            lemma_integer_decided(
                before.buffered(),
                self.delivered().skip(before.delivered().len() as int),
                false,
                self.stalled(),
            );
        }
        if before.foreseen() {
            let w = self.window(before);
            self.lemma_window(before, scan_integer(w, self.stalled()).used);
            self.lemma_wf();
            if scan_integer(w, self.stalled()).used < w.len() {
                lemma_integer_decided(w, self.to_come(), self.stalled(), before.breaks());
            } else {
                assert(w + self.to_come() =~= w);
            }
        }
    }

    /// A reader that has consumed what the scan of a decimal number uses has read
    /// accordingly: the buffered bytes decide where they can, and what was
    /// foreseen has come.
    pub(crate) proof fn lemma_settled_decimal(&self, before: &Self)
        requires
            before.wf(),
            self.wf(),
            self.follows(before, scan_decimal(self.window(before), self.stalled()).used),
            before.foreseen() ==> self.drained(),
        ensures
            self.reads(
                before,
                scan_decimal(self.window(before), self.stalled()),
                scan_decimal(before.buffered(), false),
                scan_decimal(before.expected(), before.breaks()),
            ),
    {
        self.lemma_fresh(before);
        if scan_decimal(before.buffered(), false).used < before.buffered().len() {
            lemma_decimal_decided(
                before.buffered(),
                self.delivered().skip(before.delivered().len() as int),
                false,
                self.stalled(),
            );
        }
        if before.foreseen() {
            let w = self.window(before);
            self.lemma_window(before, scan_decimal(w, self.stalled()).used);
            self.lemma_wf();
            if scan_decimal(w, self.stalled()).used < w.len() {
                lemma_decimal_decided(w, self.to_come(), self.stalled(), before.breaks());
            } else {
                assert(w + self.to_come() =~= w);
            }
        }
    }

    /// A reader that has consumed what the scan of a word uses has read
    /// accordingly: the buffered bytes decide where they can, and what was
    /// foreseen has come.
    pub(crate) proof fn lemma_settled_word(&self, before: &Self)
        requires
            before.wf(),
            self.wf(),
            self.follows(before, scan_word(self.window(before), self.stalled()).used),
            before.foreseen() ==> self.drained(),
        ensures
            self.reads(
                before,
                scan_word(self.window(before), self.stalled()),
                scan_word(before.buffered(), false),
                scan_word(before.expected(), before.breaks()),
            ),
    {
        self.lemma_fresh(before);
        if scan_word(before.buffered(), false).used < before.buffered().len() {
            lemma_word_decided(
                before.buffered(),
                self.delivered().skip(before.delivered().len() as int),
                false,
                self.stalled(),
            );
        }
        if before.foreseen() {
            let w = self.window(before);
            self.lemma_window(before, scan_word(w, self.stalled()).used);
            self.lemma_wf();
            if scan_word(w, self.stalled()).used < w.len() {
                lemma_word_decided(w, self.to_come(), self.stalled(), before.breaks());
            } else {
                assert(w + self.to_come() =~= w);
            }
        }
    }

    /// A reader that has consumed what the scan of a character uses has read
    /// accordingly: the buffered bytes decide where they can, and what was
    /// foreseen has come.
    pub(crate) proof fn lemma_settled_char(&self, before: &Self)
        requires
            before.wf(),
            self.wf(),
            self.follows(before, scan_char(self.window(before), self.stalled()).used),
            before.foreseen() ==> self.drained(),
        ensures
            self.reads(
                before,
                scan_char(self.window(before), self.stalled()),
                scan_char(before.buffered(), false),
                scan_char(before.expected(), before.breaks()),
            ),
    {
        self.lemma_fresh(before);
        if scan_char(before.buffered(), false).used < before.buffered().len() {
            lemma_char_decided(
                before.buffered(),
                self.delivered().skip(before.delivered().len() as int),
                false,
                self.stalled(),
            );
        }
        if before.foreseen() {
            let w = self.window(before);
            self.lemma_window(before, scan_char(w, self.stalled()).used);
            self.lemma_wf();
            if scan_char(w, self.stalled()).used < w.len() {
                lemma_char_decided(w, self.to_come(), self.stalled(), before.breaks());
            } else {
                assert(w + self.to_come() =~= w);
            }
        }
    }

    /// A reader that has consumed what the scan of whether a byte is left uses has read
    /// accordingly: the buffered bytes decide where they can, and what was
    /// foreseen has come.
    pub(crate) proof fn lemma_settled_more(&self, before: &Self)
        requires
            before.wf(),
            self.wf(),
            self.follows(before, scan_more(self.window(before), self.stalled()).used),
            before.foreseen() ==> self.drained(),
        ensures
            self.reads(
                before,
                scan_more(self.window(before), self.stalled()),
                scan_more(before.buffered(), false),
                scan_more(before.expected(), before.breaks()),
            ),
    {
        self.lemma_fresh(before);
        if scan_more(before.buffered(), false).used < before.buffered().len() {
            lemma_more_decided(
                before.buffered(),
                self.delivered().skip(before.delivered().len() as int),
                false,
                self.stalled(),
            );
        }
        if before.foreseen() {
            let w = self.window(before);
            self.lemma_window(before, scan_more(w, self.stalled()).used);
            self.lemma_wf();
            if scan_more(w, self.stalled()).used < w.len() {
                lemma_more_decided(w, self.to_come(), self.stalled(), before.breaks());
            } else {
                assert(w + self.to_come() =~= w);
            }
        }
    }

    /// A reader that has consumed what the scan of a line uses has read
    /// accordingly: the buffered bytes decide where they can, and what was
    /// foreseen has come.
    pub(crate) proof fn lemma_settled_line(&self, before: &Self)
        requires
            before.wf(),
            self.wf(),
            self.follows(before, scan_line(self.window(before), self.stalled()).used),
            before.foreseen() ==> self.drained(),
        ensures
            self.reads(
                before,
                scan_line(self.window(before), self.stalled()),
                scan_line(before.buffered(), false),
                scan_line(before.expected(), before.breaks()),
            ),
    {
        self.lemma_fresh(before);
        if scan_line(before.buffered(), false).used < before.buffered().len() {
            lemma_line_decided(
                before.buffered(),
                self.delivered().skip(before.delivered().len() as int),
                false,
                self.stalled(),
            );
        }
        if before.foreseen() {
            let w = self.window(before);
            self.lemma_window(before, scan_line(w, self.stalled()).used);
            self.lemma_wf();
            if scan_line(w, self.stalled()).used < w.len() {
                lemma_line_decided(w, self.to_come(), self.stalled(), before.breaks());
            } else {
                assert(w + self.to_come() =~= w);
            }
        }
    }
}

} // verus!
