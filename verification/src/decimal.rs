//! A decimal number as it was written: sign, digits and the place of the
//! point.
use vstd::prelude::*;

verus! {

/// A decimal number read from text.  It stands for the number that `digits`
/// denote in base ten, divided by ten to the power of `scale`, negated if
/// `negative` is set.  Nothing is rounded and no digit is dropped.
#[derive(Clone, Debug, PartialEq, Eq)]
pub struct Decimal {
    /// Whether a `-` stood directly before the first digit.
    pub negative: bool,
    /// The value of every digit read, those before the point first.
    pub digits: Vec<u8>,
    /// How many of the digits stood behind the point.
    pub scale: usize,
}

/// A `Decimal` as a mathematical value.
pub struct DecimalView {
    pub negative: bool,
    pub digits: Seq<u8>,
    pub scale: nat,
}

impl View for Decimal {
    type V = DecimalView;

    open spec fn view(&self) -> DecimalView {
        DecimalView { negative: self.negative, digits: self.digits@, scale: self.scale as nat }
    }
}

} // verus!
