use rust_decimal::Decimal;
use vstd::prelude::*;

verus! {

#[verifier::external_type_specification]
#[verifier::external_body]
pub struct ExDecimal(rust_decimal::Decimal);

/// Whether the bytes `b` are UTF-8 text that reads as a decimal number.
pub uninterp spec fn is_decimal(b: Seq<u8>) -> bool;

/// How the decimal number written `a` compares with the one written `b`.
pub uninterp spec fn decimal_order(a: Seq<u8>, b: Seq<u8>) -> core::cmp::Ordering;

/// The canonical text of the decimal number written `b`.
pub uninterp spec fn decimal_text(b: Seq<u8>) -> Seq<u8>;

/// Relies on `Decimal`'s `FromStr`: whether the text reads as a decimal
/// depends on the text alone.
#[verifier::external_body]
fn parse_decimal(b: &[u8]) -> (r: Option<Decimal>)
    ensures
        r is Some == is_decimal(b@),
{
    std::str::from_utf8(b).ok().and_then(|s| s.parse::<Decimal>().ok())
}

/// A decimal number together with the text it was read from.
pub struct Dec {
    value: Decimal,
    text: Ghost<Seq<u8>>,
}

impl Dec {
    /// The text the number was read from.
    pub closed spec fn text(&self) -> Seq<u8> {
        self.text@
    }

    /// Reads `b` as a decimal number.
    pub fn parse(b: &[u8]) -> (r: Option<Dec>)
        ensures
            r is Some == is_decimal(b@),
            r is Some ==> r->0.text() == b@,
    {
        match parse_decimal(b) {
            Some(value) => Some(Dec { value, text: Ghost(b@) }),
            None => None,
        }
    }
}

/// Relies on `Decimal`'s `Ord`: the numeric order of the two values, which
/// `Dec::parse` read from their texts.
#[verifier::external_body]
pub(crate) fn cmp_decimal(a: &Dec, b: &Dec) -> (r: core::cmp::Ordering)
    ensures
        r == decimal_order(a.text(), b.text()),
{
    a.value.cmp(&b.value)
}

/// Relies on `Decimal`'s `Display`: the text of the value that `Dec::parse`
/// read.
#[verifier::external_body]
pub(crate) fn render_decimal(a: &Dec) -> (r: Vec<u8>)
    ensures
        r@ == decimal_text(a.text()),
{
    a.value.to_string().into_bytes()
}

/// Whether `b` reads as a decimal number.
pub fn is_decimal_bytes(b: &[u8]) -> (r: bool)
    ensures
        r == is_decimal(b@),
{
    parse_decimal(b).is_some()
}

} // verus!
