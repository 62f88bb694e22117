//! Fixed-point backing values and their decimal text.
use vstd::prelude::*;

verus! {

/// The number of decimal places in which backing values are expressed.
pub const BACKING_DECIMALS: u8 = 18;

/// The largest decimal-place count that the formatter accepts.
pub const MAX_UNITS: u8 = 77;

/// An unsigned 256-bit fixed-point value, as four little-endian 64-bit limbs.
#[derive(Clone, Copy, Debug, PartialEq, Eq)]
pub struct Backing {
    pub limbs: [u64; 4],
}

pub open spec fn limb_base() -> nat {
    0x1_0000_0000_0000_0000nat
}

impl Backing {
    /// The number that the limbs stand for.
    pub open spec fn value(self) -> nat {
        self.limbs@[0] as nat + limb_base() * (self.limbs@[1] as nat + limb_base() * (
        self.limbs@[2] as nat + limb_base() * self.limbs@[3] as nat))
    }

    /// A backing value that fits in one limb.
    pub fn from_u64(v: u64) -> (r: Backing)
        ensures
            r.value() == v,
    {
        Backing { limbs: [v, 0, 0, 0] }
    }

    /// A backing value from its four little-endian limbs.
    pub fn from_limbs(limbs: [u64; 4]) -> (r: Backing)
        ensures
            r.limbs == limbs,
    {
        Backing { limbs }
    }
}

pub open spec fn pow10(n: nat) -> nat
    decreases n,
{
    if n == 0 {
        1
    } else {
        10 * pow10((n - 1) as nat)
    }
}

pub open spec fn digit_char(d: nat) -> char {
    ((d % 10) + 48) as char
}

/// Decimal digits of `n`, most significant first, with no leading zero
/// (zero itself is a single `0`).
pub open spec fn decimal_digits(n: nat) -> Seq<char>
    decreases n,
{
    if n < 10 {
        seq![digit_char(n)]
    } else {
        decimal_digits(n / 10).push(digit_char(n % 10))
    }
}

/// `s` with zeros put in front until it is at least `width` long.
pub open spec fn zero_padded(s: Seq<char>, width: nat) -> Seq<char> {
    if s.len() >= width {
        s
    } else {
        Seq::new((width - s.len()) as nat, |i: int| '0') + s
    }
}

/// The text of `v / 10^units`: the integer part, a point, and the remainder
/// written with exactly `units` digits (or a single `0` when `units` is zero).
pub open spec fn units_text(v: nat, units: nat) -> Seq<char> {
    decimal_digits(v / pow10(units)) + seq!['.'] + zero_padded(
        decimal_digits(v % pow10(units)),
        units,
    )
}

#[verifier::external_type_specification]
#[verifier::external_body]
pub struct ExUnitsError(alloy_primitives::utils::UnitsError);

/// Relies on `alloy_primitives::utils::format_units` on a `U256`: a unit count
/// above 77 is refused; otherwise the result is the integer part of
/// `value / 10^units`, a point, and the remainder padded with zeros to
/// `units` digits, all in base ten.
#[verifier::external_body]
fn format_units(value: &Backing, units: u8) -> (r: Result<String, alloy_primitives::utils::UnitsError>)
    ensures
        r is Ok <==> units <= MAX_UNITS,
        r matches Ok(s) ==> s@ == units_text(value.value(), units as nat),
{
    alloy_primitives::utils::format_units(alloy_primitives::U256::from_limbs(value.limbs), units)
}

/// Why a fixed-point value could not be written as decimal text.
#[derive(Clone, Copy, Debug, PartialEq, Eq)]
pub enum UnitsTextError {
    /// The decimal-place count exceeds `MAX_UNITS`.
    InvalidUnits,
}

impl Backing {
    /// The decimal text of this value read with `units` decimal places.
    pub fn units_text(&self, units: u8) -> (r: Result<String, UnitsTextError>)
        ensures
            r is Ok <==> units <= MAX_UNITS,
            r matches Ok(s) ==> s@ == units_text(self.value(), units as nat),
            r matches Err(e) ==> e == UnitsTextError::InvalidUnits,
    {
        match format_units(self, units) {
            Ok(s) => Ok(s),
            Err(_) => Err(UnitsTextError::InvalidUnits),
        }
    }
}

} // verus!
