//! The number type of the library and its conversions and comparisons.
//!
//! A [`LinAlgNumber`] carries the bit pattern of a 64-bit or of a 32-bit
//! floating-point number, or is the explicit [`LinAlgNumber::NaN`]. Its
//! constructors never store a pattern that is no number. Equality keeps to
//! one width and never holds of what is no number; the order is total and
//! puts what is no number last.
//!
//! The contracts speak of a number through its [`LinAlgNumber::value`], an
//! integer count of units of `2^-1074`, in which every finite number of
//! either width is whole.
use crate::binary32;
use crate::binary64;
use core::cmp::Ordering;
use vstd::prelude::*;
use vstd::std_specs::cmp::PartialEqSpec;
use vstd::std_specs::convert::FromSpec;

verus! {

/// The largest magnitude of an integer that a 64-bit float is sure to hold
/// exactly, `2^53 - 1`.
pub const MAX_EXACT_INT: i64 = 9007199254740991;

/// Whether a 64-bit float holds the integer exactly: its magnitude is at most
/// [`MAX_EXACT_INT`]. The bound is the same on both sides of zero, since the
/// format keeps the sign apart from the magnitude.
pub fn perfectly_representable_as_f64(some_integer: &i64) -> (r: bool)
    ensures
        r == (-MAX_EXACT_INT <= *some_integer <= MAX_EXACT_INT),
{
    -MAX_EXACT_INT <= *some_integer && *some_integer <= MAX_EXACT_INT
}

/// A number of the library: a 64-bit float, a 32-bit float, or the explicit
/// statement that there is no number. The float variants hold bit patterns.
#[derive(Clone, Debug)]
pub enum LinAlgNumber {
    /// The pattern of a 64-bit float that is a number.
    Float64(u64),
    /// The pattern of a 32-bit float that is a number.
    Float32(u32),
    /// No number: the result of an invalid operation.
    NaN,
}

/// What a conversion from a 64-bit integer gives: the number, or the refusal
/// to round an integer that a 64-bit float cannot hold exactly.
#[derive(Clone, Debug, PartialEq, Eq, PartialOrd)]
pub enum SafeLinAlgNumber {
    /// The integer as a [`LinAlgNumber::Float64`].
    Safe(LinAlgNumber),
    /// The reason why no number was made.
    SafeConversionIsImpossible(String),
}

/// A 32-bit integer as a mathematical integer.
pub open spec fn int_of_i32(v: i32) -> int {
    v as int
}

/// A 64-bit integer as a mathematical integer.
pub open spec fn int_of_i64(v: i64) -> int {
    v as int
}

/// The words of a refusal to convert.
pub open spec fn refusal() -> Seq<char> {
    "This integer is too big to be represented as f64 without precision loss"@
}

impl LinAlgNumber {
    /// The invariant of the type: a float variant holds the pattern of a
    /// number. Every constructor of this library establishes it.
    pub open spec fn wf(&self) -> bool {
        match self {
            LinAlgNumber::Float64(bits) => !binary64::not_a_number(*bits),
            LinAlgNumber::Float32(bits) => !binary32::not_a_number(*bits),
            LinAlgNumber::NaN => true,
        }
    }

    /// Whether this is a number: a float variant that keeps the invariant.
    /// A pattern that is no number, stored by hand in a float variant, counts
    /// in every comparison as [`LinAlgNumber::NaN`] does.
    pub open spec fn is_number(&self) -> bool {
        match self {
            LinAlgNumber::Float64(bits) => !binary64::not_a_number(*bits),
            LinAlgNumber::Float32(bits) => !binary32::not_a_number(*bits),
            LinAlgNumber::NaN => false,
        }
    }

    /// Whether the sign digit of the pattern is set.
    pub open spec fn negative(&self) -> bool {
        match self {
            LinAlgNumber::Float64(bits) => binary64::negative(*bits),
            LinAlgNumber::Float32(bits) => binary32::negative(*bits),
            LinAlgNumber::NaN => false,
        }
    }

    /// The absolute value of a number in units of `2^-1074`, the same unit
    /// for both widths; an infinity counts as `2^2098`.
    pub open spec fn magnitude(&self) -> nat {
        match self {
            LinAlgNumber::Float64(bits) => binary64::magnitude(*bits),
            LinAlgNumber::Float32(bits) => binary32::widened_magnitude(*bits),
            LinAlgNumber::NaN => 0,
        }
    }

    /// The value of a number in units of `2^-1074`.
    pub open spec fn value(&self) -> int {
        if self.negative() {
            -(self.magnitude() as int)
        } else {
            self.magnitude() as int
        }
    }

    /// The value rounded toward zero to a whole number, in units of `2^-1074`.
    pub open spec fn truncated(&self) -> int {
        let whole = (self.magnitude() / binary64::one()) * binary64::one();
        if self.negative() {
            -(whole as int)
        } else {
            whole as int
        }
    }

    /// Whether the number is a whole number within the relative tolerance of
    /// its width: `10^-12` for 64 bits, `10^-6` for 32 bits, each as its own
    /// format holds it. The fractional part must be smaller than the
    /// magnitude times the tolerance, so zero is none, and neither is an
    /// infinity or what is no number.
    pub open spec fn basically_integer(&self) -> bool {
        match self {
            LinAlgNumber::Float64(bits) => binary64::basically_integer(*bits),
            LinAlgNumber::Float32(bits) => binary32::basically_integer(*bits),
            LinAlgNumber::NaN => false,
        }
    }

    /// Whether the number, taken as a whole number, is the integer `other`:
    /// it is a whole number within its tolerance, and rounded toward zero it
    /// is exactly `other`.
    pub open spec fn equals_integer(&self, other: int) -> bool {
        self.basically_integer() && self.truncated() == other * binary64::one()
    }

    /// The total order of the type. Numbers are ordered by value, whatever
    /// their widths; what is no number comes after every number, and is equal
    /// in rank to whatever else is no number.
    pub open spec fn total_order(&self, other: &LinAlgNumber) -> Ordering {
        if self.is_number() && other.is_number() {
            binary64::order_of(self.value(), other.value())
        } else if self.is_number() {
            Ordering::Less
        } else if other.is_number() {
            Ordering::Greater
        } else {
            Ordering::Equal
        }
    }

    /// How the number stands to a plain float or integer of the value
    /// `other`, in units of `2^-1074`, where `comparable` says that the other
    /// side is a number. There is no relation where either side is none.
    pub open spec fn order_against(&self, comparable: bool, other: int) -> Option<Ordering> {
        if self.is_number() && comparable {
            Some(binary64::order_of(self.value(), other))
        } else {
            None
        }
    }

    /// The number with the given 64-bit pattern, or [`LinAlgNumber::NaN`] for
    /// a pattern that is no number. Infinities pass unchanged.
    pub fn from_f64_bits(bits: u64) -> (r: LinAlgNumber)
        ensures
            r == (if binary64::not_a_number(bits) {
                LinAlgNumber::NaN
            } else {
                LinAlgNumber::Float64(bits)
            }),
            r is NaN == binary64::not_a_number(bits),
            r.wf(),
    {
        if !binary64::is_nan(bits) {
            LinAlgNumber::Float64(bits)
        } else {
            LinAlgNumber::NaN
        }
    }

    /// The number with the given 32-bit pattern, or [`LinAlgNumber::NaN`] for
    /// a pattern that is no number. Infinities pass unchanged.
    pub fn from_f32_bits(bits: u32) -> (r: LinAlgNumber)
        ensures
            r == (if binary32::not_a_number(bits) {
                LinAlgNumber::NaN
            } else {
                LinAlgNumber::Float32(bits)
            }),
            r is NaN == binary32::not_a_number(bits),
            r.wf(),
    {
        if !binary32::is_nan(bits) {
            LinAlgNumber::Float32(bits)
        } else {
            LinAlgNumber::NaN
        }
    }

    /// The pattern of the number in the 64-bit format, where there is a
    /// number: a 32-bit float is widened, which changes no value.
    pub fn to_f64_bits(&self) -> (r: Option<u64>)
        ensures
            r is Some == self.is_number(),
            r matches Some(bits) ==> {
                &&& !binary64::not_a_number(bits)
                &&& binary64::value(bits) == self.value()
                &&& binary64::magnitude(bits) == self.magnitude()
                &&& binary64::negative(bits) == self.negative()
            },
    {
        match self {
            LinAlgNumber::Float64(bits) => {
                if binary64::is_nan(*bits) {
                    None
                } else {
                    Some(*bits)
                }
            },
            LinAlgNumber::Float32(bits) => {
                if binary32::is_nan(*bits) {
                    None
                } else {
                    Some(binary32::promote(*bits))
                }
            },
            LinAlgNumber::NaN => None,
        }
    }

    /// Whether the number is a whole number within the tolerance of its
    /// width; see [`LinAlgNumber::basically_integer`].
    pub fn is_basically_an_integer(&self) -> (r: bool)
        ensures
            r == self.basically_integer(),
    {
        match self {
            LinAlgNumber::Float64(bits) => binary64::is_basically_an_integer(*bits),
            LinAlgNumber::Float32(bits) => binary32::is_basically_an_integer(*bits),
            LinAlgNumber::NaN => false,
        }
    }

    /// Whether this is the variant [`LinAlgNumber::NaN`].
    pub fn is_nan(&self) -> (r: bool)
        ensures
            r == (self is NaN),
            self.wf() ==> r == !self.is_number(),
    {
        match self {
            LinAlgNumber::NaN => true,
            _ => false,
        }
    }

    /// Whether the number equals the 64-bit float of the given pattern, by
    /// value: a 32-bit number is widened first. Nothing equals a pattern that
    /// is no number, and what is no number equals no pattern.
    pub fn eq_f64_bits(&self, other: u64) -> (r: bool)
        ensures
            r == (self.is_number() && !binary64::not_a_number(other) && self.value()
                == binary64::value(other)),
    {
        match self.to_f64_bits() {
            Some(bits) => binary64::equal(bits, other),
            None => false,
        }
    }

    /// Whether the number equals the 32-bit float of the given pattern, by
    /// value: both sides are compared as 64-bit floats.
    pub fn eq_f32_bits(&self, other: u32) -> (r: bool)
        ensures
            r == (self.is_number() && !binary32::not_a_number(other) && self.value()
                == binary32::value(other)),
    {
        match self.to_f64_bits() {
            Some(bits) => {
                if binary32::is_nan(other) {
                    false
                } else {
                    binary64::equal(bits, binary32::promote(other))
                }
            },
            None => false,
        }
    }

    /// Decides [`LinAlgNumber::equals_integer`] for an integer that a 64-bit
    /// float holds exactly.
    fn eq_exact_integer(&self, other: i64) -> (r: bool)
        requires
            -MAX_EXACT_INT <= other <= MAX_EXACT_INT,
        ensures
            r == self.equals_integer(other as int),
    {
        if self.is_basically_an_integer() {
            match self.to_f64_bits() {
                Some(bits) => binary64::equal(
                    binary64::truncate(bits),
                    binary64::from_integer(other),
                ),
                None => false,
            }
        } else {
            false
        }
    }

    /// Compares in the total order of the type: by value, and what is no
    /// number last.
    pub fn cmp(&self, other: &LinAlgNumber) -> (r: Ordering)
        ensures
            r == self.total_order(other),
    {
        match (self.to_f64_bits(), other.to_f64_bits()) {
            (Some(a), Some(b)) => {
                match binary64::compare(a, b) {
                    Some(o) => o,
                    None => Ordering::Equal,
                }
            },
            (Some(_), None) => Ordering::Less,
            (None, Some(_)) => Ordering::Greater,
            (None, None) => Ordering::Equal,
        }
    }

    /// How the number stands to the 64-bit float of the given pattern; `None`
    /// where either is no number.
    pub fn partial_cmp_f64_bits(&self, other: u64) -> (r: Option<Ordering>)
        ensures
            r == self.order_against(!binary64::not_a_number(other), binary64::value(other)),
    {
        match self.to_f64_bits() {
            Some(bits) => binary64::compare(bits, other),
            None => None,
        }
    }

    /// How the number stands to the 32-bit float of the given pattern, both
    /// taken as 64-bit floats; `None` where either is no number.
    pub fn partial_cmp_f32_bits(&self, other: u32) -> (r: Option<Ordering>)
        ensures
            r == self.order_against(!binary32::not_a_number(other), binary32::value(other)),
    {
        match self.to_f64_bits() {
            Some(bits) => {
                if binary32::is_nan(other) {
                    None
                } else {
                    binary64::compare(bits, binary32::promote(other))
                }
            },
            None => None,
        }
    }
}

impl From<i32> for LinAlgNumber {
    /// The integer as a 64-bit float. Every 32-bit integer is held exactly.
    fn from(value: i32) -> (r: LinAlgNumber)
        ensures
            r.wf(),
            r.is_number(),
            r.value() == value * binary64::one(),
    {
        LinAlgNumber::Float64(binary64::from_integer(i64::from(value)))
    }
}

impl vstd::std_specs::convert::FromSpecImpl<i32> for LinAlgNumber {
    open spec fn obeys_from_spec() -> bool {
        true
    }

    open spec fn from_spec(value: i32) -> LinAlgNumber {
        LinAlgNumber::Float64(binary64::nearest_to_integer(int_of_i32(value)))
    }
}

impl From<i64> for SafeLinAlgNumber {
    /// The integer as a 64-bit float where its magnitude is at most
    /// [`MAX_EXACT_INT`], so that the float is exactly the integer; beyond
    /// that a refusal with its reason, and no number.
    fn from(value: i64) -> (r: SafeLinAlgNumber)
        ensures
            -MAX_EXACT_INT <= value <= MAX_EXACT_INT ==> {
                &&& r matches SafeLinAlgNumber::Safe(number)
                &&& number == LinAlgNumber::Float64(
                    binary64::nearest_to_integer(int_of_i64(value)),
                )
                &&& number.wf()
                &&& number.value() == value * binary64::one()
            },
            !(-MAX_EXACT_INT <= value <= MAX_EXACT_INT) ==> {
                &&& r matches SafeLinAlgNumber::SafeConversionIsImpossible(reason)
                &&& reason@ == refusal()
            },
    {
        if perfectly_representable_as_f64(&value) {
            SafeLinAlgNumber::Safe(LinAlgNumber::Float64(binary64::from_integer(value)))
        } else {
            let reason = "This integer is too big to be represented as f64 without precision loss";
            SafeLinAlgNumber::SafeConversionIsImpossible(reason.to_owned())
        }
    }
}

impl vstd::std_specs::convert::FromSpecImpl<i64> for SafeLinAlgNumber {
    /// A refusal holds a text. Contracts can say which characters a text
    /// has, but not which text it is, so no function of the integer alone
    /// names the result: what `from` returns is stated on `from`.
    open spec fn obeys_from_spec() -> bool {
        false
    }

    open spec fn from_spec(value: i64) -> SafeLinAlgNumber {
        if -MAX_EXACT_INT <= value <= MAX_EXACT_INT {
            SafeLinAlgNumber::Safe(
                LinAlgNumber::Float64(binary64::nearest_to_integer(int_of_i64(value))),
            )
        } else {
            SafeLinAlgNumber::SafeConversionIsImpossible(arbitrary())
        }
    }
}

impl PartialEq for LinAlgNumber {
    /// Equality of two numbers of the same width. Numbers of different widths
    /// are never equal, whatever their values, and what is no number equals
    /// nothing, itself included.
    fn eq(&self, other: &Self) -> (r: bool) {
        match (self, other) {
            (LinAlgNumber::Float64(a), LinAlgNumber::Float64(b)) => binary64::equal(*a, *b),
            (LinAlgNumber::Float32(a), LinAlgNumber::Float32(b)) => {
                if binary32::is_nan(*a) || binary32::is_nan(*b) {
                    false
                } else {
                    binary64::equal(binary32::promote(*a), binary32::promote(*b))
                }
            },
            (_, _) => false,
        }
    }
}

impl vstd::std_specs::cmp::PartialEqSpecImpl for LinAlgNumber {
    open spec fn obeys_eq_spec() -> bool {
        true
    }

    open spec fn eq_spec(&self, other: &LinAlgNumber) -> bool {
        &&& self.is_number()
        &&& other.is_number()
        &&& (self is Float64) == (other is Float64)
        &&& self.value() == other.value()
    }
}

impl Eq for LinAlgNumber {

}

impl PartialEq<i32> for LinAlgNumber {
    /// Whether the number is a whole number within its tolerance and, rounded
    /// toward zero, is `other`.
    fn eq(&self, other: &i32) -> (r: bool) {
        self.eq_exact_integer(i64::from(*other))
    }
}

impl vstd::std_specs::cmp::PartialEqSpecImpl<i32> for LinAlgNumber {
    open spec fn obeys_eq_spec() -> bool {
        true
    }

    open spec fn eq_spec(&self, other: &i32) -> bool {
        self.equals_integer(int_of_i32(*other))
    }
}

impl PartialEq<i64> for LinAlgNumber {
    /// Whether the number is a whole number within its tolerance, `other` is
    /// an integer that a 64-bit float holds exactly, and the number rounded
    /// toward zero is `other`. An integer beyond that range equals nothing.
    fn eq(&self, other: &i64) -> (r: bool) {
        if perfectly_representable_as_f64(other) {
            self.eq_exact_integer(*other)
        } else {
            false
        }
    }
}

impl vstd::std_specs::cmp::PartialEqSpecImpl<i64> for LinAlgNumber {
    open spec fn obeys_eq_spec() -> bool {
        true
    }

    open spec fn eq_spec(&self, other: &i64) -> bool {
        &&& -MAX_EXACT_INT <= *other <= MAX_EXACT_INT
        &&& self.equals_integer(int_of_i64(*other))
    }
}

impl PartialOrd for LinAlgNumber {
    /// The total order of the type: always `Some`.
    fn partial_cmp(&self, other: &LinAlgNumber) -> (r: Option<Ordering>) {
        Some(self.cmp(other))
    }
}

impl vstd::std_specs::cmp::PartialOrdSpecImpl for LinAlgNumber {
    open spec fn obeys_partial_cmp_spec() -> bool {
        true
    }

    open spec fn partial_cmp_spec(&self, other: &LinAlgNumber) -> Option<Ordering> {
        Some(self.total_order(other))
    }
}

impl PartialOrd<i32> for LinAlgNumber {
    /// How the number stands to the integer; `None` for what is no number.
    fn partial_cmp(&self, other: &i32) -> (r: Option<Ordering>) {
        self.partial_cmp_f64_bits(binary64::from_integer(i64::from(*other)))
    }
}

impl vstd::std_specs::cmp::PartialOrdSpecImpl<i32> for LinAlgNumber {
    open spec fn obeys_partial_cmp_spec() -> bool {
        true
    }

    open spec fn partial_cmp_spec(&self, other: &i32) -> Option<Ordering> {
        self.order_against(true, int_of_i32(*other) * binary64::one())
    }
}

impl PartialOrd<i64> for LinAlgNumber {
    /// How the number stands to the integer as a 64-bit float, which is the
    /// integer rounded to 53 digits; `None` for what is no number.
    fn partial_cmp(&self, other: &i64) -> (r: Option<Ordering>) {
        self.partial_cmp_f64_bits(binary64::from_integer(*other))
    }
}

impl vstd::std_specs::cmp::PartialOrdSpecImpl<i64> for LinAlgNumber {
    open spec fn obeys_partial_cmp_spec() -> bool {
        true
    }

    open spec fn partial_cmp_spec(&self, other: &i64) -> Option<Ordering> {
        self.order_against(true, binary64::integer_value(int_of_i64(*other)))
    }
}

/// The order is reflexive: everything is equal in rank to itself, and any
/// two values that are no number are equal in rank to each other.
pub proof fn lemma_order_reflexive(x: LinAlgNumber, y: LinAlgNumber)
    ensures
        x.total_order(&x) == Ordering::Equal,
        !x.is_number() && !y.is_number() ==> x.total_order(&y) == Ordering::Equal,
{
}

/// What is no number ranks last: after every number, from either side.
pub proof fn lemma_not_a_number_is_last(x: LinAlgNumber, n: LinAlgNumber)
    requires
        x.is_number(),
        !n.is_number(),
    ensures
        x.total_order(&n) == Ordering::Less,
        n.total_order(&x) == Ordering::Greater,
{
}

/// The order is antisymmetric: exchanging the sides exchanges `Less` and
/// `Greater` and keeps `Equal`.
pub proof fn lemma_order_antisymmetric(x: LinAlgNumber, y: LinAlgNumber)
    ensures
        x.total_order(&y) == Ordering::Less <==> y.total_order(&x) == Ordering::Greater,
        x.total_order(&y) == Ordering::Equal <==> y.total_order(&x) == Ordering::Equal,
{
}

/// The order is transitive, and so is equality of rank.
pub proof fn lemma_order_transitive(x: LinAlgNumber, y: LinAlgNumber, z: LinAlgNumber)
    ensures
        x.total_order(&y) != Ordering::Greater && y.total_order(&z) != Ordering::Greater
            ==> x.total_order(&z) != Ordering::Greater,
        x.total_order(&y) == Ordering::Less && y.total_order(&z) != Ordering::Greater
            ==> x.total_order(&z) == Ordering::Less,
        x.total_order(&y) != Ordering::Greater && y.total_order(&z) == Ordering::Less
            ==> x.total_order(&z) == Ordering::Less,
        x.total_order(&y) == Ordering::Equal && y.total_order(&z) == Ordering::Equal
            ==> x.total_order(&z) == Ordering::Equal,
{
}

/// What is no number equals nothing, itself included, although the order
/// ranks it equal to itself.
pub proof fn lemma_not_a_number_equals_nothing(n: LinAlgNumber, y: LinAlgNumber)
    requires
        !n.is_number(),
    ensures
        !n.eq_spec(&y),
        !y.eq_spec(&n),
        !n.eq_spec(&n),
        n.total_order(&n) == Ordering::Equal,
{
}

/// Equality is symmetric, holds of every number and itself, never holds
/// across widths, and implies equality of rank.
pub proof fn lemma_equality(x: LinAlgNumber, y: LinAlgNumber)
    ensures
        x.eq_spec(&y) == y.eq_spec(&x),
        x.is_number() ==> x.eq_spec(&x),
        (x is Float64) != (y is Float64) ==> !x.eq_spec(&y),
        x.eq_spec(&y) ==> x.total_order(&y) == Ordering::Equal,
{
}

/// The 64-bit float made from a 32-bit integer equals that integer in the
/// sense of [`LinAlgNumber::equals_integer`], unless the integer is zero:
/// zero has a zero tolerance, which no fractional part is below.
pub proof fn lemma_integer_equals_itself(i: i32)
    ensures
        LinAlgNumber::from_spec(i).is_number(),
        LinAlgNumber::from_spec(i).value() == i * binary64::one(),
        LinAlgNumber::from_spec(i).equals_integer(int_of_i32(i)) == (i != 0),
{
    binary64::lemma_whole_number(int_of_i32(i));
}

} // verus!
