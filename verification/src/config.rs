use vstd::prelude::*;
use vstd::string::StringSliceAdditionalSpecFns;

use crate::document::{decimal_digits, push_digits};

verus! {

/// Up to 16 bytes of text packed into an integer, first byte lowest.
pub type String16 = u128;

/// The little-endian value of `bytes`, one byte per base-256 digit.
pub open spec fn pack(bytes: Seq<u8>) -> int
    decreases bytes.len(),
{
    if bytes.len() == 0 {
        0
    } else {
        bytes[0] + 256 * pack(bytes.drop_first())
    }
}

pub open spec fn pow256(n: nat) -> int
    decreases n,
{
    if n == 0 {
        1
    } else {
        256 * pow256((n - 1) as nat)
    }
}

/// The first `n` base-256 digits of `x`, lowest first.
pub open spec fn unpack(x: int, n: nat) -> Seq<u8>
    decreases n,
{
    if n == 0 {
        Seq::empty()
    } else {
        seq![(x % 256) as u8] + unpack(x / 256, (n - 1) as nat)
    }
}

/// The bytes before the first zero byte (all of them without one).
pub open spec fn until_nul(bytes: Seq<u8>) -> Seq<u8>
    decreases bytes.len(),
{
    if bytes.len() == 0 || bytes[0] == 0 {
        Seq::empty()
    } else {
        seq![bytes[0]] + until_nul(bytes.drop_first())
    }
}

proof fn lemma_pack_bound(bytes: Seq<u8>)
    ensures
        0 <= pack(bytes) < pow256(bytes.len()),
    decreases bytes.len(),
{
    if bytes.len() > 0 {
        lemma_pack_bound(bytes.drop_first());
    }
}

proof fn lemma_unpack_pack(bytes: Seq<u8>, n: nat)
    requires
        bytes.len() <= n,
    ensures
        unpack(pack(bytes), n) == bytes + Seq::new((n - bytes.len()) as nat, |i: int| 0u8),
    decreases n,
{
    if n > 0 {
        if bytes.len() == 0 {
            lemma_unpack_pack(bytes, (n - 1) as nat);
            assert(unpack(pack(bytes), n) =~= bytes + Seq::new(n, |i: int| 0u8));
        } else {
            let rest = bytes.drop_first();
            lemma_pack_bound(rest);
            let x = pack(bytes);
            assert(x % 256 == bytes[0] && x / 256 == pack(rest)) by (nonlinear_arith)
                requires
                    x == bytes[0] + 256 * pack(rest),
                    0 <= bytes[0] < 256,
                    pack(rest) >= 0,
            ;
            lemma_unpack_pack(rest, (n - 1) as nat);
            assert(unpack(pack(bytes), n) =~= bytes + Seq::new((n - bytes.len()) as nat, |i: int| 0u8));
        }
    }
}

proof fn lemma_until_nul(bytes: Seq<u8>, pad: nat)
    requires
        forall|i: int| 0 <= i < bytes.len() ==> bytes[i] != 0,
    ensures
        until_nul(bytes + Seq::new(pad, |i: int| 0u8)) == bytes,
    decreases bytes.len(),
{
    let zeros = Seq::new(pad, |i: int| 0u8);
    if bytes.len() == 0 {
        assert(bytes + zeros =~= zeros);
        assert(until_nul(zeros) =~= bytes);
    } else {
        lemma_until_nul(bytes.drop_first(), pad);
        assert((bytes + zeros).drop_first() =~= bytes.drop_first() + zeros);
        assert(until_nul(bytes + zeros) =~= bytes);
    }
}

/// Packs `value` into a [`String16`].
pub fn string16(value: &str) -> (packed: String16)
    requires
        value.spec_bytes().len() <= 16,
    ensures
        packed == pack(value.spec_bytes()),
{
    let bytes = value.as_bytes();
    let mut result: u128 = 0;
    let mut i = bytes.len();
    proof {
        assert(bytes@.skip(i as int) =~= Seq::<u8>::empty());
        reveal_with_fuel(pow256, 16);
        assert(pow256(15) * 256 == 0x1_0000_0000_0000_0000_0000_0000_0000_0000);
    }
    while i > 0
        invariant
            bytes@ == value.spec_bytes(),
            bytes@.len() <= 16,
            i <= bytes@.len(),
            result == pack(bytes@.skip(i as int)),
            pow256(15) * 256 == 0x1_0000_0000_0000_0000_0000_0000_0000_0000,
        decreases i,
    {
        proof {
            lemma_pack_bound(bytes@.skip(i as int));
            assert(pow256((bytes@.len() - i) as nat) <= pow256(15)) by {
                lemma_pow256_monotone((bytes@.len() - i) as nat, 15);
            }
        }
        i = i - 1;
        let b = bytes[i];
        proof {
            assert(bytes@.skip(i as int).drop_first() == bytes@.skip(i + 1));
            assert(result * 256 + b < 0x1_0000_0000_0000_0000_0000_0000_0000_0000) by (nonlinear_arith)
                requires
                    result < pow256(15),
                    pow256(15) * 256 == 0x1_0000_0000_0000_0000_0000_0000_0000_0000,
                    b < 256,
            ;
        }
        result = b as u128 + result * 256;
    }
    proof {
        assert(bytes@.skip(0) == bytes@);
    }
    result
}

proof fn lemma_pow256_monotone(a: nat, b: nat)
    requires
        a <= b,
    ensures
        1 <= pow256(a) <= pow256(b),
    decreases b,
{
    if a < b {
        lemma_pow256_monotone(a, (b - 1) as nat);
    } else if a > 0 {
        lemma_pow256_monotone((a - 1) as nat, (a - 1) as nat);
    }
}

proof fn lemma_unpack_len(x: int, n: nat)
    ensures
        unpack(x, n).len() == n,
    decreases n,
{
    if n > 0 {
        lemma_unpack_len(x / 256, (n - 1) as nat);
    }
}

/// Names what `String::from_utf8_lossy` makes of a byte sequence.
pub uninterp spec fn lossy_utf8(bytes: Seq<u8>) -> Seq<char>;

/// `String::from_utf8_lossy`: valid UTF-8 decodes to its characters (std
/// documents it as "If our byte slice is valid UTF-8, then the result is
/// that string"); what replaces invalid sequences is left to the name.
#[verifier::external_body]
fn from_utf8_lossy(bytes: &[u8]) -> (text: String)
    ensures
        text@ == lossy_utf8(bytes@),
        vstd::utf8::valid_utf8(bytes@) ==> text@ == vstd::utf8::decode_utf8(bytes@),
{
    String::from_utf8_lossy(bytes).into_owned()
}

/// The text packed into `str16`: its bytes up to the first zero byte,
/// decoded as UTF-8 (each invalid sequence replaced as
/// `String::from_utf8_lossy` does).
pub open spec fn packed_text(str16: String16) -> Seq<char> {
    let bytes = until_nul(unpack(str16 as int, 16));
    if vstd::utf8::valid_utf8(bytes) {
        vstd::utf8::decode_utf8(bytes)
    } else {
        lossy_utf8(bytes)
    }
}

/// The text packed into `str16`: its bytes up to the first zero byte.
pub fn to_string(str16: String16) -> (text: String)
    ensures
        text@ == lossy_utf8(until_nul(unpack(str16 as int, 16))),
        text@ == packed_text(str16),
{
    let mut bytes: Vec<u8> = Vec::new();
    let mut x: u128 = str16;
    let mut i: usize = 0;
    while i < 16
        invariant
            i <= 16,
            bytes@ + unpack(x as int, (16 - i) as nat) == unpack(str16 as int, 16),
        decreases 16 - i,
    {
        proof {
            assert(unpack(x as int, (16 - i) as nat) == seq![(x % 256) as u8] + unpack(
                x as int / 256,
                (16 - i - 1) as nat,
            ));
            assert(bytes@.push((x % 256) as u8) + unpack(x as int / 256, (16 - i - 1) as nat)
                =~= bytes@ + unpack(x as int, (16 - i) as nat));
        }
        bytes.push((x % 256) as u8);
        x = x / 256;
        i = i + 1;
    }
    proof {
        assert(bytes@ =~= unpack(str16 as int, 16));
        lemma_unpack_len(str16 as int, 16);
        assert(bytes@.take(0) =~= Seq::<u8>::empty());
        assert(bytes@.skip(0) =~= bytes@);
    }
    let mut length: usize = 0;
    while length < 16 && bytes[length] != 0
        invariant
            bytes@.len() == 16,
            length <= 16,
            until_nul(bytes@) == bytes@.take(length as int) + until_nul(bytes@.skip(length as int)),
            forall|k: int| 0 <= k < length ==> bytes@[k] != 0,
        decreases 16 - length,
    {
        proof {
            let rest = bytes@.skip(length as int);
            assert(rest.drop_first() =~= bytes@.skip(length + 1));
            assert(bytes@.take(length + 1) =~= bytes@.take(length as int) + seq![rest[0]]);
        }
        length = length + 1;
    }
    proof {
        let rest = bytes@.skip(length as int);
        assert(until_nul(rest) =~= Seq::<u8>::empty());
        assert(until_nul(bytes@) =~= bytes@.take(length as int));
    }
    let slice = vstd::slice::slice_subrange(bytes.as_slice(), 0, length);
    from_utf8_lossy(slice)
}

/// Packing text of at most 16 bytes, none of them zero, and unpacking it
/// again gives the text back.
pub proof fn law_to_string_undoes_string16(value: &str)
    requires
        value.spec_bytes().len() <= 16,
        forall|i: int| 0 <= i < value.spec_bytes().len() ==> value.spec_bytes()[i] != 0,
    ensures
        lossy_utf8(until_nul(unpack(pack(value.spec_bytes()), 16))) == lossy_utf8(value.spec_bytes()),
        until_nul(unpack(pack(value.spec_bytes()), 16)) == value.spec_bytes(),
        packed_text(pack(value.spec_bytes()) as u128) == value@,
{
    let b = value.spec_bytes();
    lemma_unpack_pack(b, 16);
    lemma_until_nul(b, (16 - b.len()) as nat);
    vstd::utf8::encode_utf8_valid_utf8(value@);
    vstd::utf8::encode_utf8_decode_utf8(value@);
    lemma_pack_bound(b);
    lemma_pow256_monotone(b.len(), 16);
    assert(pow256(16) == 0x1_0000_0000_0000_0000_0000_0000_0000_0000) by {
        reveal_with_fuel(pow256, 17);
    }
    assert((pack(b) as u128) as int == pack(b));
}

/// A configured value outside its bounds.
#[derive(Debug, Clone, Copy, PartialEq, Eq)]
pub enum BoundedIntegerParseError {
    /// Units, value, and the smallest value allowed.
    TooLow(String16, usize, usize),
    /// Units, value, and the largest value allowed.
    TooHigh(String16, usize, usize),
}

/// `n` in decimal.
pub fn usize_string(n: usize) -> (s: String)
    ensures
        s@ == decimal_digits(n as nat),
{
    let mut s = String::new();
    push_digits(&mut s, n as u64);
    s
}

impl BoundedIntegerParseError {
    /// The message shown for the error, e.g. `cannot have character count
    /// of 0: 1 is the minimum allowed`.
    pub fn message(&self) -> (text: String)
        ensures
            text@ == match self {
                BoundedIntegerParseError::TooLow(name, value, bound) => "cannot have "@ + packed_text(
                    *name,
                ) + " of "@ + decimal_digits(*value as nat) + ": "@ + decimal_digits(*bound as nat)
                    + " is the minimum allowed"@,
                BoundedIntegerParseError::TooHigh(name, value, bound) => "cannot have "@
                    + packed_text(*name) + " of "@ + decimal_digits(
                    *value as nat,
                ) + ": "@ + decimal_digits(*bound as nat) + " is the maximum allowed"@,
            },
    {
        let (name, value, bound, tail) = match self {
            BoundedIntegerParseError::TooLow(name, value, bound) => (
                name,
                value,
                bound,
                " is the minimum allowed",
            ),
            BoundedIntegerParseError::TooHigh(name, value, bound) => (
                name,
                value,
                bound,
                " is the maximum allowed",
            ),
        };
        let mut text = String::new();
        text.append("cannot have ");
        text.append(to_string(*name).as_str());
        text.append(" of ");
        text.append(usize_string(*value).as_str());
        text.append(": ");
        text.append(usize_string(*bound).as_str());
        text.append(tail);
        text
    }
}

/// A bounded `usize` for the [`Config`]. For instance,
/// `BoundedConfigUsize<1, 5, 1, UNITS>` is a `usize` bounded between `1`
/// and `5`, with default value `1`, in the units `UNITS` names.
#[derive(Clone, Copy, Debug)]
pub struct BoundedConfigUsize<
    const LOWER_BOUND: usize,
    const UPPER_BOUND: usize,
    const DEFAULT: usize,
    const UNITS: u128,
> {
    pub inner: usize,
}

impl<
    const LOWER_BOUND: usize,
    const UPPER_BOUND: usize,
    const DEFAULT: usize,
    const UNITS: u128,
> BoundedConfigUsize<LOWER_BOUND, UPPER_BOUND, DEFAULT, UNITS> {
    /// `value` if it lies within the bounds; otherwise which bound it
    /// breaks.
    pub fn try_from(value: usize) -> (result: Result<Self, BoundedIntegerParseError>)
        ensures
            value < LOWER_BOUND ==> result == Err::<Self, BoundedIntegerParseError>(
                BoundedIntegerParseError::TooLow(UNITS, value, LOWER_BOUND),
            ),
            LOWER_BOUND <= value && value > UPPER_BOUND ==> result == Err::<
                Self,
                BoundedIntegerParseError,
            >(BoundedIntegerParseError::TooHigh(UNITS, value, UPPER_BOUND)),
            LOWER_BOUND <= value <= UPPER_BOUND ==> (result matches Ok(bounded) && bounded.inner
                == value),
    {
        if value < LOWER_BOUND {
            Err(BoundedIntegerParseError::TooLow(UNITS, value, LOWER_BOUND))
        } else if value > UPPER_BOUND {
            Err(BoundedIntegerParseError::TooHigh(UNITS, value, UPPER_BOUND))
        } else {
            Ok(Self { inner: value })
        }
    }

    /// The default value.
    pub fn default_value() -> (bounded: Self)
        ensures
            bounded.inner == DEFAULT,
    {
        Self { inner: DEFAULT }
    }

    /// The plain value.
    pub fn get(&self) -> (value: usize)
        ensures
            value == self.inner,
    {
        self.inner
    }
}

/// `string16("character count")`, the units of both config values.
pub const CHARACTER_COUNT: u128 = 604546804814128829861674730066634851;

/// No upper bound.
pub const UNBOUNDED: usize = usize::MAX;

/// Configures the behavior of `spadefmt`.
#[derive(Clone, Copy, Debug)]
pub struct Config {
    /// The maximum line length `spadefmt` should aim for.
    pub max_width: BoundedConfigUsize<1, UNBOUNDED, 100, CHARACTER_COUNT>,
    /// The amount of spaces to indent a line.
    pub indent: BoundedConfigUsize<1, UNBOUNDED, 4, CHARACTER_COUNT>,
}

impl Config {
    /// The defaults: a width of 100 and an indent of 4.
    pub fn default_config() -> (config: Self)
        ensures
            config.max_width.inner == 100,
            config.indent.inner == 4,
    {
        Config {
            max_width: BoundedConfigUsize::default_value(),
            indent: BoundedConfigUsize::default_value(),
        }
    }
}

impl Default for Config {
    fn default() -> (config: Self)
        ensures
            config.max_width.inner == 100,
            config.indent.inner == 4,
    {
        Self::default_config()
    }
}

} // verus!
