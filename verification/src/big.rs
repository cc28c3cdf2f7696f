//! Numbers of any size, as digits to the base 2^32 from the least significant
//! one up. The arithmetic on them is `num`'s.

use crate::text::{all_digits, dec_value};
use vstd::arithmetic::power::*;
use vstd::prelude::*;

verus! {

/// The number that digits stand for.
pub open spec fn digits_value(d: Seq<u32>) -> nat
    decreases d.len(),
{
    if d.len() == 0 {
        0
    } else {
        d[0] as nat + 0x1_0000_0000 * digits_value(d.drop_first())
    }
}

/// Whether the most significant digit is not zero.
pub open spec fn trimmed_digits(d: Seq<u32>) -> bool {
    d.len() > 0 ==> d.last() != 0
}

/// The number that bytes stand for, the most significant one first.
pub open spec fn be_value(b: Seq<u8>) -> nat
    decreases b.len(),
{
    if b.len() == 0 {
        0
    } else {
        be_value(b.drop_last()) * 256 + b.last() as nat
    }
}

/// A signed number: its sign, and the digits of its magnitude. Zero has sign 0
/// and no digits.
#[derive(Debug, Clone)]
pub struct SignedBig {
    pub sign: i8,
    pub digits: Vec<u32>,
}

/// The sign of a number, and the digits of its magnitude.
pub struct SignedView {
    pub sign: int,
    pub digits: Seq<u32>,
}

impl View for SignedBig {
    type V = SignedView;

    open spec fn view(&self) -> SignedView {
        SignedView { sign: self.sign as int, digits: self.digits@ }
    }
}

impl SignedBig {
    pub open spec fn wf(&self) -> bool {
        &&& -1 <= self.sign <= 1
        &&& self.sign == 0 <==> self.digits@.len() == 0
        &&& trimmed_digits(self.digits@)
    }

    /// The number.
    pub open spec fn value(&self) -> int {
        self.sign * digits_value(self.digits@)
    }

    /// The number `v`.
    pub fn from_i128(v: i128) -> (r: Self)
        ensures
            r.wf(),
            r.value() == v,
    {
        let parts: (i8, Vec<u32>) = signed_digits(v);
        proof {
            let m = digits_value(parts.1@) as int;
            assert(1 * m == m);
            assert(-1 * m == -m);
            assert(0 * m == 0);
        }
        SignedBig { sign: parts.0, digits: parts.1 }
    }

    /// Zero.
    pub fn zero() -> (r: Self)
        ensures
            r.wf(),
            r.value() == 0,
            r.sign == 0,
            r.digits@.len() == 0,
    {
        SignedBig { sign: 0, digits: Vec::new() }
    }
}

/// The sign and the digits of `v`, by `BigInt::from` and
/// `BigInt::to_u32_digits`: the digits of the magnitude, from the least
/// significant one up and without leading zeros.
#[verifier::external_body]
fn signed_digits(v: i128) -> (r: (i8, Vec<u32>))
    ensures
        r.0 == if v > 0 {
            1int
        } else if v < 0 {
            -1int
        } else {
            0int
        },
        digits_value(r.1@) == if v < 0 {
            -v
        } else {
            v as int
        },
        trimmed_digits(r.1@),
        r.1@.len() == 0 <==> v == 0,
{
    let (sign, digits) = num::BigInt::from(v).to_u32_digits();
    match sign {
        num::bigint::Sign::Plus => (1, digits),
        num::bigint::Sign::Minus => (-1, digits),
        num::bigint::Sign::NoSign => (0, digits),
    }
}

/// The digits of the number that `bytes` stand for, the most significant byte
/// first, by `BigUint::from_bytes_be`.
#[verifier::external_body]
pub(crate) fn digits_of_bytes(bytes: &[u8]) -> (r: Vec<u32>)
    ensures
        digits_value(r@) == be_value(bytes@),
        trimmed_digits(r@),
{
    num::BigUint::from_bytes_be(bytes).to_u32_digits()
}

/// The bytes of a number, the most significant one first, by
/// `BigUint::to_bytes_be`: without leading zeros, but a single zero for 0.
#[verifier::external_body]
pub(crate) fn bytes_of_digits(d: &Vec<u32>) -> (r: Vec<u8>)
    ensures
        be_value(r@) == digits_value(d@),
        r@.len() >= 1,
        r@.len() > 1 ==> r@[0] != 0,
{
    num::BigUint::new(d.clone()).to_bytes_be()
}

/// The digits of the number that a decimal numeral stands for, by
/// `BigUint::from_str_radix`.
#[verifier::external_body]
pub(crate) fn digits_of_decimal(s: &str) -> (r: Vec<u32>)
    requires
        s@.len() > 0,
        all_digits(s@),
    ensures
        digits_value(r@) == dec_value(s@),
        trimmed_digits(r@),
{
    <num::BigUint as num::Num>::from_str_radix(s, 10).unwrap().to_u32_digits()
}

/// The sum, by `BigUint`'s addition.
#[verifier::external_body]
pub(crate) fn big_add(a: &Vec<u32>, b: &Vec<u32>) -> (r: Vec<u32>)
    ensures
        digits_value(r@) == digits_value(a@) + digits_value(b@),
        trimmed_digits(r@),
{
    (num::BigUint::new(a.clone()) + num::BigUint::new(b.clone())).to_u32_digits()
}

/// The difference, by `BigUint`'s subtraction, which panics where it would be
/// negative.
#[verifier::external_body]
pub(crate) fn big_sub(a: &Vec<u32>, b: &Vec<u32>) -> (r: Vec<u32>)
    requires
        digits_value(b@) <= digits_value(a@),
    ensures
        digits_value(r@) == digits_value(a@) - digits_value(b@),
        trimmed_digits(r@),
{
    (num::BigUint::new(a.clone()) - num::BigUint::new(b.clone())).to_u32_digits()
}

/// The product, by `BigUint`'s multiplication.
#[verifier::external_body]
pub(crate) fn big_mul(a: &Vec<u32>, b: &Vec<u32>) -> (r: Vec<u32>)
    ensures
        digits_value(r@) == digits_value(a@) * digits_value(b@),
        trimmed_digits(r@),
{
    (num::BigUint::new(a.clone()) * num::BigUint::new(b.clone())).to_u32_digits()
}

/// The remainder, by `BigUint`'s `%`, which panics for a divisor of 0.
#[verifier::external_body]
pub(crate) fn big_rem(a: &Vec<u32>, m: &Vec<u32>) -> (r: Vec<u32>)
    requires
        digits_value(m@) > 0,
    ensures
        digits_value(r@) == digits_value(a@) % digits_value(m@),
        trimmed_digits(r@),
{
    (num::BigUint::new(a.clone()) % num::BigUint::new(m.clone())).to_u32_digits()
}

/// `a^e` modulo `m`, by `BigUint::modpow`. It panics for a modulus of 0, and nothing is
/// claimed for 1.
#[verifier::external_body]
pub(crate) fn big_modpow(a: &Vec<u32>, e: &Vec<u32>, m: &Vec<u32>) -> (r: Vec<u32>)
    requires
        digits_value(m@) > 1,
    ensures
        digits_value(r@) == pow(digits_value(a@) as int, digits_value(e@)) % (digits_value(m@) as int),
        trimmed_digits(r@),
{
    num::BigUint::new(a.clone())
        .modpow(&num::BigUint::new(e.clone()), &num::BigUint::new(m.clone()))
        .to_u32_digits()
}

proof fn lemma_top_digit(d: Seq<u32>)
    requires
        d.len() > 0,
        d.last() != 0,
    ensures
        digits_value(d) >= pow(0x1_0000_0000, (d.len() - 1) as nat),
    decreases d.len(),
{
    reveal(pow);
    if d.len() > 1 {
        let rest = d.drop_first();
        assert(rest.last() == d.last());
        lemma_top_digit(rest);
        assert(pow(0x1_0000_0000, (d.len() - 1) as nat) == 0x1_0000_0000 * pow(
            0x1_0000_0000,
            (d.len() - 2) as nat,
        ));
    } else {
        assert(pow(0x1_0000_0000, 0) == 1);
        assert(d[0] == d.last());
    }
}

/// Digits without leading zeros are determined by their number.
pub proof fn digits_are_unique(a: Seq<u32>, b: Seq<u32>)
    requires
        trimmed_digits(a),
        trimmed_digits(b),
        digits_value(a) == digits_value(b),
    ensures
        a == b,
    decreases a.len() + b.len(),
{
    if a.len() == 0 {
        if b.len() > 0 {
            lemma_top_digit(b);
            lemma_pow_positive(0x1_0000_0000, (b.len() - 1) as nat);
        }
        assert(a =~= b);
    } else if b.len() == 0 {
        lemma_top_digit(a);
        lemma_pow_positive(0x1_0000_0000, (a.len() - 1) as nat);
    } else {
        let (ra, rb) = (a.drop_first(), b.drop_first());
        assert(a[0] == b[0] && digits_value(ra) == digits_value(rb));
        assert(ra.len() > 0 ==> ra.last() == a.last());
        assert(rb.len() > 0 ==> rb.last() == b.last());
        digits_are_unique(ra, rb);
        assert(a =~= seq![a[0]] + ra);
        assert(b =~= seq![b[0]] + rb);
    }
}

/// Leading bytes that are not zero bound a number from below.
pub proof fn lemma_top_byte(b: Seq<u8>)
    requires
        b.len() > 0,
        b[0] != 0,
    ensures
        be_value(b) >= pow(256, (b.len() - 1) as nat),
    decreases b.len(),
{
    reveal(pow);
    if b.len() > 1 {
        let front = b.drop_last();
        assert(front[0] == b[0]);
        lemma_top_byte(front);
        assert(pow(256, (b.len() - 1) as nat) == 256 * pow(256, (b.len() - 2) as nat));
    } else {
        assert(pow(256, 0) == 1);
        assert(b.last() == b[0]);
    }
}

} // verus!
