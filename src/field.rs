//! Elements of GF(2^8) under a modulus polynomial.
use vstd::prelude::*;
use vstd::relations::injective_on;
use vstd::set_lib::{lemma_int_range, lemma_map_size, lemma_subset_equality, set_int_range};

verus! {

/// The modulus of the field used by AES's S-box.
pub const DEFAULT_POLY: u16 = 0x11b;

/// Failures of the field arithmetic.
#[derive(Debug, Clone, Copy, PartialEq, Eq, Structural)]
pub enum FieldError {
    /// The element has no multiplicative inverse (zero, in a field).
    NotInvertible,
}

/// Multiplication by the polynomial `x`, reduced by the modulus whose low
/// byte is `low` (the modulus has degree 8).
pub open spec fn xtime(b: u8, low: u8) -> u8 {
    if b & 0x80u8 != 0 {
        ((b << 1u8) ^ low) as u8
    } else {
        (b << 1u8) as u8
    }
}

/// The product of `a` and `b`, reading the low `steps` bits of `a`:
/// shift-and-add over GF(2) with reduction at each shift.
pub open spec fn gf_mul_steps(a: u8, b: u8, low: u8, steps: nat) -> u8
    decreases steps,
{
    if steps == 0 {
        0
    } else {
        let here: u8 = if a & 1u8 == 1u8 { b } else { 0 };
        (here ^ gf_mul_steps(a >> 1u8, xtime(b, low), low, (steps - 1) as nat)) as u8
    }
}

/// The field product of `a` and `b` under a degree-8 modulus of low byte `low`.
pub open spec fn gf_mul(a: u8, b: u8, low: u8) -> u8 {
    gf_mul_steps(a, b, low, 8)
}

/// The low byte of a modulus, the part that reduction adds back.
pub open spec fn low_byte(poly: u16) -> u8 {
    (poly % 256) as u8
}

/// A value of GF(2^8) together with the modulus polynomial of its field.
#[derive(Debug, Clone, Copy)]
pub struct Number {
    pub value: u8,
    pub poly: u16,
}

impl PartialEq for Number {
    /// Two elements are equal when their values are.
    fn eq(&self, other: &Number) -> (r: bool)
        ensures
            r == (self.value == other.value),
    {
        self.value == other.value
    }
}

impl vstd::std_specs::cmp::PartialEqSpecImpl for Number {
    open spec fn obeys_eq_spec() -> bool {
        true
    }

    open spec fn eq_spec(&self, other: &Number) -> bool {
        self.value == other.value
    }
}

impl From<u8> for Number {
    /// An element of the default field.
    fn from(value: u8) -> (r: Number)
        ensures
            r.value == value,
            r.poly == DEFAULT_POLY,
    {
        Number { value, poly: DEFAULT_POLY }
    }
}

impl vstd::std_specs::convert::FromSpecImpl<u8> for Number {
    open spec fn obeys_from_spec() -> bool {
        true
    }

    open spec fn from_spec(v: u8) -> Number {
        Number { value: v, poly: DEFAULT_POLY }
    }
}

/// Values with a multiplicative inverse.
pub trait Invertible: Sized {
    /// The multiplicative inverse, or an error when there is none.
    fn invert(&self) -> Result<Self, FieldError>;
}

impl Invertible for Number {
    fn invert(&self) -> Result<Number, FieldError> {
        Number::invert(self)
    }
}

impl Number {
    pub fn new(value: u8, poly: u16) -> (r: Number)
        ensures
            r.value == value,
            r.poly == poly,
    {
        Number { value, poly }
    }

    pub fn get_value(&self) -> (r: u8)
        ensures
            r == self.value,
    {
        self.value
    }

    /// Addition in GF(2^8): the exclusive or of the values.
    pub fn add(self, other: Number) -> (r: Number)
        ensures
            r.value == self.value ^ other.value,
            r.poly == self.poly,
    {
        Number { value: self.value ^ other.value, poly: self.poly }
    }

    /// Multiplication in GF(2^8) by shift-and-add, reducing by the modulus.
    pub fn multiply(self, other: Number) -> (r: Number)
        ensures
            r.value == gf_mul(self.value, other.value, low_byte(self.poly)),
            r.poly == self.poly,
    {
        let low: u8 = (self.poly % 256) as u8;
        let mut result: u8 = 0;
        let mut a: u8 = self.value;
        let mut b: u8 = other.value;
        let mut i: u8 = 0;
        let ghost whole = gf_mul(self.value, other.value, low);
        assert(0u8 ^ whole == whole) by (bit_vector);
        while i < 8
            invariant
                i <= 8,
                low == low_byte(self.poly),
                result ^ gf_mul_steps(a, b, low, (8 - i) as nat) == gf_mul(
                    self.value,
                    other.value,
                    low,
                ),
            decreases 8 - i,
        {
            let ghost rest = gf_mul_steps(a >> 1u8, xtime(b, low), low, (8 - i - 1) as nat);
            let here: u8 = if a & 1 == 1 {
                b
            } else {
                0
            };
            assert(gf_mul_steps(a, b, low, (8 - i) as nat) == here ^ rest);
            assert(result ^ (here ^ rest) == (result ^ here) ^ rest) by (bit_vector);
            result = result ^ here;
            let top: u8 = b & 0x80;
            b = b << 1;
            if top != 0 {
                b = b ^ low;
            }
            a = a >> 1;
            i = i + 1;
        }
        assert(gf_mul_steps(a, b, low, 0) == 0);
        assert(result ^ 0u8 == result) by (bit_vector);
        Number { value: result, poly: self.poly }
    }

    /// The multiplicative inverse: the smallest value whose product with
    /// `self` is one. Zero has none, nor has any value when the modulus is
    /// not irreducible and the value shares a factor with it.
    pub fn invert(&self) -> (r: Result<Number, FieldError>)
        ensures
            match r {
                Ok(inv) => {
                    &&& gf_mul(self.value, inv.value, low_byte(self.poly)) == 1
                    &&& forall|y: u8|
                        y < inv.value ==> gf_mul(self.value, y, low_byte(self.poly)) != 1
                    &&& inv.poly == self.poly
                },
                Err(e) => {
                    &&& e == FieldError::NotInvertible
                    &&& forall|y: u8| gf_mul(self.value, y, low_byte(self.poly)) != 1
                },
            },
            self.poly == DEFAULT_POLY && self.value != 0 ==> r is Ok,
    {
        let mut y: u16 = 0;
        while y < 256
            invariant
                y <= 256,
                forall|z: u8| z < y ==> gf_mul(self.value, z, low_byte(self.poly)) != 1,
            decreases 256 - y,
        {
            let cand = Number { value: y as u8, poly: self.poly };
            let p = self.multiply(cand);
            if p.value == 1 {
                return Ok(cand);
            }
            y = y + 1;
        }
        proof {
            if self.poly == DEFAULT_POLY && self.value != 0 {
                assert(low_byte(self.poly) == 0x1b);
                lemma_inverse_exists_aes(self.value);
                let w = choose|w: u8| gf_mul(self.value, w, 0x1b) == 1;
                assert((w as u16) < 256);
            }
        }
        Err(FieldError::NotInvertible)
    }
}

/// Zero times anything is zero.
pub proof fn lemma_mul_zero_left(b: u8, low: u8, steps: nat)
    ensures
        gf_mul_steps(0, b, low, steps) == 0,
    decreases steps,
{
    if steps > 0 {
        lemma_mul_zero_left(xtime(b, low), low, (steps - 1) as nat);
        assert(0u8 & 1u8 == 0u8 && 0u8 >> 1u8 == 0u8) by (bit_vector);
        assert(0u8 ^ 0u8 == 0u8) by (bit_vector);
    }
}

/// Anything times zero is zero.
pub proof fn lemma_mul_zero_right(a: u8, low: u8, steps: nat)
    ensures
        gf_mul_steps(a, 0, low, steps) == 0,
    decreases steps,
{
    if steps > 0 {
        assert(xtime(0, low) == 0) by (bit_vector);
        lemma_mul_zero_right(a >> 1u8, low, (steps - 1) as nat);
        assert(0u8 ^ 0u8 == 0u8) by (bit_vector);
    }
}

/// One is the multiplicative identity.
pub proof fn lemma_mul_one(a: u8, low: u8)
    ensures
        gf_mul(a, 1, low) == a,
{
    reveal_with_fuel(gf_mul_steps, 9);
    assert(gf_mul_steps(a, 1, low, 8) == a) by (bit_vector);
}

/// Adding an element to itself gives zero, the additive identity.
pub proof fn lemma_add_self_is_zero(x: u8)
    ensures
        x ^ x == 0,
        x ^ 0u8 == x,
{
    assert(x ^ x == 0) by (bit_vector);
    assert(x ^ 0u8 == x) by (bit_vector);
}

/// In the AES field, multiplication commutes.
#[verifier::rlimit(100)]
pub proof fn lemma_mul_commutes_aes(a: u8, b: u8)
    ensures
        gf_mul(a, b, 0x1b) == gf_mul(b, a, 0x1b),
{
    reveal_with_fuel(gf_mul_steps, 9);
    assert(gf_mul_steps(a, b, 0x1b, 8) == gf_mul_steps(b, a, 0x1b, 8)) by (bit_vector);
}

/// Multiplication distributes over addition in its second argument.
pub proof fn lemma_mul_distributes(a: u8, b: u8, c: u8, low: u8, steps: nat)
    ensures
        gf_mul_steps(a, b ^ c, low, steps) == gf_mul_steps(a, b, low, steps) ^ gf_mul_steps(a, c, low, steps),
    decreases steps,
{
    if steps == 0 {
        assert(0u8 ^ 0u8 == 0u8) by (bit_vector);
    } else {
        let s1 = (steps - 1) as nat;
        assert(xtime(b ^ c, low) == xtime(b, low) ^ xtime(c, low)) by (bit_vector);
        lemma_mul_distributes(a >> 1u8, xtime(b, low), xtime(c, low), low, s1);
        let rb = gf_mul_steps(a >> 1u8, xtime(b, low), low, s1);
        let rc = gf_mul_steps(a >> 1u8, xtime(c, low), low, s1);
        if a & 1u8 == 1u8 {
            assert((b ^ c) ^ (rb ^ rc) == (b ^ rb) ^ (c ^ rc)) by (bit_vector);
        } else {
            assert(0u8 ^ (rb ^ rc) == (0u8 ^ rb) ^ (0u8 ^ rc)) by (bit_vector);
        }
    }
}

/// In the AES field a product is zero only when a factor is.
#[verifier::rlimit(100)]
pub proof fn lemma_no_zero_divisors_aes(a: u8, b: u8)
    ensures
        gf_mul(a, b, 0x1b) == 0 ==> a == 0 || b == 0,
{
    reveal_with_fuel(gf_mul_steps, 9);
    assert(gf_mul_steps(a, b, 0x1b, 8) == 0 ==> a == 0 || b == 0) by (bit_vector);
}

/// In the AES field (modulus `0x11b`) an element has at most one inverse:
/// if `x * y` is one and `y * z` is one, then `z` is `x`. So inverting the
/// inverse of `x` gives `x` back.
pub proof fn lemma_inverse_of_inverse_aes(x: u8, y: u8, z: u8)
    requires
        gf_mul(x, y, 0x1b) == 1,
        gf_mul(y, z, 0x1b) == 1,
    ensures
        z == x,
{
    lemma_mul_commutes_aes(x, y);
    lemma_mul_distributes(y, x, z, 0x1b, 8);
    assert(1u8 ^ 1u8 == 0u8) by (bit_vector);
    lemma_mul_zero_left(z, 0x1b, 8);
    lemma_no_zero_divisors_aes(y, x ^ z);
    assert(x ^ z == 0 ==> z == x) by (bit_vector);
}

/// In the AES field every nonzero element has an inverse: multiplying by
/// `x` is one to one on the 256 bytes, so some byte is sent to one.
pub proof fn lemma_inverse_exists_aes(x: u8)
    requires
        x != 0,
    ensures
        exists|y: u8| gf_mul(x, y, 0x1b) == 1,
{
    let d = set_int_range(0, 256);
    let f = |v: int| gf_mul(x, v as u8, 0x1b) as int;
    lemma_int_range(0, 256);
    assert forall|v1: int, v2: int| d.contains(v1) && d.contains(v2) && #[trigger] f(v1) == #[trigger] f(v2) implies v1 == v2 by {
        let a = v1 as u8;
        let b = v2 as u8;
        lemma_mul_distributes(x, a, b, 0x1b, 8);
        assert(gf_mul(x, a, 0x1b) == gf_mul(x, b, 0x1b));
        let p = gf_mul(x, a, 0x1b);
        assert(p ^ p == 0u8) by (bit_vector);
        lemma_no_zero_divisors_aes(x, a ^ b);
        assert(a ^ b == 0 ==> a == b) by (bit_vector);
    }
    assert(injective_on(f, d));
    let img = d.map(f);
    lemma_map_size(d, img, f);
    assert forall|w: int| img.contains(w) implies d.contains(w) by {
        let v = choose|v: int| d.contains(v) && f(v) == w;
    }
    lemma_subset_equality(img, d);
    assert(d.contains(1));
    assert(img.contains(1));
    let v = choose|v: int| d.contains(v) && f(v) == 1;
    assert(gf_mul(x, v as u8, 0x1b) == 1);
}

/// In the AES field (modulus `0x11b`), inverting a nonzero element
/// succeeds, the product with the inverse is one, and inverting twice gives
/// the element back; adding an element to itself gives zero.
pub proof fn lemma_field_sanity_aes(x: u8)
    requires
        x != 0,
    ensures
        exists|y: u8| #[trigger] gf_mul(x, y, 0x1b) == 1,
        forall|y: u8, z: u8| gf_mul(x, y, 0x1b) == 1 && gf_mul(y, z, 0x1b) == 1 ==> z == x,
        forall|y: u8| gf_mul(x, y, 0x1b) == 1 ==> y != 0,
        x ^ x == 0,
{
    lemma_inverse_exists_aes(x);
    assert forall|y: u8, z: u8| gf_mul(x, y, 0x1b) == 1 && gf_mul(y, z, 0x1b) == 1 implies z == x by {
        lemma_inverse_of_inverse_aes(x, y, z);
    }
    assert forall|y: u8| gf_mul(x, y, 0x1b) == 1 implies y != 0 by {
        lemma_mul_zero_right(x, 0x1b, 8);
    }
    lemma_add_self_is_zero(x);
}

} // verus!
