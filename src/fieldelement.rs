use vstd::prelude::*;

use crate::error::EccError;
use crate::number_theory::{is_prime, lemma_fermat};
use crate::text::{decimal, push_decimal};
use vstd::string::StringExecFns;
use vstd::arithmetic::div_mod::*;
use vstd::arithmetic::mul::*;
use vstd::arithmetic::power::*;

verus! {

/// An element of the integers modulo `prime`.
#[derive(Debug, Clone, Copy, PartialEq, Eq, Structural)]
pub struct FieldElement {
    num: i64,
    prime: i64,
}

impl FieldElement {
    #[verifier::type_invariant]
    spec fn inv(self) -> bool {
        self.valid()
    }

    /// The modulus exceeds one and the residue lies in `0 .. prime`.
    pub closed spec fn valid(self) -> bool {
        1 < self.prime && 0 <= self.num < self.prime
    }

    /// The residue, in `0 .. prime`.
    pub closed spec fn residue(self) -> int {
        self.num as int
    }

    /// The modulus of the field.
    pub closed spec fn modulus(self) -> int {
        self.prime as int
    }

    /// Creates the element `num` of the field of order `prime`.
    pub fn new(num: i64, prime: i64) -> (r: Result<FieldElement, EccError>)
        ensures
            prime <= 1 ==> r == Err::<FieldElement, EccError>(EccError::InvalidField),
            prime > 1 && (num < 0 || num >= prime) ==> r == Err::<FieldElement, EccError>(EccError::OutOfRange),
            r is Ok <==> 1 < prime && 0 <= num < prime,
            r matches Ok(e) ==> e.residue() == num && e.modulus() == prime && e.valid(),
    {
        if prime <= 1 {
            return Err(EccError::InvalidField);
        }
        if num >= prime || num < 0 {
            return Err(EccError::OutOfRange);
        }
        Ok(FieldElement { num, prime })
    }

    /// The modulus.
    pub fn prime(&self) -> (r: i64)
        ensures
            r == self.modulus(),
            1 < r,
    {
        proof { use_type_invariant(self); }
        self.prime
    }

    /// The sum `self + other`.
    pub fn add(self, other: FieldElement) -> (r: Result<FieldElement, EccError>)
        ensures
            r is Err <==> self.modulus() != other.modulus(),
            r matches Err(e) ==> e == EccError::FieldMismatch,
            r matches Ok(e) ==> e.modulus() == self.modulus() && e.residue() == (self.residue()
                + other.residue()) % self.modulus(),
            r matches Ok(e) ==> 0 <= e.residue() < e.modulus(),
    {
        proof {
            use_type_invariant(&self);
            use_type_invariant(&other);
        }
        if self.prime != other.prime {
            return Err(EccError::FieldMismatch);
        }
        let num = ((self.num as i128 + other.num as i128) % (self.prime as i128)) as i64;
        FieldElement::new(num, self.prime)
    }

    /// The difference `self - other`, brought back into `0 .. prime`.
    pub fn sub(self, other: FieldElement) -> (r: Result<FieldElement, EccError>)
        ensures
            r is Err <==> self.modulus() != other.modulus(),
            r matches Err(e) ==> e == EccError::FieldMismatch,
            r matches Ok(e) ==> e.modulus() == self.modulus() && e.residue() == (self.residue()
                - other.residue()) % self.modulus(),
            r matches Ok(e) ==> 0 <= e.residue() < e.modulus(),
    {
        proof {
            use_type_invariant(&self);
            use_type_invariant(&other);
        }
        if self.prime != other.prime {
            return Err(EccError::FieldMismatch);
        }
        let num = if self.num >= other.num {
            self.num - other.num
        } else {
            self.prime - (other.num - self.num)
        };
        proof {
            let d = self.num - other.num;
            let p = self.prime as int;
            if d >= 0 {
                lemma_small_mod(d as nat, p as nat);
            } else {
                lemma_fundamental_div_mod(d, p);
                lemma_mod_bound(d, p);
                assert(d % p == d + p) by (nonlinear_arith)
                    requires d == p * (d / p) + d % p, 0 <= d % p < p, -p < d < 0;
            }
        }
        FieldElement::new(num, self.prime)
    }

    /// The product `self * other`.
    pub fn mul(self, other: FieldElement) -> (r: Result<FieldElement, EccError>)
        ensures
            r is Err <==> self.modulus() != other.modulus(),
            r matches Err(e) ==> e == EccError::FieldMismatch,
            r matches Ok(e) ==> e.modulus() == self.modulus() && e.residue() == (self.residue()
                * other.residue()) % self.modulus(),
            r matches Ok(e) ==> 0 <= e.residue() < e.modulus(),
    {
        proof {
            use_type_invariant(&self);
            use_type_invariant(&other);
        }
        if self.prime != other.prime {
            return Err(EccError::FieldMismatch);
        }
        let num = mul_mod(self.num, other.num, self.prime);
        FieldElement::new(num, self.prime)
    }

    /// The quotient `self / other`: `self` times the inverse of `other`, which
    /// is `other` raised to `prime - 2` (Fermat's little theorem, for a prime
    /// modulus).
    pub fn div(self, other: FieldElement) -> (r: Result<FieldElement, EccError>)
        ensures
            self.modulus() != other.modulus() ==> r == Err::<FieldElement, EccError>(
                EccError::FieldMismatch),
            self.modulus() == other.modulus() && other.residue() == 0 ==> r == Err::<
                FieldElement,
                EccError,
            >(EccError::DivisionByZero),
            r is Ok <==> self.modulus() == other.modulus() && other.residue() != 0,
            r matches Ok(e) ==> e.modulus() == self.modulus() && e.residue() == (self.residue()
                * inverse_of(other.residue(), self.modulus())) % self.modulus(),
            r matches Ok(e) ==> 0 <= e.residue() < e.modulus(),
            is_prime(self.modulus()) ==> (r matches Ok(e) ==> (e.residue() * other.residue())
                % self.modulus() == self.residue()),
    {
        proof {
            use_type_invariant(&self);
            use_type_invariant(&other);
        }
        if self.prime != other.prime {
            return Err(EccError::FieldMismatch);
        }
        if other.num == 0 {
            return Err(EccError::DivisionByZero);
        }
        let inv = pow_mod(other.num, self.prime - 2, self.prime);
        let num = mul_mod(self.num, inv, self.prime);
        proof {
            let p = self.prime as int;
            let a = self.num as int;
            let b = other.num as int;
            let t = pow(b, (p - 2) as nat);
            lemma_mul_mod_noop_right(a, t, p);
            if is_prime(p) {
                lemma_fermat(p, b);
                lemma_pow_adds(b, 1, (p - 2) as nat);
                lemma_pow1(b);
                assert((1 + (p - 2)) as nat == (p - 1) as nat);
                // (a * t % p) * b % p == a * (t * b) % p == a * 1 % p
                lemma_mul_mod_noop_left(a * t, b, p);
                lemma_mul_is_associative(a, t, b);
                lemma_mul_is_commutative(t, b);
                lemma_mul_mod_noop_right(a, t * b, p);
                lemma_small_mod(a as nat, p as nat);
                assert(t * b == pow(b, (p - 1) as nat));
                assert((t * b) % p == 1);
                assert((a * (t * b)) % p == (a * 1) % p);
                assert(num as int == (a * t) % p);
                assert((num * b) % p == (a * t * b) % p);
                assert((num * b) % p == a);
            }
        }
        FieldElement::new(num, self.prime)
    }

    /// The text `FieldElement_<prime>(<num>)`, in decimal.
    pub fn to_text(&self) -> (r: String)
        ensures
            r@ == "FieldElement_"@ + decimal(self.modulus() as nat) + "("@ + decimal(
                self.residue() as nat,
            ) + ")"@,
    {
        proof { use_type_invariant(self); }
        let mut s = String::new();
        s.append("FieldElement_");
        push_decimal(&mut s, self.prime as u64);
        s.append("(");
        push_decimal(&mut s, self.num as u64);
        s.append(")");
        assert(s@ =~= "FieldElement_"@ + decimal(self.modulus() as nat) + "("@ + decimal(
            self.residue() as nat,
        ) + ")"@);
        s
    }

    /// The residue.
    pub fn num(&self) -> (r: i64)
        ensures
            r == self.residue(),
            0 <= r < self.modulus(),
    {
        proof { use_type_invariant(self); }
        self.num
    }
}

/// The inverse that Fermat's little theorem gives for `n` modulo `p`:
/// `n` raised to `p - 2`, reduced.
pub open spec fn inverse_of(n: int, p: int) -> int {
    pow(n, (p - 2) as nat) % p
}

/// In a prime field, a nonzero element divided by itself is one: the
/// residue times its inverse reduces to `1`.
pub proof fn lemma_divided_by_itself(a: FieldElement)
    requires
        a.valid(),
        is_prime(a.modulus()),
        a.residue() != 0,
    ensures
        (a.residue() * inverse_of(a.residue(), a.modulus())) % a.modulus() == 1,
{
    let n = a.residue();
    let p = a.modulus();
    lemma_fermat(p, n);
    lemma_mul_mod_noop_right(n, pow(n, (p - 2) as nat), p);
    lemma_pow_adds(n, 1, (p - 2) as nat);
    lemma_pow1(n);
    assert((1 + (p - 2)) as nat == (p - 1) as nat);
}

/// `(x * y) % m` for residues of a 64-bit modulus.
fn mul_mod(x: i64, y: i64, m: i64) -> (r: i64)
    requires
        1 < m,
        0 <= x < m,
        0 <= y < m,
    ensures
        r == (x * y) % (m as int),
        0 <= r < m,
{
    assert(0 <= x * y < 0x4000_0000_0000_0000_0000_0000_0000_0000) by (nonlinear_arith)
        requires 0 <= x < m, 0 <= y < m, m <= 0x7fff_ffff_ffff_ffff;
    ((x as i128 * y as i128) % (m as i128)) as i64
}

/// `base` raised to `exp`, reduced modulo `m`, by square-and-multiply over
/// the full width of the exponent.
fn pow_mod(base: i64, exp: i64, m: i64) -> (r: i64)
    requires
        1 < m,
        0 <= base < m,
        0 <= exp,
    ensures
        r == pow(base as int, exp as nat) % (m as int),
{
    let mm: i128 = m as i128;
    let mut acc: i128 = 1;
    let mut b: i128 = base as i128;
    let mut e: i64 = exp;
    proof {
        lemma_small_mod(1, m as nat);
    }
    while e > 0
        invariant
            mm == m,
            1 < m,
            0 <= acc < m,
            0 <= b < m,
            0 <= e,
            (acc * pow(b as int, e as nat)) % (m as int) == pow(base as int, exp as nat) % (m as int),
        decreases e,
    {
        let ghost e0 = e as nat;
        let ghost b0 = b as int;
        let ghost a0 = acc as int;
        proof {
            lemma_pow_halves(b0, e0);
        }
        assert(acc * b < 0x4000_0000_0000_0000_0000_0000_0000_0000) by (nonlinear_arith)
            requires 0 <= acc < m, 0 <= b < m, m <= 0x7fff_ffff_ffff_ffff;
        assert(b * b < 0x4000_0000_0000_0000_0000_0000_0000_0000) by (nonlinear_arith)
            requires 0 <= b < m, m <= 0x7fff_ffff_ffff_ffff;
        let odd = e % 2 == 1;
        if odd {
            acc = acc * b % mm;
        }
        b = b * b % mm;
        e = e / 2;
        proof {
            let q = (e0 / 2) as nat;
            let m_ = m as int;
            let t = pow(b0 * b0, q);
            let bn = pow(b as int, q);
            lemma_pow_mod_noop(b0 * b0, q, m_);
            assert(bn % m_ == t % m_);
            lemma_mul_mod_noop_right(acc as int, bn, m_);
            lemma_mul_mod_noop_right(acc as int, t, m_);
            assert((acc * bn) % m_ == (acc * t) % m_);
            if odd {
                lemma_mul_is_associative(a0, b0, t);
                lemma_mul_mod_noop_left(a0 * b0, t, m_);
                assert((acc as int) == (a0 * b0) % m_);
                assert(pow(b0, e0) == b0 * t);
            } else {
                assert(pow(b0, e0) == 1 * t);
                assert(acc as int == a0);
            }
        }
    }
    proof {
        lemma_pow0(b as int);
        lemma_small_mod(acc as nat, m as nat);
    }
    acc as i64
}

/// Splitting an exponent into its lowest bit and the rest.
proof fn lemma_pow_halves(b: int, e: nat)
    ensures
        pow(b, e) == (if e % 2 == 1 { b } else { 1 }) * pow(b * b, (e / 2) as nat),
{
    let q = (e / 2) as nat;
    let r = (e % 2) as nat;
    assert(e == 2 * q + r);
    lemma_pow_adds(b, 2 * q, r);
    lemma_pow_multiplies(b, 2, q);
    lemma_square_is_pow2(b);
    if r == 1 {
        lemma_pow1(b);
        lemma_mul_is_commutative(pow(b * b, q), b);
    } else {
        lemma_pow0(b);
    }
}

} // verus!
