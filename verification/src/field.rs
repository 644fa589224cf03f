//! The prime field the evaluation domains live over.
//!
//! Domains need a field whose multiplicative group has subgroups of smooth
//! order: here the modulus is the prime 41, whose unit group has order
//! 40 = 2^3 * 5.  That supplies power-of-two subgroups up to size 8 and
//! mixed subgroups with one extra factor of 5, up to size 40, which is
//! enough structure for every domain strategy in this crate.
//!
//! Every operation is specified against the mathematical residue arithmetic
//! (`fadd`, `fmul`, `fpow`, ...) on `nat`, and the key number-theoretic
//! facts (Fermat inverses, uniqueness of inverses, absence of zero
//! divisors) are proved, not assumed.

use vstd::prelude::*;
use vstd::arithmetic::div_mod::lemma_mul_mod_noop_left;
use vstd::arithmetic::div_mod::lemma_mul_mod_noop_right;
use vstd::arithmetic::div_mod::lemma_small_mod;

verus! {

/// The field modulus: a prime p with p - 1 = 2^3 * 5.
pub const MODULUS: u64 = 41;

/// Sum of residues.
pub open spec fn fadd(a: nat, b: nat) -> nat {
    (a + b) % 41
}

/// Additive inverse of a residue.
pub open spec fn fneg(a: nat) -> nat {
    (((41 - a as int) % 41) as nat)
}

/// Difference of residues.
pub open spec fn fsub(a: nat, b: nat) -> nat {
    fadd(a, fneg(b))
}

/// Product of residues.
pub open spec fn fmul(a: nat, b: nat) -> nat {
    (a * b) % 41
}

/// Power of a residue, by repeated multiplication.
pub open spec fn fpow(b: nat, e: nat) -> nat
    decreases e,
{
    if e == 0 {
        1
    } else {
        fmul(b, fpow(b, (e - 1) as nat))
    }
}

/// Multiplicative inverse via Fermat's little theorem: a^(p-2).
pub open spec fn finv(a: nat) -> nat {
    fpow(a, 39)
}

/// A field element: a residue modulo 41.
#[derive(Clone, Copy, PartialEq, Eq, Structural, Hash, Debug)]
pub struct Fp {
    val: u64,
}

impl Fp {
    /// The residue an element stands for.
    pub closed spec fn v(self) -> nat {
        self.val as nat
    }

    /// Elements always hold a reduced residue.
    #[verifier::type_invariant]
    pub open spec fn reduced(self) -> bool {
        self.v() < 41
    }

    /// Build an element from an arbitrary integer, reducing it.
    pub fn new(x: u64) -> (r: Fp)
        ensures
            r.v() == x as nat % 41,
    {
        Fp { val: x % 41 }
    }

    /// The additive identity.
    pub fn zero() -> (r: Fp)
        ensures
            r.v() == 0,
    {
        Fp { val: 0 }
    }

    /// The multiplicative identity.
    pub fn one() -> (r: Fp)
        ensures
            r.v() == 1,
    {
        Fp { val: 1 }
    }

    /// The residue as a machine integer.
    pub fn value(self) -> (r: u64)
        ensures
            r == self.v(),
    {
        self.val
    }

    /// Whether this is the additive identity.
    pub fn is_zero(self) -> (r: bool)
        ensures
            r <==> self.v() == 0,
    {
        self.val == 0
    }

    /// Whether this is the multiplicative identity.
    pub fn is_one(self) -> (r: bool)
        ensures
            r <==> self.v() == 1,
    {
        self.val == 1
    }

    /// Field addition.
    pub fn add(self, rhs: Fp) -> (r: Fp)
        ensures
            r.v() == fadd(self.v(), rhs.v()),
    {
        proof {
            use_type_invariant(self);
            use_type_invariant(rhs);
        }
        Fp { val: (self.val + rhs.val) % 41 }
    }

    /// Field negation.
    pub fn neg(self) -> (r: Fp)
        ensures
            r.v() == fneg(self.v()),
    {
        proof {
            use_type_invariant(self);
        }
        Fp { val: (41 - self.val) % 41 }
    }

    /// Field subtraction.
    pub fn sub(self, rhs: Fp) -> (r: Fp)
        ensures
            r.v() == fsub(self.v(), rhs.v()),
    {
        self.add(rhs.neg())
    }

    /// Field multiplication.
    pub fn mul(self, rhs: Fp) -> (r: Fp)
        ensures
            r.v() == fmul(self.v(), rhs.v()),
    {
        proof {
            use_type_invariant(self);
            use_type_invariant(rhs);
            assert(self.val * rhs.val <= 40 * 40) by (nonlinear_arith)
                requires
                    self.val < 41 && rhs.val < 41,
            ;
        }
        Fp { val: (self.val * rhs.val) % 41 }
    }

    /// Field exponentiation by repeated multiplication.
    pub fn pow(self, e: u64) -> (r: Fp)
        ensures
            r.v() == fpow(self.v(), e as nat),
    {
        let mut acc = Fp::one();
        let mut i: u64 = 0;
        while i < e
            invariant
                i <= e,
                acc.v() == fpow(self.v(), i as nat),
            decreases e - i,
        {
            proof {
                lemma_fpow_unfold_right(self.v(), i as nat);
            }
            acc = acc.mul(self);
            i = i + 1;
        }
        acc
    }

    /// Multiplicative inverse: `a^(p-2)`, which is 0 for the zero element.
    pub fn inverse(self) -> (r: Fp)
        ensures
            r.v() == finv(self.v()),
    {
        self.pow(39)
    }
}

/// Multiplying by one on the left changes nothing.
pub proof fn lemma_fmul_one(a: nat)
    requires
        a < 41,
    ensures
        fmul(1, a) == a,
        fmul(a, 1) == a,
{
    lemma_small_mod(a, 41);
}

/// Residue multiplication is commutative.
pub proof fn lemma_fmul_comm(a: nat, b: nat)
    ensures
        fmul(a, b) == fmul(b, a),
{
    assert(a * b == b * a) by (nonlinear_arith);
}

/// Residue multiplication is associative.
pub proof fn lemma_fmul_assoc(a: nat, b: nat, c: nat)
    ensures
        fmul(fmul(a, b), c) == fmul(a, fmul(b, c)),
{
    lemma_mul_mod_noop_left((a * b) as int, c as int, 41);
    lemma_mul_mod_noop_right(a as int, (b * c) as int, 41);
    assert((a * b) * c == a * (b * c)) by (nonlinear_arith);
}

/// Powers can also be peeled off on the right.
pub proof fn lemma_fpow_unfold_right(b: nat, e: nat)
    ensures
        fpow(b, e + 1) == fmul(fpow(b, e), b),
    decreases e,
{
    if e == 0 {
        assert(fpow(b, 0) == 1);
        assert(fpow(b, 1) == fmul(b, fpow(b, 0)));
        assert(fmul(b, 1) == fmul(1, b)) by (nonlinear_arith);
    } else {
        lemma_fpow_unfold_right(b, (e - 1) as nat);
        lemma_fmul_assoc(b, fpow(b, (e - 1) as nat), b);
    }
}

/// Powers of a residue stay reduced (for a positive exponent).
pub proof fn lemma_fpow_reduced(b: nat, e: nat)
    requires
        b < 41 || e > 0,
    ensures
        fpow(b, e) < 41,
{
    if e == 0 {
    } else {
        assert(fpow(b, e) == fmul(b, fpow(b, (e - 1) as nat)));
    }
}

/// Exponents add: `b^(m+n) == b^m * b^n`.
pub proof fn lemma_fpow_add(b: nat, m: nat, n: nat)
    ensures
        fpow(b, m + n) == fmul(fpow(b, m), fpow(b, n)),
    decreases m,
{
    if m == 0 {
        if n == 0 {
            assert(fmul(1, 1) == 1) by (nonlinear_arith);
        } else {
            lemma_fpow_reduced(b, n);
            lemma_fmul_one(fpow(b, n));
        }
    } else {
        lemma_fpow_add(b, (m - 1) as nat, n);
        assert(fpow(b, m + n) == fmul(b, fpow(b, (m + n - 1) as nat)));
        lemma_fmul_assoc(b, fpow(b, (m - 1) as nat), fpow(b, n));
    }
}

/// Powers of powers multiply the exponents: `(b^m)^n == b^(m*n)`.
pub proof fn lemma_fpow_pow(b: nat, m: nat, n: nat)
    ensures
        fpow(fpow(b, m), n) == fpow(b, m * n),
    decreases n,
{
    if n == 0 {
    } else {
        lemma_fpow_pow(b, m, (n - 1) as nat);
        assert(fpow(fpow(b, m), n) == fmul(fpow(b, m), fpow(fpow(b, m), (n - 1) as nat)));
        lemma_fpow_add(b, m, m * (n - 1) as nat);
        assert(m + m * ((n - 1) as nat) == m * n) by (nonlinear_arith)
            requires
                n >= 1,
        ;
    }
}

/// The base of a power distributes over a product: `(a*b)^n == a^n * b^n`.
pub proof fn lemma_fpow_base_mul(a: nat, b: nat, n: nat)
    ensures
        fpow(fmul(a, b), n) == fmul(fpow(a, n), fpow(b, n)),
    decreases n,
{
    if n == 0 {
        assert(fmul(1, 1) == 1) by (nonlinear_arith);
    } else {
        let n1 = (n - 1) as nat;
        lemma_fpow_base_mul(a, b, n1);
        // (ab)^n = (ab) * (a^n1 * b^n1) = (a * a^n1) * (b * b^n1)
        assert(fpow(fmul(a, b), n) == fmul(fmul(a, b), fmul(fpow(a, n1), fpow(b, n1))));
        lemma_mul_mod_noop_left((a * b) as int, (fmul(fpow(a, n1), fpow(b, n1))) as int, 41);
        lemma_mul_mod_noop_right((a * b) as int, (fpow(a, n1) * fpow(b, n1)) as int, 41);
        assert(fmul(fmul(a, b), fmul(fpow(a, n1), fpow(b, n1))) == ((a * b) * (fpow(a, n1)
            * fpow(b, n1))) % 41);
        lemma_mul_mod_noop_left((a * fpow(a, n1)) as int, (b * fpow(b, n1)) as int, 41);
        lemma_mul_mod_noop_right((fmul(a, fpow(a, n1))) as int, (b * fpow(b, n1)) as int, 41);
        assert(fmul(fpow(a, n), fpow(b, n)) == ((a * fpow(a, n1)) * (b * fpow(b, n1))) % 41);
        assert((a * b) * (fpow(a, n1) * fpow(b, n1)) == (a * fpow(a, n1)) * (b * fpow(b, n1)))
            by (nonlinear_arith);
    }
}

/// Squaring, the cheap building block of the exhaustive Fermat check.
pub open spec fn fsq(x: nat) -> nat {
    fmul(x, x)
}

/// The 40th power written as a short addition chain, so that evaluating it
/// on a concrete residue costs only a handful of multiplications.
pub open spec fn pow40(a: nat) -> nat {
    fsq(fsq(fsq(fmul(a, fsq(fsq(a))))))
}

/// Machine-width twin of `fmul`, for the bit-vector solver.
pub open spec fn fmul16(a: u16, b: u16) -> u16 {
    ((a * b) % 41) as u16
}

/// Machine-width twin of `fsq`.
pub open spec fn fsq16(x: u16) -> u16 {
    fmul16(x, x)
}

/// Machine-width twin of `pow40`.
pub open spec fn pow40_16(a: u16) -> u16 {
    fsq16(fsq16(fsq16(fmul16(a, fsq16(fsq16(a))))))
}

/// Chained check that every nonzero residue up to `a` satisfies Fermat's
/// little theorem, evaluable by the bit-vector solver.
pub open spec fn flt_upto(a: u16) -> bool
    decreases a,
{
    if a == 0 {
        true
    } else {
        pow40_16(a) == 1 && flt_upto((a - 1) as u16)
    }
}

proof fn lemma_flt_upto_extract(n: u16, a: u16)
    requires
        flt_upto(n),
        1 <= a <= n,
    ensures
        pow40_16(a) == 1,
    decreases n,
{
    if a < n {
        lemma_flt_upto_extract((n - 1) as u16, a);
    }
}

/// The two checkers agree on reduced residues.
proof fn lemma_pow40_16(a: u16)
    requires
        a < 41,
    ensures
        pow40_16(a) as nat == pow40(a as nat),
{
    let an = a as nat;
    assert(fsq16(a) as nat == fsq(an));
    let x4: u16 = fsq16(fsq16(a));
    assert(x4 as nat == fsq(fsq(an)));
    let x5: u16 = fmul16(a, x4);
    assert(x5 as nat == fmul(an, fsq(fsq(an))));
    let x10: u16 = fsq16(x5);
    assert(x10 as nat == fsq(fmul(an, fsq(fsq(an)))));
    let x20: u16 = fsq16(x10);
    assert(x20 as nat == fsq(fsq(fmul(an, fsq(fsq(an))))));
    assert(fsq16(x20) as nat == fsq(fsq(fsq(fmul(an, fsq(fsq(an)))))));
}

/// Squaring a reduced residue is its second power.
proof fn lemma_fsq_is_pow2(x: nat)
    requires
        x < 41,
    ensures
        fsq(x) == fpow(x, 2),
        fsq(x) < 41,
{
    lemma_fmul_one(x);
    assert(fpow(x, 2) == fmul(x, fmul(x, fpow(x, 0)))) by {
        reveal_with_fuel(fpow, 3);
    };
}

/// The addition chain really computes the 40th power.
proof fn lemma_pow40(a: nat)
    requires
        a < 41,
    ensures
        pow40(a) == fpow(a, 40),
{
    lemma_fsq_is_pow2(a);
    lemma_fsq_is_pow2(fsq(a));
    lemma_fpow_pow(a, 2, 2);
    // a * a^4 == a^5
    let a4 = fsq(fsq(a));
    lemma_fpow_add(a, 1, 4);
    lemma_fmul_one(a);
    assert(fpow(a, 1) == fmul(a, fpow(a, 0)));
    let a5 = fmul(a, a4);
    assert(a5 == fpow(a, 5));
    assert(a5 < 41);
    lemma_fsq_is_pow2(a5);
    lemma_fpow_pow(a, 5, 2);
    lemma_fsq_is_pow2(fsq(a5));
    lemma_fpow_pow(a, 10, 2);
    lemma_fsq_is_pow2(fsq(fsq(a5)));
    lemma_fpow_pow(a, 20, 2);
}

/// Fermat's little theorem for the modulus 41: `a^40 == 1` for nonzero `a`.
#[verifier::rlimit(100)]
pub proof fn lemma_flt(a: nat)
    requires
        1 <= a < 41,
    ensures
        fpow(a, 40) == 1,
{
    assert(flt_upto(40)) by (bit_vector);
    lemma_flt_upto_extract(40, a as u16);
    lemma_pow40_16(a as u16);
    lemma_pow40(a);
}

/// The Fermat inverse really is a multiplicative inverse.
pub proof fn lemma_finv(a: nat)
    requires
        1 <= a < 41,
    ensures
        fmul(a, finv(a)) == 1,
        fmul(finv(a), a) == 1,
        1 <= finv(a) < 41,
{
    lemma_flt(a);
    assert(fpow(a, 40) == fmul(a, fpow(a, 39)));
    assert(fmul(a, finv(a)) == fmul(finv(a), a)) by (nonlinear_arith);
    lemma_fpow_reduced(a, 39);
    if finv(a) == 0 {
        assert(fmul(a, 0) == 0) by (nonlinear_arith);
    }
}

/// Inverses are unique: any product equal to one identifies the inverse.
pub proof fn lemma_inverse_unique(a: nat, x: nat)
    requires
        a < 41,
        x < 41,
        fmul(a, x) == 1,
    ensures
        1 <= a,
        x == finv(a),
{
    if a == 0 {
        assert(fmul(0, x) == 0) by (nonlinear_arith);
    }
    lemma_finv(a);
    // x = x * (a * inv a) = (x * a) * inv a = inv a
    lemma_fmul_one(x);
    lemma_fmul_assoc(x, a, finv(a));
    assert(fmul(x, a) == fmul(a, x)) by (nonlinear_arith);
    lemma_fmul_one(finv(a));
}

/// The field has no zero divisors.
pub proof fn lemma_no_zero_divisors(a: nat, b: nat)
    requires
        1 <= a < 41,
        b < 41,
        fmul(a, b) == 0,
    ensures
        b == 0,
{
    lemma_finv(a);
    // b = (inv a * a) * b = inv a * (a * b) = inv a * 0 = 0
    lemma_fmul_one(b);
    lemma_fmul_assoc(finv(a), a, b);
    assert(fmul(finv(a), 0) == 0) by (nonlinear_arith);
}

/// A power of a nonzero residue is nonzero.
pub proof fn lemma_fpow_nonzero(b: nat, e: nat)
    requires
        1 <= b < 41,
    ensures
        1 <= fpow(b, e) < 41,
    decreases e,
{
    if e == 0 {
    } else {
        lemma_fpow_nonzero(b, (e - 1) as nat);
        assert(fpow(b, e) == fmul(b, fpow(b, (e - 1) as nat)));
        if fpow(b, e) == 0 {
            lemma_no_zero_divisors(b, fpow(b, (e - 1) as nat));
        }
    }
}

/// Inversion distributes over products of nonzero residues.
pub proof fn lemma_finv_mul(a: nat, b: nat)
    requires
        1 <= a < 41,
        1 <= b < 41,
    ensures
        finv(fmul(a, b)) == fmul(finv(a), finv(b)),
{
    lemma_finv(a);
    lemma_finv(b);
    // (a*b) * (inv a * inv b) == (a * inv a) * (b * inv b) == 1
    lemma_fmul_assoc(fmul(a, b), finv(a), finv(b));
    lemma_fmul_assoc(a, b, finv(a));
    assert(fmul(b, finv(a)) == fmul(finv(a), b)) by (nonlinear_arith);
    lemma_fmul_assoc(a, finv(a), b);
    lemma_fmul_one(b);
    lemma_fmul_assoc(fmul(a, b), finv(a), finv(b));
    if fmul(a, b) == 0 {
        lemma_no_zero_divisors(a, b);
    }
    lemma_inverse_unique(fmul(a, b), fmul(finv(a), finv(b)));
}

/// Multiplication by a nonzero residue can be cancelled.
pub proof fn lemma_fmul_cancel(a: nat, x: nat, y: nat)
    requires
        1 <= a < 41,
        x < 41,
        y < 41,
        fmul(a, x) == fmul(a, y),
    ensures
        x == y,
{
    lemma_finv(a);
    // x = (inv a * a) * x = inv a * (a * x) = inv a * (a * y) = y
    lemma_fmul_one(x);
    lemma_fmul_one(y);
    lemma_fmul_assoc(finv(a), a, x);
    lemma_fmul_assoc(finv(a), a, y);
}

/// A product of nonzero residues is nonzero.
pub proof fn lemma_fmul_nonzero(a: nat, b: nat)
    requires
        1 <= a < 41,
        1 <= b < 41,
    ensures
        1 <= fmul(a, b) < 41,
{
    if fmul(a, b) == 0 {
        lemma_no_zero_divisors(a, b);
    }
}

/// Inversion is an involution on nonzero residues.
pub proof fn lemma_finv_finv(a: nat)
    requires
        1 <= a < 41,
    ensures
        finv(finv(a)) == a,
{
    lemma_finv(a);
    lemma_inverse_unique(finv(a), a);
}

/// Multiplying the inverse of a product by one factor yields the inverse of
/// the other: the single step behind batched inversion.
pub proof fn lemma_finv_peel(p: nat, a: nat)
    requires
        1 <= p < 41,
        1 <= a < 41,
    ensures
        fmul(finv(fmul(p, a)), p) == finv(a),
        fmul(finv(fmul(p, a)), a) == finv(p),
{
    lemma_finv_mul(p, a);
    lemma_finv(p);
    lemma_finv(a);
    let fp = finv(p);
    let fa = finv(a);
    // (fp * fa) * a == fp * (fa * a) == fp * 1 == fp
    lemma_fmul_assoc(fp, fa, a);
    assert(fmul(fa, a) == fmul(a, fa)) by (nonlinear_arith);
    lemma_fmul_one(fp);
    // (fp * fa) * p == (fa * fp) * p == fa * (fp * p) == fa * 1 == fa
    assert(fmul(fp, fa) == fmul(fa, fp)) by (nonlinear_arith);
    lemma_fmul_assoc(fa, fp, p);
    assert(fmul(fp, p) == fmul(p, fp)) by (nonlinear_arith);
    lemma_fmul_one(fa);
}

/// Negation commutes with multiplication.
pub proof fn lemma_fneg_mul(a: nat, b: nat)
    requires
        a < 41,
        b < 41,
    ensures
        fmul(fneg(a), b) == fneg(fmul(a, b)),
{
    vstd::arithmetic::div_mod::lemma_mul_mod_noop_left(41 - a as int, b as int, 41);
    assert((41 - a as int) * b == 41 * b - a * b) by (nonlinear_arith);
    vstd::arithmetic::div_mod::lemma_sub_mod_noop(41 * b as int, (a * b) as int, 41);
    vstd::arithmetic::div_mod::lemma_mod_multiples_basic(b as int, 41);
    assert(41 * b as int == b as int * 41) by (nonlinear_arith);
    // both sides now reduce to (0 - (a*b) % 41) % 41, up to adding the modulus
    vstd::arithmetic::div_mod::lemma_mod_add_multiples_vanish(0 - ((a * b) % 41) as int, 41);
}

/// A difference of reduced residues is zero only when they are equal.
pub proof fn lemma_fsub_eq_zero(a: nat, b: nat)
    requires
        a < 41,
        b < 41,
        fsub(a, b) == 0,
    ensures
        a == b,
{
    if b == 0 {
        assert(fneg(0) == 0);
        lemma_small_mod(a, 41);
    } else {
        lemma_small_mod((41 - b as int) as nat, 41);
        assert(fneg(b) == 41 - b);
        let d = (a + 41 - b as int) as nat;
        assert(fadd(a, fneg(b)) == d % 41);
        if d < 41 {
            lemma_small_mod(d, 41);
        } else {
            vstd::arithmetic::div_mod::lemma_mod_sub_multiples_vanish(d as int, 41);
            lemma_small_mod((d - 41) as nat, 41);
        }
    }
}

/// Residue addition is associative (on reduced residues).
pub proof fn lemma_fadd_assoc(a: nat, b: nat, c: nat)
    requires
        a < 41,
        b < 41,
        c < 41,
    ensures
        fadd(fadd(a, b), c) == fadd(a, fadd(b, c)),
{
    vstd::arithmetic::div_mod::lemma_add_mod_noop((a + b) as int, c as int, 41);
    vstd::arithmetic::div_mod::lemma_add_mod_noop(a as int, (b + c) as int, 41);
    lemma_small_mod(a, 41);
    lemma_small_mod(c, 41);
}

/// Multiplication distributes over addition.
pub proof fn lemma_fmul_fadd(a: nat, b: nat, c: nat)
    ensures
        fmul(a, fadd(b, c)) == fadd(fmul(a, b), fmul(a, c)),
{
    lemma_mul_mod_noop_right(a as int, (b + c) as int, 41);
    assert(a * (b + c) == a * b + a * c) by (nonlinear_arith);
    vstd::arithmetic::div_mod::lemma_add_mod_noop((a * b) as int, (a * c) as int, 41);
}

/// Subtracting a reduced residue from itself gives zero.
pub proof fn lemma_fsub_self(x: nat)
    requires
        x < 41,
    ensures
        fsub(x, x) == 0,
{
    vstd::arithmetic::div_mod::lemma_mod_self_0(41);
    if x == 0 {
        lemma_small_mod(0, 41);
    } else {
        lemma_small_mod((41 - x as int) as nat, 41);
    }
}

/// Multiplication distributes over subtraction of reduced residues.
pub proof fn lemma_fmul_fsub(a: nat, x: nat, y: nat)
    requires
        a < 41,
        y < 41,
    ensures
        fmul(a, fsub(x, y)) == fsub(fmul(a, x), fmul(a, y)),
{
    lemma_fmul_fadd(a, x, fneg(y));
    lemma_fmul_comm(a, fneg(y));
    lemma_fneg_mul(y, a);
    lemma_fmul_comm(y, a);
}

/// Four-factor products can be re-paired.
pub proof fn lemma_fmul_ac4(a: nat, b: nat, c: nat, d: nat)
    ensures
        fmul(fmul(a, b), fmul(c, d)) == fmul(fmul(a, c), fmul(b, d)),
{
    lemma_fmul_assoc(a, b, fmul(c, d));
    lemma_fmul_assoc(b, c, d);
    lemma_fmul_comm(b, c);
    lemma_fmul_assoc(c, b, d);
    lemma_fmul_assoc(a, c, fmul(b, d));
}

/// Four reduced terms can be re-paired in a sum.
pub proof fn lemma_fadd_ac4(a: nat, b: nat, c: nat, d: nat)
    requires
        a < 41,
        b < 41,
        c < 41,
        d < 41,
    ensures
        fadd(fadd(a, b), fadd(c, d)) == fadd(fadd(a, d), fadd(c, b)),
{
    lemma_fadd_assoc(a, b, fadd(c, d));
    lemma_fadd_assoc(b, c, d);
    assert(fadd(b, c) == fadd(c, b));
    lemma_fadd_assoc(c, b, d);
    assert(fadd(b, d) == fadd(d, b));
    lemma_fadd_assoc(c, d, b);
    assert(fadd(fadd(c, d), b) == fadd(b, fadd(c, d)));
    lemma_fadd_assoc(a, d, fadd(c, b));
    lemma_fadd_assoc(d, c, b);
    assert(fadd(d, c) == fadd(c, d));
}

} // verus!
