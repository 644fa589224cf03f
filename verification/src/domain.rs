//! Evaluation domains: multiplicative subgroups (optionally shifted into a
//! coset) used as sets of polynomial evaluation points.
//!
//! `DomainCore` carries the defining parameters of a domain — size, subgroup
//! generator, coset offset, and their inverses — together with every shared
//! domain algorithm: the transforms between coefficient and evaluation form,
//! batched Lagrange-coefficient evaluation, vanishing-polynomial evaluation,
//! power redistribution, subgroup re-indexing, pointwise multiplication and
//! element enumeration.  The concrete strategies (`Radix2EvaluationDomain`,
//! `MixedRadixEvaluationDomain`) choose admissible sizes and generators, and
//! `GeneralEvaluationDomain` dispatches between them.

use vstd::prelude::*;
use crate::field::{
    Fp, fadd, fneg, fsub, fmul, fpow, finv, lemma_fmul_one, lemma_fmul_assoc,
    lemma_fpow_unfold_right, lemma_fpow_reduced, lemma_fpow_add, lemma_fpow_pow,
    lemma_fpow_base_mul, lemma_finv, lemma_inverse_unique,
    lemma_no_zero_divisors, lemma_fpow_nonzero, lemma_finv_mul, lemma_fmul_cancel,
    lemma_fmul_nonzero, lemma_finv_finv, lemma_finv_peel, lemma_fneg_mul, lemma_fsub_eq_zero,
    lemma_fadd_assoc, lemma_fmul_fadd, lemma_fmul_comm, lemma_fsub_self, lemma_fmul_fsub,
    lemma_fmul_ac4, lemma_fadd_ac4,
};
use vstd::arithmetic::div_mod::lemma_small_mod;
use vstd::arithmetic::div_mod::lemma_mod_self_0;

verus! {

/// No positive power of `g` below `k` is the identity.
pub open spec fn no_small_power(g: nat, k: nat) -> bool
    decreases k,
{
    if k <= 1 {
        true
    } else {
        fpow(g, (k - 1) as nat) != 1 && no_small_power(g, (k - 1) as nat)
    }
}

/// Extract a single instance from the chained `no_small_power` check.
pub proof fn lemma_no_small_power_extract(g: nat, k: nat, j: nat)
    requires
        no_small_power(g, k),
        1 <= j < k,
    ensures
        fpow(g, j) != 1,
    decreases k,
{
    if j < k - 1 {
        lemma_no_small_power_extract(g, (k - 1) as nat, j);
    }
}

/// The identity raised to any power stays the identity.
pub proof fn lemma_fpow_one_base(e: nat)
    ensures
        fpow(1, e) == 1,
    decreases e,
{
    if e > 0 {
        lemma_fpow_one_base((e - 1) as nat);
        assert(fmul(1, 1) == 1) by (nonlinear_arith);
    }
}

/// Zero raised to a positive power stays zero.
pub proof fn lemma_fpow_zero_base(e: nat)
    requires
        e >= 1,
    ensures
        fpow(0, e) == 0,
{
    assert(fpow(0, e) == fmul(0, fpow(0, (e - 1) as nat)));
    assert(fmul(0, fpow(0, (e - 1) as nat)) == 0) by (nonlinear_arith);
}

/// The defining parameters of an evaluation domain, with the shared domain
/// algorithms.  A value of this type always describes a genuine domain: the
/// generator has multiplicative order exactly `size`, the stored inverses
/// invert what they claim to, and the offset is nonzero.
#[derive(Clone, Copy, PartialEq, Eq, Structural, Hash, Debug)]
pub struct DomainCore {
    size: u64,
    log_size_of_group: u32,
    size_inv: Fp,
    group_gen: Fp,
    group_gen_inv: Fp,
    offset: Fp,
    offset_inv: Fp,
    offset_pow_size: Fp,
}

impl DomainCore {
    /// The number of domain elements.
    pub closed spec fn size_spec(self) -> nat {
        self.size as nat
    }

    /// The stored base-2 logarithm of the power-of-two part of the size.
    pub closed spec fn log_size_spec(self) -> nat {
        self.log_size_of_group as nat
    }

    /// The subgroup generator's residue.
    pub closed spec fn gen_spec(self) -> nat {
        self.group_gen.v()
    }

    /// The stored inverse of the generator.
    pub closed spec fn gen_inv_spec(self) -> nat {
        self.group_gen_inv.v()
    }

    /// The coset offset's residue.
    pub closed spec fn offset_spec(self) -> nat {
        self.offset.v()
    }

    /// The stored inverse of the offset.
    pub closed spec fn offset_inv_spec(self) -> nat {
        self.offset_inv.v()
    }

    /// The stored `offset^size`.
    pub closed spec fn offset_pow_size_spec(self) -> nat {
        self.offset_pow_size.v()
    }

    /// The stored inverse of the size as a field element.
    pub closed spec fn size_inv_spec(self) -> nat {
        self.size_inv.v()
    }

    /// What it means for the parameters to describe a domain.  Values of
    /// this type are well formed by construction.
    #[verifier::type_invariant]
    pub open spec fn wf(self) -> bool {
        &&& 1 <= self.size_spec() <= 40
        &&& self.gen_spec() < 41
        &&& self.gen_inv_spec() < 41
        &&& self.offset_spec() < 41
        &&& self.offset_inv_spec() < 41
        &&& self.offset_pow_size_spec() < 41
        &&& self.size_inv_spec() < 41
        &&& fpow(self.gen_spec(), self.size_spec()) == 1
        &&& no_small_power(self.gen_spec(), self.size_spec())
        &&& fmul(self.gen_spec(), self.gen_inv_spec()) == 1
        &&& self.offset_spec() != 0
        &&& fmul(self.offset_spec(), self.offset_inv_spec()) == 1
        &&& self.offset_pow_size_spec() == fpow(self.offset_spec(), self.size_spec())
        &&& fmul(self.size_spec(), self.size_inv_spec()) == 1
    }

    /// The `i`-th domain element as a residue: `offset * gen^i`.
    pub open spec fn elem_spec(self, i: nat) -> nat {
        fmul(self.offset_spec(), fpow(self.gen_spec(), i))
    }

    /// The vanishing polynomial evaluated at `t`: `t^size - offset^size`.
    pub open spec fn vanish_spec(self, t: nat) -> nat {
        fsub(fpow(t, self.size_spec()), fpow(self.offset_spec(), self.size_spec()))
    }

    /// Return the size of the domain.
    pub fn size(&self) -> (r: u64)
        ensures
            r == self.size_spec(),
    {
        self.size
    }

    /// Return the size as a field element.
    pub fn size_as_field_element(&self) -> (r: Fp)
        ensures
            r.v() == self.size_spec(),
    {
        proof {
            use_type_invariant(self);
        }
        Fp::new(self.size)
    }

    /// Return the base-2 logarithm of the power-of-two part of the size.
    pub fn log_size_of_group(&self) -> (r: u32)
        ensures
            r == self.log_size_spec(),
    {
        self.log_size_of_group
    }

    /// Return the inverse of the size as a field element.
    pub fn size_inv(&self) -> (r: Fp)
        ensures
            r.v() == self.size_inv_spec(),
    {
        self.size_inv
    }

    /// Return the generator of the subgroup backing this domain.
    pub fn group_gen(&self) -> (r: Fp)
        ensures
            r.v() == self.gen_spec(),
    {
        self.group_gen
    }

    /// Return the inverse of the generator.
    pub fn group_gen_inv(&self) -> (r: Fp)
        ensures
            r.v() == self.gen_inv_spec(),
    {
        self.group_gen_inv
    }

    /// Return the coset offset.
    pub fn coset_offset(&self) -> (r: Fp)
        ensures
            r.v() == self.offset_spec(),
    {
        self.offset
    }

    /// Return the inverse of the coset offset.
    pub fn coset_offset_inv(&self) -> (r: Fp)
        ensures
            r.v() == self.offset_inv_spec(),
    {
        self.offset_inv
    }

    /// Return `offset^size`.
    pub fn coset_offset_pow_size(&self) -> (r: Fp)
        ensures
            r.v() == self.offset_pow_size_spec(),
    {
        self.offset_pow_size
    }

    /// Return the `i`-th element of the domain, `offset * gen^i`.
    pub fn element(&self, i: u64) -> (r: Fp)
        ensures
            r.v() == self.elem_spec(i as nat),
    {
        proof {
            use_type_invariant(self);
        }
        let p = self.group_gen.pow(i);
        if !self.offset.is_one() {
            self.offset.mul(p)
        } else {
            proof {
                lemma_fpow_reduced(self.gen_spec(), i as nat);
                lemma_fmul_one(fpow(self.gen_spec(), i as nat));
            }
            p
        }
    }

    /// Evaluate the vanishing polynomial of the domain at `tau`.
    pub fn evaluate_vanishing_polynomial(&self, tau: Fp) -> (r: Fp)
        ensures
            r.v() == self.vanish_spec(tau.v()),
    {
        proof {
            use_type_invariant(self);
        }
        tau.pow(self.size).sub(self.offset_pow_size)
    }

    /// The vanishing polynomial `X^size - offset^size` as a sparse list of
    /// `(degree, coefficient)` pairs.
    pub fn vanishing_polynomial(&self) -> (r: Vec<(u64, Fp)>)
        ensures
            r@.len() == 2,
            r@[0].0 == 0 && r@[0].1.v() == fneg(fpow(self.offset_spec(), self.size_spec())),
            r@[1].0 == self.size_spec() && r@[1].1.v() == 1,
    {
        proof {
            use_type_invariant(self);
        }
        let mut r: Vec<(u64, Fp)> = Vec::new();
        r.push((0, self.offset_pow_size.neg()));
        r.push((self.size, Fp::one()));
        r
    }

    /// Multiply the `i`-th element of `coeffs` by `g^i`, in place.
    pub fn distribute_powers(coeffs: &mut Vec<Fp>, g: Fp)
        ensures
            final(coeffs)@.len() == old(coeffs)@.len(),
            forall|i: int|
                0 <= i < old(coeffs)@.len() ==> final(coeffs)@[i].v() == fmul(
                    old(coeffs)@[i].v(),
                    fpow(g.v(), i as nat),
                ),
    {
        Self::distribute_powers_and_mul_by_const(coeffs, g, Fp::one());
        proof {
            use_type_invariant(g);
            assert forall|i: int| 0 <= i < old(coeffs)@.len() implies final(coeffs)@[i].v()
                == fmul(old(coeffs)@[i].v(), fpow(g.v(), i as nat)) by {
                lemma_fpow_reduced(g.v(), i as nat);
                lemma_fmul_one(fpow(g.v(), i as nat));
            }
        }
    }

    /// Multiply the `i`-th element of `coeffs` by `c * g^i`, in place.
    pub fn distribute_powers_and_mul_by_const(coeffs: &mut Vec<Fp>, g: Fp, c: Fp)
        ensures
            final(coeffs)@.len() == old(coeffs)@.len(),
            forall|i: int|
                0 <= i < old(coeffs)@.len() ==> final(coeffs)@[i].v() == fmul(
                    old(coeffs)@[i].v(),
                    fmul(c.v(), fpow(g.v(), i as nat)),
                ),
    {
        let ghost orig = coeffs@;
        proof {
            use_type_invariant(c);
            lemma_fmul_one(c.v());
        }
        let mut pow = c;
        let mut j: usize = 0;
        while j < coeffs.len()
            invariant
                coeffs@.len() == orig.len(),
                j <= orig.len(),
                pow.v() == fmul(c.v(), fpow(g.v(), j as nat)),
                forall|k: int|
                    0 <= k < j ==> coeffs@[k].v() == fmul(
                        orig[k].v(),
                        fmul(c.v(), fpow(g.v(), k as nat)),
                    ),
                forall|k: int| j <= k < orig.len() ==> coeffs@[k] == orig[k],
            decreases orig.len() - j,
        {
            let v = coeffs[j].mul(pow);
            coeffs.set(j, v);
            proof {
                lemma_fmul_assoc(c.v(), fpow(g.v(), j as nat), g.v());
                lemma_fpow_unfold_right(g.v(), j as nat);
            }
            pow = pow.mul(g);
            j = j + 1;
        }
    }


    /// As `distribute_powers_and_mul_by_const`, but walking the buffer in
    /// contiguous chunks, recomputing each chunk's starting scalar
    /// analytically from its absolute start index — the shape a
    /// work-sharing implementation takes.  The contract is identical to the
    /// sequential one: the partitioning cannot show in the result.
    pub fn distribute_powers_chunked(coeffs: &mut Vec<Fp>, g: Fp, c: Fp, chunk_size: usize)
        requires
            chunk_size >= 1,
        ensures
            final(coeffs)@.len() == old(coeffs)@.len(),
            forall|i: int|
                0 <= i < old(coeffs)@.len() ==> final(coeffs)@[i].v() == fmul(
                    old(coeffs)@[i].v(),
                    fmul(c.v(), fpow(g.v(), i as nat)),
                ),
    {
        let ghost orig = coeffs@;
        let mut start: usize = 0;
        while start < coeffs.len()
            invariant
                coeffs@.len() == orig.len(),
                chunk_size >= 1,
                forall|k: int|
                    0 <= k < start && k < orig.len() ==> #[trigger] coeffs@[k].v() == fmul(
                        orig[k].v(),
                        fmul(c.v(), fpow(g.v(), k as nat)),
                    ),
                forall|k: int| start <= k < orig.len() ==> #[trigger] coeffs@[k] == orig[k],
            decreases orig.len() - start,
        {
            let end = if coeffs.len() - start > chunk_size {
                start + chunk_size
            } else {
                coeffs.len()
            };
            let mut pow = c.mul(g.pow(start as u64));
            let mut j = start;
            proof {
                use_type_invariant(c);
                lemma_fmul_one(c.v());
            }
            while j < end
                invariant
                    coeffs@.len() == orig.len(),
                    start <= j <= end,
                    end <= orig.len(),
                    pow.v() == fmul(c.v(), fpow(g.v(), j as nat)),
                    forall|k: int|
                        0 <= k < j && k < orig.len() ==> #[trigger] coeffs@[k].v() == fmul(
                            orig[k].v(),
                            fmul(c.v(), fpow(g.v(), k as nat)),
                        ),
                    forall|k: int| j <= k < orig.len() ==> #[trigger] coeffs@[k] == orig[k],
                decreases end - j,
            {
                let v = coeffs[j].mul(pow);
                coeffs.set(j, v);
                proof {
                    lemma_fmul_assoc(c.v(), fpow(g.v(), j as nat), g.v());
                    lemma_fpow_unfold_right(g.v(), j as nat);
                }
                pow = pow.mul(g);
                j = j + 1;
            }
            start = end;
        }
    }

    /// Compute the forward transform: the evaluations of the polynomial with
    /// the given coefficients at every domain element, in index order.
    /// Shorter coefficient vectors behave as if zero-padded to the size.
    pub fn fft(&self, coeffs: &Vec<Fp>) -> (r: Vec<Fp>)
        requires
            coeffs@.len() <= self.size_spec(),
        ensures
            r@.len() == self.size_spec(),
            forall|j: int|
                0 <= j < self.size_spec() ==> r@[j].v() == poly_eval(
                    vals(coeffs@),
                    self.elem_spec(j as nat),
                ),
    {
        proof {
            use_type_invariant(self);
        }
        let mut r: Vec<Fp> = Vec::new();
        let mut j: u64 = 0;
        while j < self.size
            invariant
                j <= self.size_spec(),
                r@.len() == j,
                forall|k: int|
                    0 <= k < j ==> r@[k].v() == poly_eval(vals(coeffs@), self.elem_spec(k as nat)),
            decreases self.size - j,
        {
            let x = self.element(j);
            r.push(evaluate_polynomial(coeffs, x));
            j = j + 1;
        }
        r
    }

    /// Forward transform in place; afterwards the buffer holds exactly
    /// `size` evaluations.
    pub fn fft_in_place(&self, coeffs: &mut Vec<Fp>)
        requires
            old(coeffs)@.len() <= self.size_spec(),
        ensures
            final(coeffs)@.len() == self.size_spec(),
            forall|j: int|
                0 <= j < self.size_spec() ==> final(coeffs)@[j].v() == poly_eval(
                    vals(old(coeffs)@),
                    self.elem_spec(j as nat),
                ),
    {
        let r = self.fft(coeffs);
        *coeffs = r;
    }

    /// The `i`-th coefficient recovered from evaluations `e`:
    /// `size_inv * offset_inv^i * e(gen_inv^i)`.
    pub open spec fn idft_spec(self, e: Seq<nat>, i: nat) -> nat {
        fmul(
            self.size_inv_spec(),
            fmul(fpow(self.offset_inv_spec(), i), poly_eval(e, fpow(self.gen_inv_spec(), i))),
        )
    }

    /// Compute the inverse transform: the coefficients of the unique
    /// polynomial of degree below `size` taking the given values on the
    /// domain.  Shorter vectors behave as if zero-padded to the size.
    pub fn ifft(&self, evals: &Vec<Fp>) -> (r: Vec<Fp>)
        requires
            evals@.len() <= self.size_spec(),
        ensures
            r@.len() == self.size_spec(),
            forall|i: int|
                0 <= i < self.size_spec() ==> r@[i].v() == self.idft_spec(vals(evals@), i as nat),
    {
        proof {
            use_type_invariant(self);
        }
        let mut r: Vec<Fp> = Vec::new();
        let mut i: u64 = 0;
        while i < self.size
            invariant
                i <= self.size_spec(),
                r@.len() == i,
                forall|k: int|
                    0 <= k < i ==> r@[k].v() == self.idft_spec(vals(evals@), k as nat),
            decreases self.size - i,
        {
            let x = self.group_gen_inv.pow(i);
            let p = evaluate_polynomial(evals, x);
            let t = self.offset_inv.pow(i);
            r.push(self.size_inv.mul(t.mul(p)));
            i = i + 1;
        }
        r
    }

    /// Inverse transform in place; afterwards the buffer holds exactly
    /// `size` coefficients.
    pub fn ifft_in_place(&self, evals: &mut Vec<Fp>)
        requires
            old(evals)@.len() <= self.size_spec(),
        ensures
            final(evals)@.len() == self.size_spec(),
            forall|i: int|
                0 <= i < self.size_spec() ==> final(evals)@[i].v() == self.idft_spec(
                    vals(old(evals)@),
                    i as nat,
                ),
    {
        let r = self.ifft(evals);
        *evals = r;
    }

    /// Pointwise product of two equal-length evaluation vectors.  The result
    /// interpolates the product polynomial only when that product's degree
    /// stays below the domain size, which is the caller's responsibility.
    pub fn mul_polynomials_in_evaluation_domain(
        &self,
        self_evals: &Vec<Fp>,
        other_evals: &Vec<Fp>,
    ) -> (r: Vec<Fp>)
        requires
            self_evals@.len() == other_evals@.len(),
        ensures
            r@.len() == self_evals@.len(),
            forall|i: int|
                0 <= i < r@.len() ==> r@[i].v() == fmul(self_evals@[i].v(), other_evals@[i].v()),
    {
        let mut r: Vec<Fp> = Vec::new();
        let mut i: usize = 0;
        while i < self_evals.len()
            invariant
                i <= self_evals@.len(),
                self_evals@.len() == other_evals@.len(),
                r@.len() == i,
                forall|k: int|
                    0 <= k < i ==> r@[k].v() == fmul(self_evals@[k].v(), other_evals@[k].v()),
            decreases self_evals@.len() - i,
        {
            r.push(self_evals[i].mul(other_evals[i]));
            i = i + 1;
        }
        r
    }

    /// Map an index that treats the first `other.size()` positions as the
    /// elements of the subdomain `other` to the actual index of the same
    /// element in this domain: subdomain elements occupy every `period`-th
    /// slot, and the remaining elements fill the gaps in order.
    pub fn reindex_by_subdomain(&self, other: &DomainCore, index: u64) -> (r: u64)
        requires
            other.size_spec() <= self.size_spec(),
            self.size_spec() % other.size_spec() == 0,
            index < self.size_spec(),
        ensures
            r == reindex_spec(self.size_spec(), other.size_spec(), index as nat),
    {
        proof {
            use_type_invariant(self);
            use_type_invariant(other);
        }
        let period = self.size / other.size;
        if index < other.size {
            proof {
                assert(index * period <= 40 * 40) by (nonlinear_arith)
                    requires
                        index <= 40 && period <= 40,
                ;
            }
            index * period
        } else {
            proof {
                vstd::arithmetic::div_mod::lemma_fundamental_div_mod(
                    self.size as int,
                    other.size as int,
                );
                assert(period >= 2) by (nonlinear_arith)
                    requires
                        self.size_spec() == period * other.size_spec(),
                        self.size_spec() > other.size_spec(),
                        other.size_spec() >= 1,
                ;
            }
            let i = index - other.size;
            let x = period - 1;
            i + (i / x) + 1
        }
    }

    /// Sample a field element at which the vanishing polynomial of this
    /// domain is nonzero, by rejection sampling.  Should the bounded number
    /// of draws all land inside the domain, the zero element is returned:
    /// a coset of a multiplicative subgroup never contains zero.
    pub fn sample_element_outside_domain(&self) -> (r: Fp)
        ensures
            self.vanish_spec(r.v()) != 0,
    {
        let mut tries: u64 = 0;
        while tries < 128
            invariant
                true,
            decreases 128 - tries,
        {
            let t = Fp::new(random_u64());
            let z = self.evaluate_vanishing_polynomial(t);
            if !z.is_zero() {
                return t;
            }
            tries = tries + 1;
        }
        proof {
            use_type_invariant(self);
            lemma_fpow_zero_base(self.size_spec());
            lemma_fpow_nonzero(self.offset_spec(), self.size_spec());
            let x = fpow(self.offset_spec(), self.size_spec());
            vstd::arithmetic::div_mod::lemma_small_mod((41 - x) as nat, 41);
            assert(self.vanish_spec(0) == fadd(0, fneg(x)));
            vstd::arithmetic::div_mod::lemma_small_mod(fneg(x), 41);
        }
        Fp::zero()
    }

    /// Return a fresh cursor over the domain elements, starting at index 0.
    pub fn elements(&self) -> (e: Elements)
        ensures
            e.idx_spec() == 0,
            e.size_spec() == self.size_spec(),
            e.offset_spec() == self.offset_spec(),
            e.gen_spec() == self.gen_spec(),
    {
        proof {
            use_type_invariant(self);
            lemma_fmul_one(self.offset_spec());
        }
        Elements {
            offset: self.offset,
            group_gen: self.group_gen,
            cur: self.offset,
            index: 0,
            size: self.size,
        }
    }

    /// Shift this domain by a nonzero coset offset, keeping size and
    /// generator.  A zero offset would collapse every element to zero, so
    /// it is rejected.
    pub fn get_coset(&self, offset: Fp) -> (r: Option<DomainCore>)
        ensures
            offset.v() == 0 <==> r is None,
            r matches Some(d) ==> {
                &&& d.size_spec() == self.size_spec()
                &&& d.log_size_spec() == self.log_size_spec()
                &&& d.gen_spec() == self.gen_spec()
                &&& d.gen_inv_spec() == self.gen_inv_spec()
                &&& d.size_inv_spec() == self.size_inv_spec()
                &&& d.offset_spec() == offset.v()
                &&& d.offset_inv_spec() == finv(offset.v())
                &&& d.offset_pow_size_spec() == fpow(offset.v(), self.size_spec())
            },
    {
        if offset.is_zero() {
            return None;
        }
        proof {
            use_type_invariant(self);
            use_type_invariant(offset);
            lemma_finv(offset.v());
            lemma_fpow_reduced(offset.v(), self.size_spec());
        }
        let offset_inv = offset.inverse();
        let offset_pow_size = offset.pow(self.size);
        Some(
            DomainCore {
                size: self.size,
                log_size_of_group: self.log_size_of_group,
                size_inv: self.size_inv,
                group_gen: self.group_gen,
                group_gen_inv: self.group_gen_inv,
                offset,
                offset_inv,
                offset_pow_size,
            },
        )
    }

    /// The first Lagrange scaling factor: `1 / (size * offset^(size-1))`.
    pub open spec fn lagrange_v0_spec(self) -> nat {
        finv(fmul(self.size_spec(), fpow(self.offset_spec(), (self.size_spec() - 1) as nat)))
    }

    /// The `i`-th Lagrange coefficient at a point `t` outside the domain:
    /// `Z_H(t) * v_0 * gen^i / (t - offset * gen^i)`.
    pub open spec fn lagrange_coeff_spec(self, t: nat, i: nat) -> nat {
        fmul(
            self.vanish_spec(t),
            fmul(
                fmul(self.lagrange_v0_spec(), fpow(self.gen_spec(), i)),
                finv(fsub(t, self.elem_spec(i))),
            ),
        )
    }

    /// Evaluate every Lagrange coefficient of the domain at the point `tau`.
    /// At a domain element the result is the matching indicator vector; at
    /// any other point each coefficient follows the closed Lagrange formula,
    /// computed with a single batched inversion pass.
    pub fn evaluate_all_lagrange_coefficients(&self, tau: Fp) -> (r: Vec<Fp>)
        ensures
            r@.len() == self.size_spec(),
            self.vanish_spec(tau.v()) == 0 ==> forall|i: int|
                0 <= i < r@.len() ==> r@[i].v() == (if self.elem_spec(i as nat) == tau.v() {
                    1nat
                } else {
                    0nat
                }),
            self.vanish_spec(tau.v()) != 0 ==> forall|i: int|
                0 <= i < r@.len() ==> r@[i].v() == self.lagrange_coeff_spec(tau.v(), i as nat),
    {
        proof {
            use_type_invariant(self);
            use_type_invariant(tau);
        }
        let size = self.size;
        let z = self.evaluate_vanishing_polynomial(tau);
        let ghost g = self.gen_spec();
        let ghost gi = self.gen_inv_spec();
        let ghost h = self.offset_spec();
        let ghost n = self.size_spec();
        let ghost tv = tau.v();
        if z.is_zero() {
            // tau is (at most) one domain element: indicator vector.
            let mut u: Vec<Fp> = Vec::new();
            let mut k: u64 = 0;
            while k < size
                invariant
                    u@.len() == k,
                    k <= size,
                    forall|t: int| 0 <= t < k ==> #[trigger] u@[t].v() == 0,
                decreases size - k,
            {
                u.push(Fp::zero());
                k = k + 1;
            }
            let mut omega = self.offset;
            proof {
                lemma_fmul_one(h);
            }
            let mut j: u64 = 0;
            while j < size
                invariant
                    self.wf(),
                    size == self.size_spec(),
                    tv == tau.v(),
                    tv < 41,
                    g == self.gen_spec(),
                    h == self.offset_spec(),
                    self.vanish_spec(tv) == 0,
                    j <= size,
                    u@.len() == size,
                    forall|t: int| 0 <= t < size ==> #[trigger] u@[t].v() == 0,
                    omega.v() == self.elem_spec(j as nat),
                    forall|t: int| 0 <= t < j ==> #[trigger] self.elem_spec(t as nat) != tv,
                decreases size - j,
            {
                if omega.value() == tau.value() {
                    u.set(j as usize, Fp::one());
                    proof {
                        assert forall|t: int|
                            0 <= t < size && t != j implies #[trigger] self.elem_spec(t as nat)
                            != tv by {
                            if t > j {
                                lemma_elements_distinct(*self, j as nat, t as nat);
                            }
                        }
                    }
                    return u;
                }
                proof {
                    lemma_fmul_assoc(h, fpow(g, j as nat), g);
                    lemma_fpow_unfold_right(g, j as nat);
                }
                omega = omega.mul(self.group_gen);
                j = j + 1;
            }
            u
        } else {
            // General path: compute the inverted coefficients, then invert
            // them all with one batched inversion.
            let v0inv = self.size_as_field_element().mul(self.offset.pow(size - 1));
            let zinv = z.inverse();
            let mut l = zinv.mul(v0inv);
            let mut neg = self.offset.neg();
            let ghost zv = self.vanish_spec(tv);
            let ghost v0iv = fmul(n, fpow(h, (n - 1) as nat));
            let ghost lbase = fmul(finv(zv), v0iv);
            let mut w: Vec<Fp> = Vec::new();
            let mut i: u64 = 0;
            proof {
                lemma_fmul_one(lbase);
                lemma_fmul_one(h);
            }
            while i < size
                invariant
                    self.wf(),
                    size == self.size_spec(),
                    tv == tau.v(),
                    tv < 41,
                    g == self.gen_spec(),
                    gi == self.gen_inv_spec(),
                    h == self.offset_spec(),
                    n == self.size_spec(),
                    zv == self.vanish_spec(tv),
                    v0iv == fmul(n, fpow(h, (n - 1) as nat)),
                    lbase == fmul(finv(zv), v0iv),
                    i <= size,
                    w@.len() == i,
                    l.v() == fmul(lbase, fpow(gi, i as nat)),
                    neg.v() == fneg(self.elem_spec(i as nat)),
                    forall|t: int|
                        0 <= t < i ==> #[trigger] w@[t].v() == fmul(
                            fmul(lbase, fpow(gi, t as nat)),
                            fsub(tv, self.elem_spec(t as nat)),
                        ),
                decreases size - i,
            {
                let r_i = tau.add(neg);
                w.push(l.mul(r_i));
                proof {
                    lemma_fmul_assoc(lbase, fpow(gi, i as nat), gi);
                    lemma_fpow_unfold_right(gi, i as nat);
                    let ev = self.elem_spec(i as nat);
                    lemma_fneg_mul(ev, g);
                    lemma_fmul_assoc(h, fpow(g, i as nat), g);
                    lemma_fpow_unfold_right(g, i as nat);
                }
                l = l.mul(self.group_gen_inv);
                neg = neg.mul(self.group_gen);
                i = i + 1;
            }
            proof {
                if gi == 0 {
                    assert(fmul(g, 0) == 0) by (nonlinear_arith);
                }
                lemma_finv(zv);
                lemma_fpow_nonzero(h, (n - 1) as nat);
                lemma_fmul_nonzero(n, fpow(h, (n - 1) as nat));
                lemma_fmul_nonzero(finv(zv), v0iv);
                assert forall|t: int| 0 <= t < w@.len() implies #[trigger] w@[t].v() != 0 by {
                    lemma_fpow_nonzero(gi, t as nat);
                    lemma_fmul_nonzero(lbase, fpow(gi, t as nat));
                    let rv = fsub(tv, self.elem_spec(t as nat));
                    if rv == 0 {
                        lemma_fsub_eq_zero(tv, self.elem_spec(t as nat));
                        lemma_vanishing_at_element(*self, t as nat);
                    }
                    lemma_fmul_nonzero(fmul(lbase, fpow(gi, t as nat)), rv);
                }
            }
            batch_inversion(&mut w);
            proof {
                assert forall|t: int|
                    0 <= t < w@.len() implies #[trigger] w@[t].v() == self.lagrange_coeff_spec(
                    tv,
                    t as nat,
                ) by {
                    let tn = t as nat;
                    let lv = fmul(lbase, fpow(gi, tn));
                    let rv = fsub(tv, self.elem_spec(tn));
                    lemma_fpow_nonzero(gi, tn);
                    lemma_fmul_nonzero(lbase, fpow(gi, tn));
                    if rv == 0 {
                        lemma_fsub_eq_zero(tv, self.elem_spec(tn));
                        lemma_vanishing_at_element(*self, tn);
                    }
                    lemma_finv_mul(lv, rv);
                    lemma_finv_mul(lbase, fpow(gi, tn));
                    lemma_finv_mul(finv(zv), v0iv);
                    lemma_finv_finv(zv);
                    // finv(gen_inv^t) == gen^t
                    lemma_fpow_base_mul(g, gi, tn);
                    lemma_fpow_one_base(tn);
                    lemma_fpow_reduced(g, tn);
                    lemma_fpow_reduced(gi, tn);
                    lemma_inverse_unique(fpow(gi, tn), fpow(g, tn));
                    // regroup (((zv * v0) * g^t) * finv(rv)) as the spec form
                    let v0 = finv(v0iv);
                    lemma_fmul_assoc(zv, v0, fpow(g, tn));
                    lemma_fmul_assoc(zv, fmul(v0, fpow(g, tn)), finv(rv));
                }
            }
            w
        }
    }
}

/// Where the subdomain-aware re-indexing sends `index`: multiples of
/// `period = size / other_size` for subdomain positions, and the gaps in
/// between, in order, for the rest.
pub open spec fn reindex_spec(size: nat, other_size: nat, index: nat) -> nat {
    let period = size / other_size;
    if index < other_size {
        index * period
    } else {
        let i = (index - other_size) as nat;
        let x = (period - 1) as nat;
        i + i / x + 1
    }
}

/// A lazy, restartable producer of the domain elements `offset * gen^i`
/// for `i = 0 .. size`, in index order.
pub struct Elements {
    offset: Fp,
    group_gen: Fp,
    cur: Fp,
    index: u64,
    size: u64,
}

impl Elements {
    /// The index of the next element to be produced.
    pub closed spec fn idx_spec(self) -> nat {
        self.index as nat
    }

    /// How many elements the cursor produces in total.
    pub closed spec fn size_spec(self) -> nat {
        self.size as nat
    }

    /// The coset offset of the domain being enumerated.
    pub closed spec fn offset_spec(self) -> nat {
        self.offset.v()
    }

    /// The subgroup generator of the domain being enumerated.
    pub closed spec fn gen_spec(self) -> nat {
        self.group_gen.v()
    }

    /// The cursor tracks the running power of the generator.
    #[verifier::type_invariant]
    spec fn wf(self) -> bool {
        &&& self.idx_spec() <= self.size_spec()
        &&& self.cur.v() == fmul(self.offset_spec(), fpow(self.gen_spec(), self.idx_spec()))
    }

    /// Produce the next domain element, or nothing once all `size` elements
    /// have been produced.
    pub fn next(&mut self) -> (r: Option<Fp>)
        ensures
            final(self).offset_spec() == old(self).offset_spec(),
            final(self).gen_spec() == old(self).gen_spec(),
            final(self).size_spec() == old(self).size_spec(),
            old(self).idx_spec() < old(self).size_spec() ==> {
                &&& r matches Some(x) && x.v() == fmul(
                    old(self).offset_spec(),
                    fpow(old(self).gen_spec(), old(self).idx_spec()),
                )
                &&& final(self).idx_spec() == old(self).idx_spec() + 1
            },
            old(self).idx_spec() >= old(self).size_spec() ==> r is None && *final(self)
                == *old(self),
    {
        proof {
            use_type_invariant(&*self);
        }
        if self.index < self.size {
            let r = self.cur;
            proof {
                lemma_fmul_assoc(
                    self.offset_spec(),
                    fpow(self.gen_spec(), self.idx_spec()),
                    self.gen_spec(),
                );
                lemma_fpow_unfold_right(self.gen_spec(), self.idx_spec());
            }
            let stepped = self.cur.mul(self.group_gen);
            *self = Elements {
                offset: self.offset,
                group_gen: self.group_gen,
                cur: stepped,
                index: self.index + 1,
                size: self.size,
            };
            Some(r)
        } else {
            None
        }
    }
}

/// Relies on rand::random: draws a uniformly random 64-bit integer from the
/// thread-local generator.
#[verifier::external_body]
fn random_u64() -> u64 {
    rand::random::<u64>()
}

/// The vanishing polynomial is zero at every domain element: evaluating
/// `X^size - offset^size` at `offset * gen^i` gives zero, for any exponent.
pub proof fn lemma_vanishing_at_element(d: DomainCore, i: nat)
    requires
        d.wf(),
    ensures
        d.vanish_spec(d.elem_spec(i)) == 0,
{
    let g = d.gen_spec();
    let h = d.offset_spec();
    let n = d.size_spec();
    lemma_fpow_base_mul(h, fpow(g, i), n);
    lemma_fpow_pow(g, i, n);
    lemma_fpow_pow(g, n, i);
    assert(i * n == n * i) by (nonlinear_arith);
    lemma_fpow_one_base(i);
    assert(fpow(fpow(g, i), n) == 1);
    lemma_fpow_reduced(h, n);
    lemma_fmul_one(fpow(h, n));
    assert(fpow(d.elem_spec(i), n) == fpow(h, n));
    let x = fpow(h, n);
    // fsub(x, x) == 0
    lemma_mod_self_0(41);
    if x == 0 {
        assert(fneg(0) == 0);
        lemma_small_mod(0, 41);
    } else {
        lemma_small_mod((41 - x as int) as nat, 41);
    }
}

/// Distinct indices below the size give distinct domain elements.
pub proof fn lemma_elements_distinct(d: DomainCore, i: nat, j: nat)
    requires
        d.wf(),
        i < j < d.size_spec(),
    ensures
        d.elem_spec(i) != d.elem_spec(j),
{
    let g = d.gen_spec();
    let h = d.offset_spec();
    let n = d.size_spec();
    if g == 0 {
        lemma_fpow_zero_base(n);
    }
    lemma_fpow_reduced(g, i);
    lemma_fpow_reduced(g, j);
    if d.elem_spec(i) == d.elem_spec(j) {
        lemma_fmul_cancel(h, fpow(g, i), fpow(g, j));
        lemma_fpow_add(g, i, (j - i) as nat);
        lemma_fpow_nonzero(g, i);
        lemma_fmul_one(fpow(g, i));
        lemma_fpow_reduced(g, (j - i) as nat);
        lemma_fmul_cancel(fpow(g, i), fpow(g, (j - i) as nat), 1);
        lemma_no_small_power_extract(g, n, (j - i) as nat);
    }
}

/// The product of the first `k` entries of a residue sequence.
pub open spec fn prod_upto(s: Seq<nat>, k: nat) -> nat
    decreases k,
{
    if k == 0 {
        1
    } else {
        fmul(prod_upto(s, (k - 1) as nat), s[k - 1])
    }
}

proof fn lemma_prod_upto_nonzero(s: Seq<nat>, k: nat)
    requires
        k <= s.len(),
        forall|t: int| 0 <= t < k ==> 1 <= #[trigger] s[t] < 41,
    ensures
        1 <= prod_upto(s, k) < 41,
    decreases k,
{
    if k > 0 {
        lemma_prod_upto_nonzero(s, (k - 1) as nat);
        lemma_fmul_nonzero(prod_upto(s, (k - 1) as nat), s[k - 1]);
    }
}

/// Replace every entry of a vector of nonzero field elements by its inverse,
/// spending only a single true field inversion: a forward pass of running
/// products, one inversion of the total, and a backward substitution pass.
pub fn batch_inversion(v: &mut Vec<Fp>)
    requires
        forall|i: int| 0 <= i < old(v)@.len() ==> #[trigger] old(v)@[i].v() != 0,
    ensures
        final(v)@.len() == old(v)@.len(),
        forall|i: int|
            0 <= i < old(v)@.len() ==> #[trigger] final(v)@[i].v() == finv(old(v)@[i].v()),
{
    let ghost s = vals(old(v)@);
    let n = v.len();
    if n == 0 {
        return;
    }
    let mut prod: Vec<Fp> = Vec::new();
    let mut acc = Fp::one();
    let mut i: usize = 0;
    while i < n
        invariant
            n == v@.len(),
            v@ == old(v)@,
            s == vals(old(v)@),
            s.len() == n,
            i <= n,
            prod@.len() == i,
            acc.v() == prod_upto(s, i as nat),
            forall|k: int| 0 <= k < i ==> #[trigger] prod@[k].v() == prod_upto(s, (k + 1) as nat),
            forall|k: int| 0 <= k < i ==> #[trigger] s[k] < 41,
        decreases n - i,
    {
        let x = v[i];
        proof {
            use_type_invariant(x);
            assert(x.v() == s[i as int]);
        }
        acc = acc.mul(x);
        prod.push(acc);
        i = i + 1;
    }
    proof {
        assert forall|t: int| 0 <= t < n implies 1 <= #[trigger] s[t] < 41 by {
            assert(old(v)@[t].v() != 0);
        }
        lemma_prod_upto_nonzero(s, n as nat);
    }
    let mut tmp = prod[n - 1].inverse();
    let mut j: usize = n;
    while j > 0
        invariant
            n == v@.len(),
            s == vals(old(v)@),
            s.len() == n,
            prod@.len() == n,
            j <= n,
            tmp.v() == finv(prod_upto(s, j as nat)),
            forall|k: int| 0 <= k < n ==> #[trigger] prod@[k].v() == prod_upto(s, (k + 1) as nat),
            forall|k: int| 0 <= k < n ==> 1 <= #[trigger] s[k] < 41,
            forall|k: int| 0 <= k < j ==> #[trigger] v@[k] == old(v)@[k],
            forall|k: int| j <= k < n ==> #[trigger] v@[k].v() == finv(s[k]),
        decreases j,
    {
        j = j - 1;
        proof {
            lemma_prod_upto_nonzero(s, j as nat);
            lemma_finv_peel(prod_upto(s, j as nat), s[j as int]);
            if j == 0 {
                lemma_fmul_one(s[0]);
            }
        }
        let xj = v[j];
        let newtmp = tmp.mul(xj);
        let res = if j > 0 {
            tmp.mul(prod[j - 1])
        } else {
            tmp
        };
        v.set(j, res);
        tmp = newtmp;
    }
}

/// The residues a sequence of field elements stands for.
pub open spec fn vals(s: Seq<Fp>) -> Seq<nat> {
    s.map_values(|e: Fp| e.v())
}

/// Evaluate a coefficient sequence at the residue `x` (low degree first).
pub open spec fn poly_eval(c: Seq<nat>, x: nat) -> nat
    decreases c.len(),
{
    if c.len() == 0 {
        0
    } else {
        fadd(c[0], fmul(x, poly_eval(c.drop_first(), x)))
    }
}

/// Evaluate the polynomial with the given coefficients at the point `x`,
/// by Horner's rule.
pub fn evaluate_polynomial(coeffs: &Vec<Fp>, x: Fp) -> (r: Fp)
    ensures
        r.v() == poly_eval(vals(coeffs@), x.v()),
{
    let ghost s = vals(coeffs@);
    let n = coeffs.len();
    let mut res = Fp::zero();
    let mut j = n;
    proof {
        assert(s.subrange(n as int, n as int).len() == 0);
    }
    while j > 0
        invariant
            j <= n,
            n == coeffs@.len(),
            s == vals(coeffs@),
            res.v() == poly_eval(s.subrange(j as int, n as int), x.v()),
        decreases j,
    {
        j = j - 1;
        proof {
            assert(s.subrange(j as int, n as int).drop_first() =~= s.subrange(
                j as int + 1,
                n as int,
            ));
            assert(s.subrange(j as int, n as int)[0] == s[j as int]);
            assert(coeffs@[j as int].v() == s[j as int]);
        }
        res = coeffs[j].add(x.mul(res));
    }
    proof {
        assert(s.subrange(0, n as int) =~= s);
    }
    res
}

/// Machine-width twin of `fpow`, for the bit-vector solver.
pub open spec fn fpow16(b: u16, e: u16) -> u16
    decreases e,
{
    if e == 0 {
        1
    } else {
        crate::field::fmul16(b, fpow16(b, (e - 1) as u16))
    }
}

/// Machine-width twin of `no_small_power`.
pub open spec fn no_small_power16(g: u16, k: u16) -> bool
    decreases k,
{
    if k <= 1 {
        true
    } else {
        fpow16(g, (k - 1) as u16) != 1 && no_small_power16(g, (k - 1) as u16)
    }
}

proof fn lemma_fpow16_matches(b: u16, e: u16)
    requires
        b < 41,
    ensures
        fpow16(b, e) < 41,
        fpow16(b, e) as nat == fpow(b as nat, e as nat),
    decreases e,
{
    if e > 0 {
        lemma_fpow16_matches(b, (e - 1) as u16);
    }
}

proof fn lemma_no_small_power16_matches(g: u16, k: u16)
    requires
        g < 41,
        no_small_power16(g, k),
    ensures
        no_small_power(g as nat, k as nat),
    decreases k,
{
    if k > 1 {
        lemma_fpow16_matches(g, (k - 1) as u16);
        lemma_no_small_power16_matches(g, (k - 1) as u16);
    }
}

/// The generators used by the domain constructors have exactly the order
/// they are paired with: established by exhaustive bit-vector evaluation.
proof fn lemma_generator_table()
    ensures
        fpow(1, 1) == 1 && no_small_power(1, 1),
        fpow(40, 2) == 1 && no_small_power(40, 2),
        fpow(32, 4) == 1 && no_small_power(32, 4),
        fpow(27, 8) == 1 && no_small_power(27, 8),
        fpow(10, 5) == 1 && no_small_power(10, 5),
        fpow(25, 10) == 1 && no_small_power(25, 10),
        fpow(36, 20) == 1 && no_small_power(36, 20),
        fpow(6, 40) == 1 && no_small_power(6, 40),
{
    assert(fpow16(1, 1) == 1 && no_small_power16(1, 1)) by (bit_vector);
    assert(fpow16(40, 2) == 1 && no_small_power16(40, 2)) by (bit_vector);
    assert(fpow16(32, 4) == 1 && no_small_power16(32, 4)) by (bit_vector);
    assert(fpow16(27, 8) == 1 && no_small_power16(27, 8)) by (bit_vector);
    assert(fpow16(10, 5) == 1 && no_small_power16(10, 5)) by (bit_vector);
    assert(fpow16(25, 10) == 1 && no_small_power16(25, 10)) by (bit_vector);
    assert(fpow16(36, 20) == 1 && no_small_power16(36, 20)) by (bit_vector);
    assert(fpow16(6, 40) == 1 && no_small_power16(6, 40)) by (bit_vector);
    lemma_fpow16_matches(1, 1);
    lemma_no_small_power16_matches(1, 1);
    lemma_fpow16_matches(40, 2);
    lemma_no_small_power16_matches(40, 2);
    lemma_fpow16_matches(32, 4);
    lemma_no_small_power16_matches(32, 4);
    lemma_fpow16_matches(27, 8);
    lemma_no_small_power16_matches(27, 8);
    lemma_fpow16_matches(10, 5);
    lemma_no_small_power16_matches(10, 5);
    lemma_fpow16_matches(25, 10);
    lemma_no_small_power16_matches(25, 10);
    lemma_fpow16_matches(36, 20);
    lemma_no_small_power16_matches(36, 20);
    lemma_fpow16_matches(6, 40);
    lemma_no_small_power16_matches(6, 40);
}

/// Assemble a plain-subgroup domain from a size and a generator of exactly
/// that order.
fn make_domain(size: u64, log_size_of_group: u32, group_gen: Fp) -> (d: DomainCore)
    requires
        1 <= size <= 40,
        fpow(group_gen.v(), size as nat) == 1,
        no_small_power(group_gen.v(), size as nat),
    ensures
        d.size_spec() == size,
        d.log_size_spec() == log_size_of_group,
        d.gen_spec() == group_gen.v(),
        d.gen_inv_spec() == finv(group_gen.v()),
        d.size_inv_spec() == finv(size as nat),
        d.offset_spec() == 1,
        d.offset_inv_spec() == 1,
        d.offset_pow_size_spec() == 1,
{
    proof {
        use_type_invariant(group_gen);
        if group_gen.v() == 0 {
            lemma_fpow_zero_base(size as nat);
        }
        lemma_finv(group_gen.v());
        lemma_finv(size as nat);
        lemma_fpow_one_base(size as nat);
        lemma_fmul_one(1);
    }
    let group_gen_inv = group_gen.inverse();
    let size_inv = Fp::new(size).inverse();
    DomainCore {
        size,
        log_size_of_group,
        size_inv,
        group_gen,
        group_gen_inv,
        offset: Fp::one(),
        offset_inv: Fp::one(),
        offset_pow_size: Fp::one(),
    }
}

/// The smallest power of two at least `n`, for admissible `n`.
pub open spec fn radix2_size_spec(n: nat) -> nat {
    if n <= 1 {
        1
    } else if n <= 2 {
        2
    } else if n <= 4 {
        4
    } else {
        8
    }
}

/// The canonical generator of the power-of-two subgroup of each size.
pub open spec fn radix2_gen_spec(size: nat) -> nat {
    if size == 1 {
        1
    } else if size == 2 {
        40
    } else if size == 4 {
        32
    } else {
        27
    }
}

/// The base-2 logarithm of each admissible power-of-two size.
pub open spec fn radix2_log_spec(size: nat) -> nat {
    if size == 1 {
        0
    } else if size == 2 {
        1
    } else if size == 4 {
        2
    } else {
        3
    }
}

/// The smallest admissible mixed size (one factor of the extra prime times
/// a power of two) at least `n`.
pub open spec fn mixed_size_spec(n: nat) -> nat {
    if n <= 5 {
        5
    } else if n <= 10 {
        10
    } else if n <= 20 {
        20
    } else {
        40
    }
}

/// The canonical generator of the mixed subgroup of each size.
pub open spec fn mixed_gen_spec(size: nat) -> nat {
    if size == 5 {
        10
    } else if size == 10 {
        25
    } else if size == 20 {
        36
    } else {
        6
    }
}

/// The base-2 logarithm of the power-of-two part of each mixed size.
pub open spec fn mixed_log_spec(size: nat) -> nat {
    if size == 5 {
        0
    } else if size == 10 {
        1
    } else if size == 20 {
        2
    } else {
        3
    }
}

/// The size the dispatching domain picks: the power-of-two strategy first,
/// the mixed strategy where no admissible power of two exists.
pub open spec fn general_size_spec(n: nat) -> nat {
    if n <= 8 {
        radix2_size_spec(n)
    } else {
        mixed_size_spec(n)
    }
}

/// The generator the dispatching domain picks for each admissible size.
pub open spec fn general_gen_spec(size: nat) -> nat {
    if size == 1 || size == 2 || size == 4 || size == 8 {
        radix2_gen_spec(size)
    } else {
        mixed_gen_spec(size)
    }
}

/// An evaluation domain whose size is a power of two, backed by the field's
/// two-adic subgroup tower.
#[derive(Clone, Copy, PartialEq, Eq, Structural, Hash, Debug)]
pub struct Radix2EvaluationDomain {
    d: DomainCore,
}

impl Radix2EvaluationDomain {
    /// The parameters and shared algorithms of this domain.
    pub closed spec fn core_spec(self) -> DomainCore {
        self.d
    }

    /// The domain size picked for `num_coeffs` coefficients, when a
    /// power-of-two subgroup that large exists.
    pub fn compute_size_of_domain(num_coeffs: u64) -> (r: Option<u64>)
        ensures
            r is Some <==> num_coeffs <= 8,
            r matches Some(sz) ==> sz == radix2_size_spec(num_coeffs as nat),
    {
        if num_coeffs <= 1 {
            Some(1)
        } else if num_coeffs <= 2 {
            Some(2)
        } else if num_coeffs <= 4 {
            Some(4)
        } else if num_coeffs <= 8 {
            Some(8)
        } else {
            None
        }
    }

    /// Build the smallest power-of-two domain able to hold evaluations of a
    /// polynomial with `num_coeffs` coefficients, if the field supports one.
    pub fn new(num_coeffs: u64) -> (r: Option<Radix2EvaluationDomain>)
        ensures
            r is Some <==> num_coeffs <= 8,
            r matches Some(dom) ==> {
                &&& dom.core_spec().size_spec() == radix2_size_spec(num_coeffs as nat)
                &&& dom.core_spec().gen_spec() == radix2_gen_spec(dom.core_spec().size_spec())
                &&& dom.core_spec().log_size_spec() == radix2_log_spec(
                    dom.core_spec().size_spec(),
                )
                &&& dom.core_spec().offset_spec() == 1
            },
    {
        if num_coeffs > 8 {
            return None;
        }
        proof {
            lemma_generator_table();
            lemma_small_mod(40, 41);
            lemma_small_mod(32, 41);
            lemma_small_mod(27, 41);
            lemma_small_mod(1, 41);
        }
        let d = if num_coeffs <= 1 {
            make_domain(1, 0, Fp::new(1))
        } else if num_coeffs <= 2 {
            make_domain(2, 1, Fp::new(40))
        } else if num_coeffs <= 4 {
            make_domain(4, 2, Fp::new(32))
        } else {
            make_domain(8, 3, Fp::new(27))
        };
        Some(Radix2EvaluationDomain { d })
    }

    /// Shift this domain by a nonzero coset offset.
    pub fn get_coset(&self, offset: Fp) -> (r: Option<Radix2EvaluationDomain>)
        ensures
            offset.v() == 0 <==> r is None,
            r matches Some(dom) ==> {
                &&& dom.core_spec().size_spec() == self.core_spec().size_spec()
                &&& dom.core_spec().log_size_spec() == self.core_spec().log_size_spec()
                &&& dom.core_spec().gen_spec() == self.core_spec().gen_spec()
                &&& dom.core_spec().gen_inv_spec() == self.core_spec().gen_inv_spec()
                &&& dom.core_spec().size_inv_spec() == self.core_spec().size_inv_spec()
                &&& dom.core_spec().offset_spec() == offset.v()
                &&& dom.core_spec().offset_inv_spec() == finv(offset.v())
                &&& dom.core_spec().offset_pow_size_spec() == fpow(
                    offset.v(),
                    self.core_spec().size_spec(),
                )
            },
    {
        match self.d.get_coset(offset) {
            Some(d) => Some(Radix2EvaluationDomain { d }),
            None => None,
        }
    }

    /// Build the smallest admissible coset domain for `num_coeffs`
    /// coefficients with the given nonzero offset.
    pub fn new_coset(num_coeffs: u64, offset: Fp) -> (r: Option<Radix2EvaluationDomain>)
        ensures
            r is Some <==> (num_coeffs <= 8 && offset.v() != 0),
            r matches Some(dom) ==> {
                &&& dom.core_spec().size_spec() == radix2_size_spec(num_coeffs as nat)
                &&& dom.core_spec().gen_spec() == radix2_gen_spec(dom.core_spec().size_spec())
                &&& dom.core_spec().offset_spec() == offset.v()
            },
    {
        match Self::new(num_coeffs) {
            Some(dom) => dom.get_coset(offset),
            None => None,
        }
    }

    /// The domain parameters, carrying every shared domain operation.
    pub fn domain_core(&self) -> (r: DomainCore)
        ensures
            r == self.core_spec(),
    {
        self.d
    }
}

/// An evaluation domain whose size is a power of two times one extra small
/// prime factor the field supports.
#[derive(Clone, Copy, PartialEq, Eq, Structural, Hash, Debug)]
pub struct MixedRadixEvaluationDomain {
    d: DomainCore,
}

impl MixedRadixEvaluationDomain {
    /// The parameters and shared algorithms of this domain.
    pub closed spec fn core_spec(self) -> DomainCore {
        self.d
    }

    /// The domain size picked for `num_coeffs` coefficients, when a mixed
    /// subgroup that large exists.
    pub fn compute_size_of_domain(num_coeffs: u64) -> (r: Option<u64>)
        ensures
            r is Some <==> num_coeffs <= 40,
            r matches Some(sz) ==> sz == mixed_size_spec(num_coeffs as nat),
    {
        if num_coeffs <= 5 {
            Some(5)
        } else if num_coeffs <= 10 {
            Some(10)
        } else if num_coeffs <= 20 {
            Some(20)
        } else if num_coeffs <= 40 {
            Some(40)
        } else {
            None
        }
    }

    /// Build the smallest mixed-size domain able to hold evaluations of a
    /// polynomial with `num_coeffs` coefficients, if the field supports one.
    pub fn new(num_coeffs: u64) -> (r: Option<MixedRadixEvaluationDomain>)
        ensures
            r is Some <==> num_coeffs <= 40,
            r matches Some(dom) ==> {
                &&& dom.core_spec().size_spec() == mixed_size_spec(num_coeffs as nat)
                &&& dom.core_spec().gen_spec() == mixed_gen_spec(dom.core_spec().size_spec())
                &&& dom.core_spec().log_size_spec() == mixed_log_spec(dom.core_spec().size_spec())
                &&& dom.core_spec().offset_spec() == 1
            },
    {
        if num_coeffs > 40 {
            return None;
        }
        proof {
            lemma_generator_table();
            lemma_small_mod(10, 41);
            lemma_small_mod(25, 41);
            lemma_small_mod(36, 41);
            lemma_small_mod(6, 41);
        }
        let d = if num_coeffs <= 5 {
            make_domain(5, 0, Fp::new(10))
        } else if num_coeffs <= 10 {
            make_domain(10, 1, Fp::new(25))
        } else if num_coeffs <= 20 {
            make_domain(20, 2, Fp::new(36))
        } else {
            make_domain(40, 3, Fp::new(6))
        };
        Some(MixedRadixEvaluationDomain { d })
    }

    /// Shift this domain by a nonzero coset offset.
    pub fn get_coset(&self, offset: Fp) -> (r: Option<MixedRadixEvaluationDomain>)
        ensures
            offset.v() == 0 <==> r is None,
            r matches Some(dom) ==> {
                &&& dom.core_spec().size_spec() == self.core_spec().size_spec()
                &&& dom.core_spec().log_size_spec() == self.core_spec().log_size_spec()
                &&& dom.core_spec().gen_spec() == self.core_spec().gen_spec()
                &&& dom.core_spec().gen_inv_spec() == self.core_spec().gen_inv_spec()
                &&& dom.core_spec().size_inv_spec() == self.core_spec().size_inv_spec()
                &&& dom.core_spec().offset_spec() == offset.v()
                &&& dom.core_spec().offset_inv_spec() == finv(offset.v())
                &&& dom.core_spec().offset_pow_size_spec() == fpow(
                    offset.v(),
                    self.core_spec().size_spec(),
                )
            },
    {
        match self.d.get_coset(offset) {
            Some(d) => Some(MixedRadixEvaluationDomain { d }),
            None => None,
        }
    }

    /// Build the smallest admissible coset domain for `num_coeffs`
    /// coefficients with the given nonzero offset.
    pub fn new_coset(num_coeffs: u64, offset: Fp) -> (r: Option<MixedRadixEvaluationDomain>)
        ensures
            r is Some <==> (num_coeffs <= 40 && offset.v() != 0),
            r matches Some(dom) ==> {
                &&& dom.core_spec().size_spec() == mixed_size_spec(num_coeffs as nat)
                &&& dom.core_spec().gen_spec() == mixed_gen_spec(dom.core_spec().size_spec())
                &&& dom.core_spec().offset_spec() == offset.v()
            },
    {
        match Self::new(num_coeffs) {
            Some(dom) => dom.get_coset(offset),
            None => None,
        }
    }

    /// The domain parameters, carrying every shared domain operation.
    pub fn domain_core(&self) -> (r: DomainCore)
        ensures
            r == self.core_spec(),
    {
        self.d
    }
}

/// A dispatcher over the two concrete strategies: a power-of-two domain
/// where one exists, and a mixed domain otherwise.
#[derive(Clone, Copy, PartialEq, Eq, Structural, Hash, Debug)]
pub enum GeneralEvaluationDomain {
    /// A domain backed by the pure power-of-two strategy.
    Radix2(Radix2EvaluationDomain),
    /// A domain backed by the mixed strategy.
    MixedRadix(MixedRadixEvaluationDomain),
}

impl GeneralEvaluationDomain {
    /// The parameters of whichever concrete domain backs this value.
    pub open spec fn core_spec(self) -> DomainCore {
        match self {
            GeneralEvaluationDomain::Radix2(d) => d.core_spec(),
            GeneralEvaluationDomain::MixedRadix(d) => d.core_spec(),
        }
    }

    /// The domain size picked for `num_coeffs` coefficients, if any
    /// strategy admits one.
    pub fn compute_size_of_domain(num_coeffs: u64) -> (r: Option<u64>)
        ensures
            r is Some <==> num_coeffs <= 40,
            r matches Some(sz) ==> sz == general_size_spec(num_coeffs as nat),
    {
        if num_coeffs <= 8 {
            Radix2EvaluationDomain::compute_size_of_domain(num_coeffs)
        } else {
            MixedRadixEvaluationDomain::compute_size_of_domain(num_coeffs)
        }
    }

    /// Build a domain for `num_coeffs` coefficients: the power-of-two
    /// strategy first, the mixed strategy where no admissible power of two
    /// exists, and nothing where the field supports neither.
    pub fn new(num_coeffs: u64) -> (r: Option<GeneralEvaluationDomain>)
        ensures
            r is Some <==> num_coeffs <= 40,
            r matches Some(dom) ==> {
                &&& dom.core_spec().size_spec() == general_size_spec(num_coeffs as nat)
                &&& dom.core_spec().gen_spec() == general_gen_spec(dom.core_spec().size_spec())
                &&& dom.core_spec().offset_spec() == 1
                &&& (num_coeffs <= 8 <==> dom is Radix2)
            },
    {
        if num_coeffs <= 8 {
            match Radix2EvaluationDomain::new(num_coeffs) {
                Some(dom) => Some(GeneralEvaluationDomain::Radix2(dom)),
                None => None,
            }
        } else {
            match MixedRadixEvaluationDomain::new(num_coeffs) {
                Some(dom) => Some(GeneralEvaluationDomain::MixedRadix(dom)),
                None => None,
            }
        }
    }

    /// Shift this domain by a nonzero coset offset, keeping the strategy.
    pub fn get_coset(&self, offset: Fp) -> (r: Option<GeneralEvaluationDomain>)
        ensures
            offset.v() == 0 <==> r is None,
            r matches Some(dom) ==> {
                &&& dom.core_spec().size_spec() == self.core_spec().size_spec()
                &&& dom.core_spec().gen_spec() == self.core_spec().gen_spec()
                &&& dom.core_spec().offset_spec() == offset.v()
            },
    {
        match self {
            GeneralEvaluationDomain::Radix2(d) => match d.get_coset(offset) {
                Some(dom) => Some(GeneralEvaluationDomain::Radix2(dom)),
                None => None,
            },
            GeneralEvaluationDomain::MixedRadix(d) => match d.get_coset(offset) {
                Some(dom) => Some(GeneralEvaluationDomain::MixedRadix(dom)),
                None => None,
            },
        }
    }

    /// Build the smallest admissible coset domain for `num_coeffs`
    /// coefficients with the given nonzero offset.
    pub fn new_coset(num_coeffs: u64, offset: Fp) -> (r: Option<GeneralEvaluationDomain>)
        ensures
            r is Some <==> (num_coeffs <= 40 && offset.v() != 0),
            r matches Some(dom) ==> {
                &&& dom.core_spec().size_spec() == general_size_spec(num_coeffs as nat)
                &&& dom.core_spec().offset_spec() == offset.v()
            },
    {
        match Self::new(num_coeffs) {
            Some(dom) => dom.get_coset(offset),
            None => None,
        }
    }

    /// The domain parameters, carrying every shared domain operation.
    pub fn domain_core(&self) -> (r: DomainCore)
        ensures
            r == self.core_spec(),
    {
        match self {
            GeneralEvaluationDomain::Radix2(d) => d.domain_core(),
            GeneralEvaluationDomain::MixedRadix(d) => d.domain_core(),
        }
    }
}

/// Re-indexing by a subdomain lands on the subdomain's own elements: for a
/// subdomain (same offset, generator equal to the `period`-th power of the
/// larger generator, size dividing the larger size) and any index `j` into
/// it, the larger domain's element at the re-mapped index is exactly the
/// subdomain's `j`-th element.
pub proof fn lemma_reindex_matches_subdomain(d: DomainCore, o: DomainCore, j: nat)
    requires
        d.wf(),
        o.wf(),
        o.size_spec() <= d.size_spec(),
        d.size_spec() % o.size_spec() == 0,
        o.gen_spec() == fpow(d.gen_spec(), d.size_spec() / o.size_spec()),
        o.offset_spec() == d.offset_spec(),
        j < o.size_spec(),
    ensures
        d.elem_spec(reindex_spec(d.size_spec(), o.size_spec(), j)) == o.elem_spec(j),
{
    let period = d.size_spec() / o.size_spec();
    lemma_fpow_pow(d.gen_spec(), period, j);
    assert(period * j == j * period) by (nonlinear_arith);
}

/// Power distribution is partition-independent: its contract determines
/// every output value from the input alone, so any two sequences meeting it
/// on the same input — in particular the outputs of the chunked and of the
/// purely sequential implementation — coincide.
pub proof fn lemma_distribute_powers_partition_independent(
    s: Seq<nat>,
    gv: nat,
    cv: nat,
    r1: Seq<nat>,
    r2: Seq<nat>,
)
    requires
        r1.len() == s.len(),
        r2.len() == s.len(),
        forall|i: int| 0 <= i < s.len() ==> #[trigger] r1[i] == fmul(s[i], fmul(cv, fpow(gv, i as nat))),
        forall|i: int| 0 <= i < s.len() ==> #[trigger] r2[i] == fmul(s[i], fmul(cv, fpow(gv, i as nat))),
    ensures
        r1 == r2,
{
    assert(r1 =~= r2);
}

/// At the `i`-th domain element, the Lagrange coefficient vector promised
/// by `evaluate_all_lagrange_coefficients` is the indicator vector of `i`:
/// one at position `i` and zero everywhere else.
pub proof fn lemma_lagrange_indicator(d: DomainCore, i: nat, r: Seq<nat>)
    requires
        d.wf(),
        i < d.size_spec(),
        r.len() == d.size_spec(),
        forall|t: int|
            0 <= t < r.len() ==> #[trigger] r[t] == (if d.elem_spec(t as nat) == d.elem_spec(i) {
                1nat
            } else {
                0nat
            }),
    ensures
        forall|t: int|
            0 <= t < r.len() ==> #[trigger] r[t] == (if t == i {
                1nat
            } else {
                0nat
            }),
{
    assert forall|t: int| 0 <= t < r.len() implies #[trigger] r[t] == (if t == i {
        1nat
    } else {
        0nat
    }) by {
        if t < i {
            lemma_elements_distinct(d, t as nat, i);
        } else if t > i {
            lemma_elements_distinct(d, i, t as nat);
        }
    }
}

/// Sum of a residue sequence.
pub open spec fn fsum(s: Seq<nat>) -> nat
    decreases s.len(),
{
    if s.len() == 0 {
        0
    } else {
        fadd(s[0], fsum(s.drop_first()))
    }
}

/// The geometric sum `1 + r + r^2 + ... + r^(n-1)`.
pub open spec fn geo(r: nat, n: nat) -> nat
    decreases n,
{
    if n == 0 {
        0
    } else {
        fadd(1, fmul(r, geo(r, (n - 1) as nat)))
    }
}

/// The geometric sum of the identity counts the terms.
proof fn lemma_geo_one(n: nat)
    requires
        n <= 40,
    ensures
        geo(1, n) == n,
    decreases n,
{
    if n > 0 {
        lemma_geo_one((n - 1) as nat);
        lemma_fmul_one((n - 1) as nat);
        vstd::arithmetic::div_mod::lemma_small_mod(n, 41);
    }
}

/// Telescoping: `r * geo(r, n) + 1 == geo(r, n) + r^n`.
proof fn lemma_geo_telescope(r: nat, n: nat)
    requires
        r < 41,
    ensures
        fadd(fmul(r, geo(r, n)), 1) == fadd(geo(r, n), fpow(r, n)),
    decreases n,
{
    if n == 0 {
        assert(fmul(r, 0) == 0) by (nonlinear_arith);
    } else {
        let sp = geo(r, (n - 1) as nat);
        let t = fmul(r, sp);
        lemma_geo_telescope(r, (n - 1) as nat);
        // multiply the induction hypothesis by r and distribute
        lemma_fmul_fadd(r, t, 1);
        lemma_fmul_fadd(r, sp, fpow(r, (n - 1) as nat));
        lemma_fmul_one(r);
        assert(fmul(r, fadd(t, 1)) == fmul(r, fadd(sp, fpow(r, (n - 1) as nat))));
        assert(fadd(fmul(r, t), r) == fadd(t, fpow(r, n)));
        // unfold geo(r, n) on the left of the goal
        lemma_fmul_fadd(r, 1, t);
        assert(fmul(r, geo(r, n)) == fadd(r, fmul(r, t)));
        lemma_fpow_reduced(r, n);
        lemma_fadd_assoc(r, fmul(r, t), 1);
        assert(fadd(fmul(r, t), 1) == fadd(1, fmul(r, t)));
        lemma_fadd_assoc(1, t, fpow(r, n));
        lemma_fadd_assoc(r, fmul(r, t), 1);
        assert(fadd(fmul(r, geo(r, n)), 1) == fadd(r, fadd(fmul(r, t), 1)));
        assert(fadd(r, fadd(fmul(r, t), 1)) == fadd(fadd(fmul(r, t), r), 1)) by {
            lemma_fadd_assoc(fmul(r, t), r, 1);
        };
        assert(fadd(fadd(fmul(r, t), r), 1) == fadd(fadd(t, fpow(r, n)), 1));
        assert(fadd(fadd(t, fpow(r, n)), 1) == fadd(fadd(1, t), fpow(r, n))) by {
            lemma_fadd_assoc(t, fpow(r, n), 1);
            lemma_fadd_assoc(1, t, fpow(r, n));
            assert(fadd(fpow(r, n), 1) == fadd(1, fpow(r, n)));
        };
    }
}

/// The geometric sum of a nontrivial root of unity vanishes.
proof fn lemma_geo_vanishes(r: nat, n: nat)
    requires
        r < 41,
        r != 1,
        fpow(r, n) == 1,
    ensures
        geo(r, n) == 0,
{
    if n == 0 {
    } else {
        let s = geo(r, n);
        lemma_geo_telescope(r, n);
        // r * s + 1 == s + 1, and both sides stay below the modulus
        let x = fmul(r, s);
        if x != s {
            if x + 1 < 41 {
                vstd::arithmetic::div_mod::lemma_small_mod(x + 1, 41);
            } else {
                vstd::arithmetic::div_mod::lemma_mod_self_0(41);
            }
            if s + 1 < 41 {
                vstd::arithmetic::div_mod::lemma_small_mod(s + 1, 41);
            } else {
                vstd::arithmetic::div_mod::lemma_mod_self_0(41);
            }
        }
        assert(x == s);
        if s != 0 {
            lemma_fmul_one(s);
            lemma_fmul_comm(s, r);
            lemma_fmul_cancel(s, r, 1);
        }
    }
}

/// A sum of zeros is zero.
proof fn lemma_fsum_all_zero(s: Seq<nat>)
    requires
        forall|j: int| 0 <= j < s.len() ==> #[trigger] s[j] == 0,
    ensures
        fsum(s) == 0,
    decreases s.len(),
{
    if s.len() > 0 {
        lemma_fsum_all_zero(s.drop_first());
    }
}

/// A sum with a single (reduced) nonzero entry is that entry.
proof fn lemma_fsum_single(s: Seq<nat>, i: int)
    requires
        0 <= i < s.len(),
        forall|j: int| 0 <= j < s.len() && j != i ==> #[trigger] s[j] == 0,
        s[i] < 41,
    ensures
        fsum(s) == s[i],
    decreases s.len(),
{
    if i == 0 {
        lemma_fsum_all_zero(s.drop_first());
        vstd::arithmetic::div_mod::lemma_small_mod(s[0], 41);
    } else {
        lemma_fsum_single(s.drop_first(), i - 1);
        vstd::arithmetic::div_mod::lemma_small_mod(s[i], 41);
    }
}

/// A common factor pulls out of a sum.
proof fn lemma_fsum_scale(s: Seq<nat>, a: nat)
    ensures
        fsum(Seq::new(s.len(), |k: int| fmul(a, s[k]))) == fmul(a, fsum(s)),
    decreases s.len(),
{
    let m = Seq::new(s.len(), |k: int| fmul(a, s[k]));
    if s.len() == 0 {
        assert(fmul(a, 0) == 0) by (nonlinear_arith);
    } else {
        lemma_fsum_scale(s.drop_first(), a);
        assert(m.drop_first() =~= Seq::new(
            s.drop_first().len(),
            |k: int| fmul(a, s.drop_first()[k]),
        ));
        lemma_fmul_fadd(a, s[0], fsum(s.drop_first()));
    }
}

/// Evaluating an all-zero coefficient sequence gives zero.
proof fn lemma_poly_eval_all_zero(s: Seq<nat>, y: nat)
    requires
        forall|j: int| 0 <= j < s.len() ==> #[trigger] s[j] == 0,
    ensures
        poly_eval(s, y) == 0,
    decreases s.len(),
{
    if s.len() > 0 {
        lemma_poly_eval_all_zero(s.drop_first(), y);
        assert(fmul(y, 0) == 0) by (nonlinear_arith);
    }
}

/// Evaluation is additive in the coefficients.
proof fn lemma_poly_eval_add(s1: Seq<nat>, s2: Seq<nat>, y: nat)
    requires
        s1.len() == s2.len(),
        forall|j: int| 0 <= j < s1.len() ==> #[trigger] s1[j] < 41,
        forall|j: int| 0 <= j < s2.len() ==> #[trigger] s2[j] < 41,
    ensures
        poly_eval(Seq::new(s1.len(), |j: int| fadd(s1[j], s2[j])), y) == fadd(
            poly_eval(s1, y),
            poly_eval(s2, y),
        ),
    decreases s1.len(),
{
    let m = Seq::new(s1.len(), |j: int| fadd(s1[j], s2[j]));
    if s1.len() == 0 {
    } else {
        lemma_poly_eval_add(s1.drop_first(), s2.drop_first(), y);
        assert(m.drop_first() =~= Seq::new(
            s1.drop_first().len(),
            |j: int| fadd(s1.drop_first()[j], s2.drop_first()[j]),
        ));
        let a = s1[0];
        let b = s2[0];
        let c = fmul(y, poly_eval(s1.drop_first(), y));
        let d = fmul(y, poly_eval(s2.drop_first(), y));
        lemma_fmul_fadd(y, poly_eval(s1.drop_first(), y), poly_eval(s2.drop_first(), y));
        // (a + b) + (c + d) == (a + c) + (b + d)
        lemma_fadd_assoc(a, b, fadd(c, d));
        lemma_fadd_assoc(b, c, d);
        lemma_fadd_assoc(c, b, d);
        assert(fadd(b, c) == fadd(c, b));
        lemma_fadd_assoc(a, c, fadd(b, d));
    }
}

/// Evaluating a constant coefficient sequence gives a geometric sum.
proof fn lemma_poly_eval_const(c0: nat, y: nat, n: nat)
    requires
        c0 < 41,
        y < 41,
    ensures
        poly_eval(Seq::new(n, |j: int| c0), y) == fmul(c0, geo(y, n)),
    decreases n,
{
    let m = Seq::new(n, |j: int| c0);
    if n == 0 {
        assert(fmul(c0, 0) == 0) by (nonlinear_arith);
    } else {
        lemma_poly_eval_const(c0, y, (n - 1) as nat);
        assert(m.drop_first() =~= Seq::new((n - 1) as nat, |j: int| c0));
        let gp = geo(y, (n - 1) as nat);
        lemma_fmul_fadd(c0, 1, fmul(y, gp));
        lemma_fmul_one(c0);
        // y * (c0 * gp) == c0 * (y * gp)
        lemma_fmul_assoc(y, c0, gp);
        lemma_fmul_assoc(c0, y, gp);
    }
}

/// Evaluating coefficients twisted by `h * g^j` at `y` is `h` times an
/// evaluation at `g * y`.
proof fn lemma_poly_eval_twisted(s: Seq<nat>, h: nat, g: nat, y: nat)
    requires
        h < 41,
        g < 41,
        y < 41,
    ensures
        poly_eval(Seq::new(s.len(), |j: int| fmul(fmul(h, fpow(g, j as nat)), s[j])), y) == fmul(
            h,
            poly_eval(s, fmul(g, y)),
        ),
    decreases s.len(),
{
    let m = Seq::new(s.len(), |j: int| fmul(fmul(h, fpow(g, j as nat)), s[j]));
    if s.len() == 0 {
        assert(fmul(h, 0) == 0) by (nonlinear_arith);
    } else {
        let sp = s.drop_first();
        let hp = fmul(h, g);
        lemma_poly_eval_twisted(sp, hp, g, y);
        assert(m.drop_first() =~= Seq::new(
            sp.len(),
            |j: int| fmul(fmul(hp, fpow(g, j as nat)), sp[j]),
        )) by {
            assert forall|j: int| 0 <= j < sp.len() implies m.drop_first()[j] == fmul(
                fmul(hp, fpow(g, j as nat)),
                sp[j],
            ) by {
                lemma_fmul_assoc(h, g, fpow(g, j as nat));
            }
        };
        let pp = poly_eval(sp, fmul(g, y));
        lemma_fmul_one(h);
        // head terms agree
        assert(m[0] == fmul(h, s[0]));
        // tail terms: y * ((h*g) * pp) == h * ((g*y) * pp)
        lemma_fmul_assoc(y, hp, pp);
        lemma_fmul_assoc(y, h, g);
        lemma_fmul_assoc(h, y, g);
        lemma_fmul_assoc(h, fmul(g, y), pp);
        assert(fmul(y, hp) == fmul(h, fmul(g, y)));
        // distribute h over the right-hand side
        lemma_fmul_fadd(h, s[0], fmul(fmul(g, y), pp));
    }
}

/// Evaluating the domain evaluations of `c` at a point `y` equals a sum of
/// per-coefficient geometric sums: the heart of transform inversion.
proof fn lemma_dft_as_sums(c: Seq<nat>, h: nat, g: nat, y: nat, n: nat)
    requires
        h < 41,
        g < 41,
        y < 41,
        forall|k: int| 0 <= k < c.len() ==> #[trigger] c[k] < 41,
    ensures
        poly_eval(Seq::new(n, |j: int| poly_eval(c, fmul(h, fpow(g, j as nat)))), y) == fsum(
            Seq::new(
                c.len(),
                |k: int|
                    fmul(
                        c[k],
                        fmul(fpow(h, k as nat), geo(fmul(fpow(g, k as nat), y), n)),
                    ),
            ),
        ),
    decreases c.len(),
{
    let ev = Seq::new(n, |j: int| poly_eval(c, fmul(h, fpow(g, j as nat))));
    let rhs = Seq::new(
        c.len(),
        |k: int| fmul(c[k], fmul(fpow(h, k as nat), geo(fmul(fpow(g, k as nat), y), n))),
    );
    if c.len() == 0 {
        assert(forall|j: int| 0 <= j < n ==> #[trigger] ev[j] == 0);
        lemma_poly_eval_all_zero(ev, y);
    } else {
        let c0 = c[0];
        let cp = c.drop_first();
        let yp = fmul(g, y);
        let consts = Seq::new(n, |j: int| c0);
        let es = Seq::new(n, |j: int| poly_eval(cp, fmul(h, fpow(g, j as nat))));
        let twist = Seq::new(n, |j: int| fmul(fmul(h, fpow(g, j as nat)), es[j]));
        assert(ev =~= Seq::new(n, |j: int| fadd(consts[j], twist[j])));
        lemma_poly_eval_add(consts, twist, y);
        lemma_poly_eval_const(c0, y, n);
        assert(twist =~= Seq::new(es.len(), |j: int| fmul(fmul(h, fpow(g, j as nat)), es[j])));
        lemma_poly_eval_twisted(es, h, g, y);
        lemma_dft_as_sums(cp, h, g, yp, n);
        let rp = Seq::new(
            cp.len(),
            |k: int| fmul(cp[k], fmul(fpow(h, k as nat), geo(fmul(fpow(g, k as nat), yp), n))),
        );
        // the head of the sum is the constant part
        lemma_fmul_one(y);
        assert(fmul(fpow(g, 0), y) == fmul(1, y));
        lemma_fmul_one(geo(y, n));
        assert(rhs[0] == fmul(c0, geo(y, n))) by {
            lemma_fmul_one(geo(fmul(fpow(g, 0), y), n));
        };
        // the tail of the sum is h times the sum for the shorter sequence
        assert(rhs.drop_first() =~= Seq::new(rp.len(), |k: int| fmul(h, rp[k]))) by {
            assert forall|k: int| 0 <= k < rp.len() implies rhs.drop_first()[k] == fmul(
                h,
                rp[k],
            ) by {
                let pk = fpow(g, k as nat);
                // g^(k+1) * y == g^k * (g * y)
                lemma_fmul_assoc(g, pk, y);
                lemma_fmul_assoc(g, y, pk);
                assert(fmul(fpow(g, (k + 1) as nat), y) == fmul(pk, yp));
                let gg = geo(fmul(pk, yp), n);
                let ph = fpow(h, k as nat);
                // c * ((h * ph) * gg) == h * (c * (ph * gg))
                lemma_fmul_assoc(h, ph, gg);
                lemma_fmul_assoc(cp[k], h, fmul(ph, gg));
                lemma_fmul_assoc(h, cp[k], fmul(ph, gg));
            }
        };
        lemma_fsum_scale(rp, h);
        assert(fsum(rhs) == fadd(rhs[0], fsum(rhs.drop_first())));
    }
}

/// Powers of the generator below the size are pairwise distinct.
proof fn lemma_gen_pow_injective(d: DomainCore, k: nat, i: nat)
    requires
        d.wf(),
        k < d.size_spec(),
        i < d.size_spec(),
        fpow(d.gen_spec(), k) == fpow(d.gen_spec(), i),
    ensures
        k == i,
{
    let g = d.gen_spec();
    let n = d.size_spec();
    if g == 0 {
        lemma_fpow_zero_base(n);
    }
    if k < i {
        lemma_fpow_add(g, k, (i - k) as nat);
        lemma_fpow_nonzero(g, k);
        lemma_fmul_one(fpow(g, k));
        lemma_fpow_reduced(g, (i - k) as nat);
        lemma_fmul_cancel(fpow(g, k), fpow(g, (i - k) as nat), 1);
        lemma_no_small_power_extract(g, n, (i - k) as nat);
    } else if i < k {
        lemma_fpow_add(g, i, (k - i) as nat);
        lemma_fpow_nonzero(g, i);
        lemma_fmul_one(fpow(g, i));
        lemma_fpow_reduced(g, (k - i) as nat);
        lemma_fmul_cancel(fpow(g, i), fpow(g, (k - i) as nat), 1);
        lemma_no_small_power_extract(g, n, (k - i) as nat);
    }
}

/// The stored generator inverse also has the domain size as a power period.
proof fn lemma_gen_inv_pow(d: DomainCore)
    requires
        d.wf(),
    ensures
        fpow(d.gen_inv_spec(), d.size_spec()) == 1,
{
    let g = d.gen_spec();
    let gi = d.gen_inv_spec();
    let n = d.size_spec();
    lemma_fpow_base_mul(g, gi, n);
    lemma_fpow_one_base(n);
    lemma_fpow_reduced(gi, n);
    lemma_fmul_one(fpow(gi, n));
}

/// Round trip: applying the inverse transform to the forward transform's
/// output recovers the original coefficients, zero-padded to the domain
/// size.  `e` is the evaluation vector the forward transform promises for
/// the coefficients `c`, and the claim holds coefficient by coefficient.
pub proof fn lemma_ifft_inverts_fft(d: DomainCore, c: Seq<nat>, e: Seq<nat>, i: nat)
    requires
        d.wf(),
        c.len() <= d.size_spec(),
        forall|k: int| 0 <= k < c.len() ==> #[trigger] c[k] < 41,
        e.len() == d.size_spec(),
        forall|j: int| 0 <= j < e.len() ==> #[trigger] e[j] == poly_eval(c, d.elem_spec(j as nat)),
        i < d.size_spec(),
    ensures
        d.idft_spec(e, i) == (if i < c.len() {
            c[i as int]
        } else {
            0nat
        }),
{
    let n = d.size_spec();
    let g = d.gen_spec();
    let gi = d.gen_inv_spec();
    let h = d.offset_spec();
    let hi = d.offset_inv_spec();
    let ni = d.size_inv_spec();
    let y = fpow(gi, i);
    lemma_fpow_reduced(gi, i);
    assert(e =~= Seq::new(n, |j: int| poly_eval(c, fmul(h, fpow(g, j as nat)))));
    lemma_dft_as_sums(c, h, g, y, n);
    let terms = Seq::new(
        c.len(),
        |k: int| fmul(c[k], fmul(fpow(h, k as nat), geo(fmul(fpow(g, k as nat), y), n))),
    );
    assert(poly_eval(e, y) == fsum(terms));
    lemma_gen_inv_pow(d);
    assert forall|k: int| 0 <= k < c.len() && k != i implies #[trigger] terms[k] == 0 by {
        let kn = k as nat;
        let r = fmul(fpow(g, kn), y);
        // r is an n-th root of unity
        lemma_fpow_base_mul(fpow(g, kn), y, n);
        lemma_fpow_pow(g, kn, n);
        lemma_fpow_pow(g, n, kn);
        assert(kn * n == n * kn) by (nonlinear_arith);
        lemma_fpow_one_base(kn);
        lemma_fpow_pow(gi, i, n);
        lemma_fpow_pow(gi, n, i);
        assert(i * n == n * i) by (nonlinear_arith);
        lemma_fpow_one_base(i);
        lemma_fmul_one(1);
        assert(fpow(r, n) == 1);
        // and not the trivial one
        if r == 1 {
            lemma_fpow_base_mul(gi, g, i);
            lemma_fpow_one_base(i);
            assert(fmul(y, fpow(g, i)) == 1);
            lemma_fmul_assoc(fpow(g, kn), y, fpow(g, i));
            lemma_fpow_reduced(g, kn);
            lemma_fmul_one(fpow(g, kn));
            lemma_fpow_reduced(g, i);
            lemma_fmul_one(fpow(g, i));
            assert(fpow(g, kn) == fpow(g, i));
            lemma_gen_pow_injective(d, kn, i);
        }
        lemma_geo_vanishes(r, n);
        assert(fmul(fpow(h, kn), 0) == 0) by (nonlinear_arith);
        assert(fmul(c[k], 0) == 0) by (nonlinear_arith);
    }
    if i < c.len() {
        // the surviving term: the geometric ratio is exactly one
        lemma_fpow_base_mul(g, gi, i);
        lemma_fpow_one_base(i);
        assert(fmul(fpow(g, i), y) == 1);
        lemma_geo_one(n);
        lemma_fsum_single(terms, i as int);
        let hk = fpow(h, i);
        let ci = c[i as int];
        assert(terms[i as int] == fmul(ci, fmul(hk, n)));
        // size_inv * (hi^i * (ci * (h^i * n))) == ci
        let a = fpow(hi, i);
        lemma_fmul_assoc(a, ci, fmul(hk, n));
        assert(fmul(a, ci) == fmul(ci, a));
        lemma_fmul_assoc(ci, a, fmul(hk, n));
        lemma_fmul_assoc(a, hk, n);
        lemma_fpow_base_mul(hi, h, i);
        lemma_fpow_one_base(i);
        assert(fmul(a, hk) == 1);
        vstd::arithmetic::div_mod::lemma_small_mod(n, 41);
        lemma_fmul_one(n);
        assert(fmul(a, fmul(ci, fmul(hk, n))) == fmul(ci, n));
        lemma_fmul_assoc(ni, ci, n);
        assert(fmul(ni, ci) == fmul(ci, ni));
        lemma_fmul_assoc(ci, ni, n);
        assert(fmul(ni, n) == fmul(n, ni));
        lemma_fmul_one(ci);
        assert(fmul(ni, fmul(ci, n)) == ci);
    } else {
        lemma_fsum_all_zero(terms);
        assert(fmul(fpow(hi, i), 0) == 0) by (nonlinear_arith);
        assert(fmul(ni, 0) == 0) by (nonlinear_arith);
    }
}

/// An entry of a sequence, reading zero beyond its end.
pub open spec fn seq_at(s: Seq<nat>, j: int) -> nat {
    if 0 <= j < s.len() {
        s[j]
    } else {
        0
    }
}

/// Pointwise sum of two coefficient sequences of possibly different
/// lengths, the shorter one read as zero-padded.
pub open spec fn seq_fadd(s1: Seq<nat>, s2: Seq<nat>) -> Seq<nat> {
    Seq::new(
        if s1.len() >= s2.len() {
            s1.len()
        } else {
            s2.len()
        },
        |j: int| fadd(seq_at(s1, j), seq_at(s2, j)),
    )
}

/// The coefficients of the product of two polynomials.
pub open spec fn poly_mul(p: Seq<nat>, q: Seq<nat>) -> Seq<nat>
    decreases p.len(),
{
    if p.len() == 0 {
        Seq::empty()
    } else {
        seq_fadd(
            Seq::new(q.len(), |j: int| fmul(p[0], q[j])),
            seq![0nat] + poly_mul(p.drop_first(), q),
        )
    }
}

/// A product of polynomials with at least one term each has one term fewer
/// than the sum of their term counts.
pub proof fn lemma_poly_mul_len(p: Seq<nat>, q: Seq<nat>)
    requires
        p.len() >= 1,
        q.len() >= 1,
    ensures
        poly_mul(p, q).len() == p.len() + q.len() - 1,
    decreases p.len(),
{
    if p.len() > 1 {
        lemma_poly_mul_len(p.drop_first(), q);
    } else {
        assert(poly_mul(p.drop_first(), q).len() == 0);
    }
}

/// Evaluation is additive also over zero-padded pointwise sums.
#[verifier::rlimit(100)]
proof fn lemma_poly_eval_ragged_add(s1: Seq<nat>, s2: Seq<nat>, y: nat)
    requires
        forall|j: int| 0 <= j < s1.len() ==> #[trigger] s1[j] < 41,
        forall|j: int| 0 <= j < s2.len() ==> #[trigger] s2[j] < 41,
    ensures
        poly_eval(seq_fadd(s1, s2), y) == fadd(poly_eval(s1, y), poly_eval(s2, y)),
    decreases s1.len() + s2.len(),
{
    let m = seq_fadd(s1, s2);
    if m.len() == 0 {
    } else {
        let t1 = if s1.len() == 0 {
            s1
        } else {
            s1.drop_first()
        };
        let t2 = if s2.len() == 0 {
            s2
        } else {
            s2.drop_first()
        };
        lemma_poly_eval_ragged_add(t1, t2, y);
        assert(m.drop_first() =~= seq_fadd(t1, t2));
        let a = seq_at(s1, 0);
        let b = seq_at(s2, 0);
        let c = fmul(y, poly_eval(t1, y));
        let d = fmul(y, poly_eval(t2, y));
        lemma_fmul_fadd(y, poly_eval(t1, y), poly_eval(t2, y));
        if s1.len() == 0 {
            assert(poly_eval(s1, y) == 0);
            assert(fmul(y, 0) == 0) by (nonlinear_arith);
            lemma_fadd_assoc(b, 0, d);
            assert(fadd(0, d) == fadd(d, 0));
        } else if s2.len() == 0 {
            assert(poly_eval(s2, y) == 0);
            assert(fmul(y, 0) == 0) by (nonlinear_arith);
            lemma_fadd_assoc(a, 0, c);
            assert(fadd(0, c) == fadd(c, 0));
        } else {
            lemma_fadd_assoc(a, b, fadd(c, d));
            lemma_fadd_assoc(b, c, d);
            lemma_fadd_assoc(c, b, d);
            assert(fadd(b, c) == fadd(c, b));
            lemma_fadd_assoc(a, c, fadd(b, d));
        }
    }
}

/// A common factor pulls out of an evaluation.
proof fn lemma_poly_eval_scale(s: Seq<nat>, a: nat, y: nat)
    ensures
        poly_eval(Seq::new(s.len(), |j: int| fmul(a, s[j])), y) == fmul(a, poly_eval(s, y)),
    decreases s.len(),
{
    let m = Seq::new(s.len(), |j: int| fmul(a, s[j]));
    if s.len() == 0 {
        assert(fmul(a, 0) == 0) by (nonlinear_arith);
    } else {
        lemma_poly_eval_scale(s.drop_first(), a, y);
        assert(m.drop_first() =~= Seq::new(
            s.drop_first().len(),
            |j: int| fmul(a, s.drop_first()[j]),
        ));
        let pp = poly_eval(s.drop_first(), y);
        lemma_fmul_fadd(a, s[0], fmul(y, pp));
        // y * (a * pp) == a * (y * pp)
        lemma_fmul_assoc(y, a, pp);
        lemma_fmul_assoc(a, y, pp);
    }
}

/// Evaluation is multiplicative: the product polynomial evaluates to the
/// product of the evaluations.
#[verifier::rlimit(100)]
proof fn lemma_poly_eval_mul(p: Seq<nat>, q: Seq<nat>, y: nat)
    requires
        forall|j: int| 0 <= j < p.len() ==> #[trigger] p[j] < 41,
        forall|j: int| 0 <= j < q.len() ==> #[trigger] q[j] < 41,
        y < 41,
    ensures
        poly_eval(poly_mul(p, q), y) == fmul(poly_eval(p, y), poly_eval(q, y)),
    decreases p.len(),
{
    if p.len() == 0 {
        assert(fmul(0, poly_eval(q, y)) == 0) by (nonlinear_arith);
    } else {
        let c0 = p[0];
        let pp = p.drop_first();
        let hd = Seq::new(q.len(), |j: int| fmul(c0, q[j]));
        let pm = poly_mul(pp, q);
        let sh = seq![0nat] + pm;
        lemma_poly_eval_mul(pp, q, y);
        // shifted tail entries stay reduced
        assert forall|j: int| 0 <= j < sh.len() implies #[trigger] sh[j] < 41 by {
            if j > 0 {
                assert(sh[j] == pm[j - 1]);
                if pp.len() == 0 {
                    assert(pm.len() == 0);
                } else {
                    assert(pm[j - 1] == seq_fadd(
                        Seq::new(q.len(), |t: int| fmul(pp[0], q[t])),
                        seq![0nat] + poly_mul(pp.drop_first(), q),
                    )[j - 1]);
                }
            }
        }
        lemma_poly_eval_ragged_add(hd, sh, y);
        lemma_poly_eval_scale(q, c0, y);
        // evaluating the shifted sequence multiplies by y
        assert(sh.drop_first() =~= pm);
        let pv = poly_eval(pm, y);
        assert(poly_eval(sh, y) == fadd(0, fmul(y, pv)));
        vstd::arithmetic::div_mod::lemma_small_mod(fmul(y, pv), 41);
        assert(poly_eval(sh, y) == fmul(y, pv));
        // assemble: (c0 + y*P') * Q == c0*Q + y*(P'*Q)
        let qv = poly_eval(q, y);
        let ppv = poly_eval(pp, y);
        lemma_fmul_fadd(qv, c0, fmul(y, ppv));
        assert(poly_eval(p, y) == fadd(c0, fmul(y, ppv)));
        lemma_fmul_comm(poly_eval(p, y), qv);
        assert(fmul(qv, c0) == fmul(c0, qv));
        // qv * (y * ppv) == y * (ppv * qv)
        lemma_fmul_assoc(qv, y, ppv);
        lemma_fmul_assoc(y, qv, ppv);
        lemma_fmul_assoc(y, ppv, qv);
        assert(fmul(qv, ppv) == fmul(ppv, qv));
    }
}

/// Multiplying in the evaluation domain computes the product polynomial:
/// at every domain element, the product of the two polynomials' evaluations
/// is the evaluation of their product.  With the transforms' contracts this
/// says the pointwise product of two forward transforms is the forward
/// transform of the coefficient-level product.
pub proof fn lemma_mul_in_evaluation_domain(d: DomainCore, p: Seq<nat>, q: Seq<nat>, j: nat)
    requires
        d.wf(),
        forall|k: int| 0 <= k < p.len() ==> #[trigger] p[k] < 41,
        forall|k: int| 0 <= k < q.len() ==> #[trigger] q[k] < 41,
    ensures
        fmul(poly_eval(p, d.elem_spec(j)), poly_eval(q, d.elem_spec(j))) == poly_eval(
            poly_mul(p, q),
            d.elem_spec(j),
        ),
{
    lemma_poly_eval_mul(p, q, d.elem_spec(j));
}

/// The telescoped product form of the geometric sum.
proof fn lemma_geo_product(r: nat, n: nat)
    requires
        r < 41,
    ensures
        fmul(fsub(r, 1), geo(r, n)) == fsub(fpow(r, n), 1),
    decreases n,
{
    let d0 = fsub(r, 1);
    if n == 0 {
        assert(fmul(d0, 0) == 0) by (nonlinear_arith);
        lemma_fsub_self(1);
    } else {
        let n1 = (n - 1) as nat;
        let sp = geo(r, n1);
        lemma_geo_product(r, n1);
        // d0 * (1 + r*sp) == d0 + r*(d0*sp) == d0 + r*(r^(n-1) - 1)
        lemma_fmul_fadd(d0, 1, fmul(r, sp));
        lemma_fmul_one(d0);
        lemma_fmul_assoc(d0, r, sp);
        lemma_fmul_comm(d0, r);
        lemma_fmul_assoc(r, d0, sp);
        // r * (r^(n-1) - 1) == r^n - r
        lemma_fpow_reduced(r, n1);
        lemma_fmul_fsub(r, fpow(r, n1), 1);
        lemma_fmul_one(r);
        // (r - 1) + (r^n - r) == (r^n - 1)
        let rn = fpow(r, n);
        lemma_fpow_reduced(r, n);
        lemma_fadd_ac4(r, fneg(1), rn, fneg(r));
        lemma_fsub_self(r);
        vstd::arithmetic::div_mod::lemma_small_mod(fsub(rn, 1), 41);
        assert(fadd(fsub(rn, 1), fsub(r, r)) == fsub(rn, 1));
    }
}

/// The closed form of the geometric sum for a nontrivial ratio.
proof fn lemma_geo_closed(r: nat, n: nat)
    requires
        r < 41,
        r != 1,
        n >= 1,
    ensures
        geo(r, n) == fmul(finv(fsub(r, 1)), fsub(fpow(r, n), 1)),
{
    let d0 = fsub(r, 1);
    lemma_geo_product(r, n);
    if d0 == 0 {
        lemma_fsub_eq_zero(r, 1);
    }
    lemma_finv(d0);
    lemma_fmul_assoc(finv(d0), d0, geo(r, n));
    lemma_fmul_one(geo(r, n));
}

/// One term of the interpolation sum: the scaled geometric sum at ratio
/// `gen_inv^k * offset_inv * tau` is exactly the `k`-th Lagrange
/// coefficient at `tau`.
proof fn lemma_interp_term(d: DomainCore, tau: nat, k: nat)
    requires
        d.wf(),
        tau < 41,
        d.vanish_spec(tau) != 0,
        k < d.size_spec(),
    ensures
        fmul(
            d.size_inv_spec(),
            geo(fmul(fpow(d.gen_inv_spec(), k), fmul(d.offset_inv_spec(), tau)), d.size_spec()),
        ) == d.lagrange_coeff_spec(tau, k),
{
    let n = d.size_spec();
    let g = d.gen_spec();
    let gi = d.gen_inv_spec();
    let h = d.offset_spec();
    let hi = d.offset_inv_spec();
    let ni = d.size_inv_spec();
    let z = d.vanish_spec(tau);
    let y2 = fmul(hi, tau);
    let gk = fpow(g, k);
    let gik = fpow(gi, k);
    let rk = fmul(gik, y2);
    let xk = d.elem_spec(k);
    let w0 = fsub(tau, xk);
    let m = fmul(hi, gik);

    lemma_fpow_reduced(g, k);
    lemma_fpow_reduced(gi, k);
    if hi == 0 {
        assert(fmul(h, 0) == 0) by (nonlinear_arith);
    }
    if gi == 0 {
        assert(fmul(g, 0) == 0) by (nonlinear_arith);
    }
    lemma_fpow_nonzero(gi, k);
    lemma_fmul_nonzero(hi, gik);

    // m * xk == 1
    lemma_fpow_base_mul(gi, g, k);
    lemma_fmul_comm(gi, g);
    lemma_fpow_one_base(k);
    assert(fmul(gik, gk) == 1);
    lemma_fmul_ac4(hi, gik, h, gk);
    lemma_fmul_comm(hi, h);
    lemma_fmul_one(1);
    assert(fmul(m, xk) == 1);

    // rk == m * tau
    lemma_fmul_assoc(gik, hi, tau);
    lemma_fmul_comm(gik, hi);
    lemma_fmul_assoc(hi, gik, tau);
    assert(rk == fmul(m, tau));

    // tau is outside the domain, so rk != 1 and w0 != 0
    lemma_vanishing_at_element(d, k);
    if rk == 1 {
        lemma_fmul_one(xk);
        lemma_fmul_assoc(xk, m, tau);
        lemma_fmul_comm(xk, m);
        lemma_fmul_one(tau);
        assert(fmul(xk, rk) == tau);
        assert(false);
    }
    if w0 == 0 {
        lemma_fsub_eq_zero(tau, xk);
        assert(false);
    }

    // rk - 1 == m * w0, whose inverse is xk * inv(w0)
    lemma_fmul_fsub(m, tau, xk);
    assert(fsub(rk, 1) == fmul(m, w0));
    if fmul(m, w0) == 0 {
        lemma_no_zero_divisors(m, w0);
    }
    lemma_finv_mul(m, w0);
    lemma_inverse_unique(m, xk);
    assert(finv(fsub(rk, 1)) == fmul(xk, finv(w0)));

    // rk^n - 1 == hi^n * Z(tau)
    lemma_fpow_base_mul(gik, y2, n);
    lemma_fpow_pow(gi, k, n);
    lemma_fpow_pow(gi, n, k);
    assert(k * n == n * k) by (nonlinear_arith);
    lemma_gen_inv_pow(d);
    lemma_fpow_one_base(k);
    assert(fpow(gik, n) == 1);
    lemma_fpow_base_mul(hi, tau, n);
    lemma_fpow_reduced(hi, n);
    lemma_fpow_reduced(tau, n);
    lemma_fpow_reduced(y2, n);
    lemma_fmul_one(fpow(y2, n));
    assert(fpow(rk, n) == fmul(fpow(hi, n), fpow(tau, n)));
    lemma_fpow_reduced(h, n);
    lemma_fmul_fsub(fpow(hi, n), fpow(tau, n), fpow(h, n));
    lemma_fpow_base_mul(hi, h, n);
    lemma_fpow_one_base(n);
    assert(fmul(fpow(hi, n), fpow(h, n)) == 1);
    assert(fmul(fpow(hi, n), z) == fsub(fpow(rk, n), 1));

    // the closed form of the geometric sum collapses to the Lagrange shape
    lemma_geo_closed(rk, n);
    assert(geo(rk, n) == fmul(fmul(xk, finv(w0)), fmul(fpow(hi, n), z)));

    // ni * (h * hi^n) is the Lagrange scaling factor v0
    let v0 = d.lagrange_v0_spec();
    let q0 = fmul(n, fpow(h, (n - 1) as nat));
    let cand = fmul(ni, fmul(h, fpow(hi, n)));
    lemma_fpow_unfold_right(h, (n - 1) as nat);
    assert((n - 1) as nat + 1 == n);
    lemma_fmul_ac4(n, fpow(h, (n - 1) as nat), ni, fmul(h, fpow(hi, n)));
    lemma_fmul_assoc(fpow(h, (n - 1) as nat), h, fpow(hi, n));
    lemma_fmul_comm(fpow(h, n), fpow(hi, n));
    assert(fmul(fpow(h, (n - 1) as nat), fmul(h, fpow(hi, n))) == 1);
    assert(fmul(q0, cand) == fmul(1, 1));
    lemma_fmul_one(1);
    lemma_inverse_unique(q0, cand);
    assert(cand == v0);

    // assemble the product
    let fw = finv(w0);
    let hn_ = fpow(hi, n);
    lemma_fmul_ac4(xk, fw, hn_, z);
    assert(geo(rk, n) == fmul(fmul(xk, hn_), fmul(fw, z)));
    lemma_fmul_assoc(ni, fmul(xk, hn_), fmul(fw, z));
    // the scalar part
    lemma_fmul_comm(h, gk);
    lemma_fmul_assoc(gk, h, hn_);
    assert(fmul(xk, hn_) == fmul(gk, fmul(h, hn_)));
    lemma_fmul_assoc(ni, gk, fmul(h, hn_));
    lemma_fmul_comm(ni, gk);
    lemma_fmul_assoc(gk, ni, fmul(h, hn_));
    assert(fmul(ni, fmul(xk, hn_)) == fmul(gk, v0));
    lemma_fmul_comm(gk, v0);
    // regroup into the Lagrange coefficient
    let a0 = fmul(v0, gk);
    lemma_fmul_assoc(a0, fw, z);
    lemma_fmul_comm(fmul(a0, fw), z);
    assert(fmul(a0, fmul(fw, z)) == fmul(z, fmul(a0, fw)));
    assert(fmul(ni, geo(rk, n)) == fmul(z, fmul(a0, fw)));
}

/// Lagrange interpolation recovers evaluations: at any point `tau` outside
/// the domain, the Lagrange-coefficient-weighted sum of a polynomial's
/// values on the domain equals the polynomial's value at `tau`, for any
/// coefficient sequence no longer than the domain size.
pub proof fn lemma_lagrange_interpolation(d: DomainCore, c: Seq<nat>, tau: nat)
    requires
        d.wf(),
        tau < 41,
        d.vanish_spec(tau) != 0,
        c.len() <= d.size_spec(),
        forall|k: int| 0 <= k < c.len() ==> #[trigger] c[k] < 41,
    ensures
        fsum(
            Seq::new(
                d.size_spec(),
                |i: int|
                    fmul(
                        d.lagrange_coeff_spec(tau, i as nat),
                        poly_eval(c, d.elem_spec(i as nat)),
                    ),
            ),
        ) == poly_eval(c, tau),
{
    let n = d.size_spec();
    let g = d.gen_spec();
    let gi = d.gen_inv_spec();
    let h = d.offset_spec();
    let hi = d.offset_inv_spec();
    let ni = d.size_inv_spec();
    let ev = Seq::new(n, |j: int| poly_eval(c, d.elem_spec(j as nat)));
    assert forall|j: int| 0 <= j < n implies #[trigger] ev[j] < 41 by {
        if c.len() == 0 {
            assert(poly_eval(c, d.elem_spec(j as nat)) == 0);
        } else {
            assert(poly_eval(c, d.elem_spec(j as nat)) == fadd(
                c[0],
                fmul(d.elem_spec(j as nat), poly_eval(c.drop_first(), d.elem_spec(j as nat))),
            ));
        }
    }
    // the inverse transform recovers the zero-padded coefficients
    let cpad = Seq::new(n, |k: int| d.idft_spec(ev, k as nat));
    assert forall|k: int| 0 <= k < n implies #[trigger] cpad[k] == seq_at(c, k) by {
        lemma_ifft_inverts_fft(d, c, ev, k as nat);
    }
    // evaluating the padded coefficients at tau evaluates c at tau
    let zeros = Seq::new(n, |j: int| 0nat);
    assert(cpad =~= seq_fadd(c, zeros)) by {
        assert forall|j: int| 0 <= j < n implies seq_fadd(c, zeros)[j] == cpad[j] by {
            if j < c.len() {
                vstd::arithmetic::div_mod::lemma_small_mod(c[j], 41);
            } else {
                vstd::arithmetic::div_mod::lemma_small_mod(0, 41);
            }
        }
    };
    lemma_poly_eval_ragged_add(c, zeros, tau);
    lemma_poly_eval_all_zero(zeros, tau);
    let pv = poly_eval(c, tau);
    assert(pv < 41) by {
        if c.len() == 0 {
        } else {
            assert(pv == fadd(c[0], fmul(tau, poly_eval(c.drop_first(), tau))));
        }
    };
    vstd::arithmetic::div_mod::lemma_small_mod(pv, 41);
    assert(poly_eval(cpad, tau) == pv);
    // peel the scaling and the offset twist off the inverse transform
    let w = Seq::new(n, |k: int| poly_eval(ev, fpow(gi, k as nat)));
    let s_inner = Seq::new(n, |k: int| fmul(fpow(hi, k as nat), w[k]));
    assert(cpad =~= Seq::new(s_inner.len(), |k: int| fmul(ni, s_inner[k])));
    lemma_poly_eval_scale(s_inner, ni, tau);
    assert(s_inner =~= Seq::new(w.len(), |k: int| fmul(fmul(1, fpow(hi, k as nat)), w[k]))) by {
        assert forall|k: int| 0 <= k < n implies #[trigger] fmul(fmul(1, fpow(hi, k as nat)), w[k])
            == fmul(fpow(hi, k as nat), w[k]) by {
            lemma_fpow_reduced(hi, k as nat);
            lemma_fmul_one(fpow(hi, k as nat));
        }
    };
    lemma_poly_eval_twisted(w, 1, hi, tau);
    let y2 = fmul(hi, tau);
    assert(poly_eval(s_inner, tau) == fmul(1, poly_eval(w, y2)));
    let wv = poly_eval(w, y2);
    assert(wv < 41) by {
        if w.len() == 0 {
        } else {
            assert(wv == fadd(w[0], fmul(y2, poly_eval(w.drop_first(), y2))));
        }
    };
    lemma_fmul_one(wv);
    // the evaluations of ev over the inverse domain, as geometric sums
    assert(w =~= Seq::new(n, |k: int| poly_eval(ev, fmul(1, fpow(gi, k as nat))))) by {
        assert forall|k: int| 0 <= k < n implies #[trigger] fmul(1, fpow(gi, k as nat)) == fpow(
            gi,
            k as nat,
        ) by {
            lemma_fpow_reduced(gi, k as nat);
            lemma_fmul_one(fpow(gi, k as nat));
        }
    };
    lemma_dft_as_sums(ev, 1, gi, y2, n);
    let t1 = Seq::new(
        ev.len(),
        |k: int| fmul(ev[k], fmul(fpow(1, k as nat), geo(fmul(fpow(gi, k as nat), y2), n))),
    );
    assert(wv == fsum(t1));
    // match the interpolation sum term by term
    let target = Seq::new(
        n,
        |i: int| fmul(d.lagrange_coeff_spec(tau, i as nat), poly_eval(c, d.elem_spec(i as nat))),
    );
    assert(target =~= Seq::new(t1.len(), |k: int| fmul(ni, t1[k]))) by {
        assert forall|k: int| 0 <= k < n implies target[k] == fmul(ni, t1[k]) by {
            let kn = k as nat;
            let gg = geo(fmul(fpow(gi, kn), y2), n);
            lemma_fpow_one_base(kn);
            assert(gg < 41) by {
                assert(geo(fmul(fpow(gi, kn), y2), n) == fadd(
                    1,
                    fmul(fmul(fpow(gi, kn), y2), geo(fmul(fpow(gi, kn), y2), (n - 1) as nat)),
                ));
            };
            lemma_fmul_one(gg);
            assert(t1[k] == fmul(ev[k], gg));
            lemma_interp_term(d, tau, kn);
            // ni * (ev_k * gg) == ev_k * (ni * gg) == L_k * ev_k
            lemma_fmul_assoc(ni, ev[k], gg);
            lemma_fmul_comm(ni, ev[k]);
            lemma_fmul_assoc(ev[k], ni, gg);
            lemma_fmul_comm(ev[k], fmul(ni, gg));
        }
    };
    lemma_fsum_scale(t1, ni);
    assert(fsum(target) == fmul(ni, fsum(t1)));
    assert(poly_eval(cpad, tau) == fmul(ni, wv));
}

} // verus!
