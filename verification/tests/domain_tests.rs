use fft_domain::field::Fp;
use fft_domain::domain::DomainCore;
use fft_domain::domain::GeneralEvaluationDomain;
use fft_domain::domain::MixedRadixEvaluationDomain;
use fft_domain::domain::Radix2EvaluationDomain;
use fft_domain::domain::batch_inversion;
use fft_domain::domain::evaluate_polynomial;

fn fp(x: u64) -> Fp {
    Fp::new(x)
}

fn fps(xs: &[u64]) -> Vec<Fp> {
    xs.iter().map(|&x| fp(x)).collect()
}

fn general(n: u64) -> DomainCore {
    GeneralEvaluationDomain::new(n).unwrap().domain_core()
}

fn mixed(n: u64) -> DomainCore {
    MixedRadixEvaluationDomain::new(n).unwrap().domain_core()
}

fn sample_domains() -> Vec<DomainCore> {
    vec![general(4), general(8), mixed(5), mixed(10)]
}

fn roundtrip_holds(d: &DomainCore, coeffs: &[u64]) -> bool {
    let c = fps(coeffs);
    let evals = d.fft(&c);
    let back = d.ifft(&evals);
    if back.len() as u64 != d.size() {
        return false;
    }
    for i in 0..back.len() {
        let expected = if i < c.len() { c[i] } else { Fp::zero() };
        if back[i] != expected {
            return false;
        }
    }
    true
}

#[test]
fn fft_ifft_roundtrip_all_radix2_sizes() {
    for n in [1u64, 2, 4, 8] {
        let d = Radix2EvaluationDomain::new(n).unwrap().domain_core();
        let coeffs: Vec<u64> = (1..=n).collect();
        assert!(roundtrip_holds(&d, &coeffs));
        // shorter buffers are zero-padded
        assert!(roundtrip_holds(&d, &coeffs[..coeffs.len() / 2]));
    }
}

#[test]
fn fft_ifft_roundtrip_all_mixed_sizes() {
    for n in [5u64, 10, 20, 40] {
        let d = MixedRadixEvaluationDomain::new(n).unwrap().domain_core();
        let coeffs: Vec<u64> = (1..=n).map(|x| x * 3 + 1).collect();
        assert!(roundtrip_holds(&d, &coeffs));
        assert!(roundtrip_holds(&d, &coeffs[..coeffs.len() / 2]));
    }
}

#[test]
fn fft_ifft_roundtrip_on_cosets() {
    for n in [2u64, 8, 5, 20] {
        let d = GeneralEvaluationDomain::new(n)
            .unwrap()
            .get_coset(fp(7))
            .unwrap()
            .domain_core();
        let coeffs: Vec<u64> = (0..n).map(|x| x * x + 2).collect();
        assert!(roundtrip_holds(&d, &coeffs));
    }
}

#[test]
fn fft_in_place_matches_fft() {
    let d = general(8);
    let c = fps(&[1, 2, 3]);
    let by_value = d.fft(&c);
    let mut buf = c.clone();
    d.fft_in_place(&mut buf);
    assert_eq!(buf, by_value);
    let mut back = by_value.clone();
    d.ifft_in_place(&mut back);
    assert_eq!(&back[..3], &c[..]);
}

#[test]
fn fft_size_two_exact_values() {
    // generator of the size-2 subgroup is 40 == -1
    let d = general(2);
    let evals = d.fft(&fps(&[3, 5]));
    assert_eq!(evals[0], fp(8)); // 3 + 5
    assert_eq!(evals[1], fp(39)); // 3 - 5 == 3 + 5*40 mod 41
}

#[test]
fn vanishing_polynomial_is_zero_exactly_on_domain() {
    for d in sample_domains() {
        let n = d.size();
        for i in 0..n {
            assert!(d.evaluate_vanishing_polynomial(d.element(i)).is_zero());
        }
        // and sampling avoids the domain
        for _ in 0..5 {
            let t = d.sample_element_outside_domain();
            assert!(!d.evaluate_vanishing_polynomial(t).is_zero());
        }
    }
}

#[test]
fn vanishing_polynomial_sparse_form() {
    let d = general(8);
    let p = d.vanishing_polynomial();
    assert_eq!(p.len(), 2);
    assert_eq!(p[0], (0u64, fp(40))); // -offset^size == -1 == 40
    assert_eq!(p[1], (8u64, fp(1)));
    // coset: offset 2, 2^8 == 256 mod 41 == 10, so constant is -10 == 31
    let c = d.get_coset(fp(2)).unwrap();
    let pc = c.vanishing_polynomial();
    assert_eq!(pc[0], (0u64, fp(31)));
    assert_eq!(pc[1], (8u64, fp(1)));
}

#[test]
fn lagrange_at_domain_points_is_indicator() {
    for d in sample_domains() {
        let n = d.size();
        for i in 0..n {
            let l = d.evaluate_all_lagrange_coefficients(d.element(i));
            assert_eq!(l.len() as u64, n);
            for j in 0..n {
                let expected = if i == j { Fp::one() } else { Fp::zero() };
                assert_eq!(l[j as usize], expected);
            }
        }
    }
}

#[test]
fn lagrange_interpolates_outside_domain() {
    // interpolation identity: sum_i L_i(tau) * P(element(i)) == P(tau)
    for d in sample_domains() {
        let n = d.size();
        let coeffs = fps(&[5, 1, 3, 2][..n.min(4) as usize]);
        let tau = d.sample_element_outside_domain();
        let l = d.evaluate_all_lagrange_coefficients(tau);
        let mut acc = Fp::zero();
        for i in 0..n {
            acc = acc.add(l[i as usize].mul(evaluate_polynomial(&coeffs, d.element(i))));
        }
        assert_eq!(acc, evaluate_polynomial(&coeffs, tau));
    }
}

#[test]
fn lagrange_interpolates_on_coset() {
    let d = general(8).get_coset(fp(3)).unwrap();
    let coeffs = fps(&[7, 0, 9, 2, 1]);
    let tau = fp(2);
    assert!(!d.evaluate_vanishing_polynomial(tau).is_zero());
    let l = d.evaluate_all_lagrange_coefficients(tau);
    let mut acc = Fp::zero();
    for i in 0..8 {
        acc = acc.add(l[i as usize].mul(evaluate_polynomial(&coeffs, d.element(i))));
    }
    assert_eq!(acc, evaluate_polynomial(&coeffs, tau));
}

#[test]
fn reindex_by_subdomain_formula() {
    let d8 = general(8);
    let d4 = general(4);
    // subdomain elements occupy every other slot
    assert_eq!(d8.reindex_by_subdomain(&d4, 2), 4);
    // remaining elements fill the gaps: first leftover lands at index 1
    assert_eq!(d8.reindex_by_subdomain(&d4, 4), 1);
    assert_eq!(d8.reindex_by_subdomain(&d4, 5), 3);
    // equal sizes: identity
    let e8 = general(8);
    for j in 0..8 {
        assert_eq!(d8.reindex_by_subdomain(&e8, j), j);
    }
}

#[test]
fn reindex_lands_on_subdomain_elements() {
    // self.element(self.reindex_by_subdomain(other, j)) == other.element(j)
    let cases = [
        (general(8), general(4)),
        (general(8), general(2)),
        (general(8), general(1)),
        (mixed(40), general(8)),
        (mixed(40), mixed(10)),
        (mixed(20), mixed(5)),
    ];
    for (d, o) in cases {
        let small = o.size();
        for j in 0..small {
            let idx = d.reindex_by_subdomain(&o, j);
            assert_eq!(d.element(idx), o.element(j));
        }
    }
}

#[test]
fn mul_polynomials_in_evaluation_domain_is_pointwise() {
    let d = general(4);
    let a = fps(&[1, 2, 3, 4]);
    let b = fps(&[5, 6, 7, 8]);
    let r = d.mul_polynomials_in_evaluation_domain(&a, &b);
    assert_eq!(r, fps(&[5, 12, 21, 32]));
}

#[test]
fn evaluation_domain_multiplication_matches_coefficient_product() {
    // fft(p) .* fft(q) == fft(p*q) when deg p + deg q < size
    let d = general(8);
    let p = fps(&[1, 2]);
    let q = fps(&[3, 4]);
    // (1 + 2x)(3 + 4x) == 3 + 10x + 8x^2
    let pq = fps(&[3, 10, 8]);
    let left = d.mul_polynomials_in_evaluation_domain(&d.fft(&p), &d.fft(&q));
    assert_eq!(left, d.fft(&pq));
}

#[test]
fn distribute_powers_exact_values() {
    let mut buf = fps(&[1, 1, 1, 5]);
    DomainCore::distribute_powers(&mut buf, fp(2));
    assert_eq!(buf, fps(&[1, 2, 4, 40]));
    let mut buf2 = fps(&[1, 1, 1]);
    DomainCore::distribute_powers_and_mul_by_const(&mut buf2, fp(2), fp(3));
    assert_eq!(buf2, fps(&[3, 6, 12]));
}

#[test]
fn distribute_powers_chunking_is_invisible() {
    let base: Vec<u64> = (0..23).map(|x| x * 5 + 2).collect();
    let mut sequential = fps(&base);
    DomainCore::distribute_powers_and_mul_by_const(&mut sequential, fp(6), fp(11));
    for chunk in [1usize, 3, 4, 7, 100] {
        let mut chunked = fps(&base);
        DomainCore::distribute_powers_chunked(&mut chunked, fp(6), fp(11), chunk);
        assert_eq!(chunked, sequential);
    }
}

#[test]
fn size_eight_scenario() {
    // size-8 domain, coefficients 1..8
    let d = general(8);
    assert_eq!(d.size(), 8);
    let coeffs = fps(&[1, 2, 3, 4, 5, 6, 7, 8]);
    let back = d.ifft(&d.fft(&coeffs));
    assert_eq!(back, coeffs);
    let g3 = d.group_gen().pow(3);
    assert!(d.evaluate_vanishing_polynomial(g3).is_zero());
    let l = d.evaluate_all_lagrange_coefficients(g3);
    let unit: Vec<Fp> = (0..8).map(|i| if i == 3 { Fp::one() } else { Fp::zero() }).collect();
    assert_eq!(l, unit);
}

#[test]
fn sizing_and_construction_failures() {
    assert_eq!(GeneralEvaluationDomain::compute_size_of_domain(0), Some(1));
    assert_eq!(GeneralEvaluationDomain::compute_size_of_domain(3), Some(4));
    assert_eq!(GeneralEvaluationDomain::compute_size_of_domain(9), Some(10));
    assert_eq!(GeneralEvaluationDomain::compute_size_of_domain(25), Some(40));
    assert_eq!(GeneralEvaluationDomain::compute_size_of_domain(41), None);
    assert!(GeneralEvaluationDomain::new(41).is_none());
    assert_eq!(Radix2EvaluationDomain::compute_size_of_domain(9), None);
    assert!(Radix2EvaluationDomain::new(9).is_none());
    assert_eq!(MixedRadixEvaluationDomain::compute_size_of_domain(3), Some(5));
    assert!(MixedRadixEvaluationDomain::new(41).is_none());
    // zero coset offsets are rejected
    assert!(general(8).get_coset(Fp::zero()).is_none());
    assert!(GeneralEvaluationDomain::new_coset(8, Fp::zero()).is_none());
    assert!(Radix2EvaluationDomain::new_coset(4, Fp::zero()).is_none());
    assert!(MixedRadixEvaluationDomain::new_coset(12, Fp::zero()).is_none());
}

#[test]
fn accessors_and_elements() {
    let d = general(4);
    assert_eq!(d.size(), 4);
    assert_eq!(d.log_size_of_group(), 2);
    assert_eq!(d.size_as_field_element(), fp(4));
    assert_eq!(d.size_inv().mul(fp(4)), Fp::one());
    assert_eq!(d.group_gen(), fp(32));
    assert_eq!(d.group_gen_inv().mul(d.group_gen()), Fp::one());
    assert_eq!(d.coset_offset(), Fp::one());
    assert_eq!(d.coset_offset_inv(), Fp::one());
    assert_eq!(d.coset_offset_pow_size(), Fp::one());
    assert_eq!(d.element(0), fp(1));
    assert_eq!(d.element(1), fp(32));
    assert_eq!(d.element(2), fp(40));
    assert_eq!(d.element(3), fp(9));
}

#[test]
fn coset_accessors() {
    let d = general(8).get_coset(fp(2)).unwrap();
    assert_eq!(d.coset_offset(), fp(2));
    assert_eq!(d.coset_offset_inv().mul(fp(2)), Fp::one());
    assert_eq!(d.coset_offset_pow_size(), fp(2).pow(8));
    assert_eq!(d.element(1), fp(2).mul(fp(27)));
}

#[test]
fn element_sequence_is_restartable_and_ordered() {
    let d = general(4);
    let mut it = d.elements();
    let mut seen = Vec::new();
    while let Some(x) = it.next() {
        seen.push(x);
    }
    assert_eq!(seen, fps(&[1, 32, 40, 9]));
    assert!(it.next().is_none());
    // a fresh cursor restarts from the first element
    let mut again = d.elements();
    assert_eq!(again.next(), Some(fp(1)));
    for i in 0..4 {
        assert_eq!(seen[i as usize], d.element(i));
    }
}

#[test]
fn general_domain_dispatches_by_size() {
    assert!(matches!(
        GeneralEvaluationDomain::new(6).unwrap(),
        GeneralEvaluationDomain::Radix2(_)
    ));
    assert!(matches!(
        GeneralEvaluationDomain::new(9).unwrap(),
        GeneralEvaluationDomain::MixedRadix(_)
    ));
    assert_eq!(GeneralEvaluationDomain::new(6).unwrap().domain_core().size(), 8);
    assert_eq!(GeneralEvaluationDomain::new(9).unwrap().domain_core().size(), 10);
}

#[test]
fn domains_compare_structurally() {
    let a = GeneralEvaluationDomain::new(8).unwrap();
    let b = GeneralEvaluationDomain::new(7).unwrap();
    assert_eq!(a, b);
    let c = a.get_coset(fp(5)).unwrap();
    assert!(a != c);
}

#[test]
fn batch_inversion_inverts_every_entry() {
    let mut v = fps(&[2, 3, 7, 40]);
    let orig = v.clone();
    batch_inversion(&mut v);
    for i in 0..v.len() {
        assert_eq!(v[i].mul(orig[i]), Fp::one());
    }
    assert_eq!(v[0], fp(21)); // 2 * 21 == 42 == 1 mod 41
}
