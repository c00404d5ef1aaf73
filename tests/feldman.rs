use feldman_vss::{
    field::{generate_prime_wide, mod_inv_wide},
    vss::{
        distribute_shares_wide, evaluate_wide, generate_commitments_wide,
        generate_shares_wide, lagrange_interpolation_zero_wide, reconstruct_secret_wide,
        verify_share_wide,
    },
    BigNat,
    egcd, generate_prime, lagrange_interpolation_zero, mod_exp, mod_inv, reconstruct_secret,
    verify_share, FeldmanVSSParams, Polynomial, VssError,
};

use num_bigint::BigUint;
use std::str::FromStr;

const Q: u64 = 2089;
const G: u64 = 2;
const SECRET: u64 = 1234;

fn fixed_polynomial() -> Polynomial {
    Polynomial { coefficients: vec![SECRET, 10, 3] }
}

fn is_prime(n: u64) -> bool {
    if n < 2 {
        return false;
    }
    let mut d: u64 = 2;
    while d * d <= n {
        if n % d == 0 {
            return false;
        }
        d += 1;
    }
    true
}

fn pick(shares: &[(u64, u64)], indices: &[u64]) -> Vec<(u64, u64)> {
    indices
        .iter()
        .map(|i| *shares.iter().find(|s| s.0 == *i).unwrap())
        .collect()
}

#[test]
fn mod_exp_values() {
    assert_eq!(mod_exp(7, 5, 13), 11);
    assert_eq!(mod_exp(2, 1150, Q), 2038);
    assert_eq!(mod_exp(u64::MAX, u64::MAX, u64::MAX - 1), 1);
}

#[test]
fn mod_exp_edge_values() {
    assert_eq!(mod_exp(7, 0, 13), 1);
    assert_eq!(mod_exp(0, 0, 13), 1);
    assert_eq!(mod_exp(7, 5, 1), 0);
    assert_eq!(mod_exp(7, 0, 1), 0);
}

#[test]
fn egcd_values() {
    assert_eq!(egcd(240, 46), (2, -9, 47));
    assert_eq!(egcd(0, 7), (7, 0, 1));
    assert_eq!(egcd(7, 0), (7, 1, 0));
    assert_eq!(egcd(17, 5), (1, -2, 7));
    let (g, x, y) = egcd(u64::MAX, u64::MAX - 1);
    assert_eq!(g, 1);
    assert_eq!((u64::MAX as i128) * x + ((u64::MAX - 1) as i128) * y, 1);
}

#[test]
fn mod_inv_defined_iff_coprime() {
    assert_eq!(mod_inv(3, 7), Some(5));
    assert_eq!(mod_inv(3, 11), Some(4));
    assert_eq!(mod_inv(10, Q), Some(209));
    assert_eq!(mod_inv(4, 8), None);
    assert_eq!(mod_inv(0, 7), None);
    for a in 0..30u64 {
        let coprime = egcd(a, 30).0 == 1;
        match mod_inv(a, 30) {
            Some(v) => {
                assert!(coprime);
                assert!(v < 30);
                assert_eq!((a * v) % 30, 1);
            }
            None => assert!(!coprime),
        }
    }
}

#[test]
fn generate_prime_gives_primes() {
    for bits in [2usize, 8, 16, 31, 40] {
        for _ in 0..20 {
            let p = generate_prime(bits).unwrap();
            assert!(is_prime(p), "{} is not prime", p);
            assert!(p >= 1u64 << (bits - 1), "{} is below {} bits", p, bits);
            assert!((p as u128) < (1u128 << bits), "{} is above {} bits", p, bits);
        }
    }
    let p = generate_prime(64).unwrap();
    assert!(p >= 1u64 << 63);
}

#[test]
fn generate_prime_rejects_sizes() {
    assert_eq!(generate_prime(0), Err(VssError::PrimeGenerationFailed));
    assert_eq!(generate_prime(65), Err(VssError::PrimeGenerationFailed));
    // no prime has exactly one bit
    assert_eq!(generate_prime(1), Err(VssError::PrimeGenerationFailed));
}

#[test]
fn polynomial_shape() {
    let p = Polynomial::new_for_shamir(4, Q, SECRET);
    assert_eq!(p.coefficients.len(), 4);
    assert_eq!(p.coefficients[0], SECRET);
    for c in &p.coefficients[1..] {
        assert!(*c >= 1 && *c < Q);
    }
    let p = Polynomial::new_for_shamir(50, 2, 5);
    assert!(p.coefficients[1..].iter().all(|c| *c == 1));
    let p = Polynomial::new_for_shamir(50, Q, 5);
    assert!(p.coefficients[1..].iter().any(|c| *c != 1));
    assert!(p.coefficients[1..].iter().any(|c| *c != Q - 1));
    assert_eq!(Polynomial::new_for_shamir(1, Q, 5).coefficients, vec![5]);
}

#[test]
fn polynomial_evaluate() {
    let p = fixed_polynomial();
    assert_eq!(p.evaluate(0, Q), SECRET);
    assert_eq!(p.evaluate(5, Q), 1359);
    assert_eq!(p.evaluate(100, Q), (1234 + 1000 + 30000) % Q);
    assert_eq!(p.evaluate(5, 1000), 359);
}

#[test]
fn commitments_values() {
    let params = FeldmanVSSParams::new(G, Q);
    assert_eq!(params.g, G);
    assert_eq!(params.q, Q);
    assert_eq!(params.generate_commitments(&fixed_polynomial()), vec![777, 1024, 8]);
}

#[test]
fn distribute_shares_values() {
    let params = FeldmanVSSParams::new(G, Q);
    let shares = params.distribute_shares(&fixed_polynomial(), 5).unwrap();
    assert_eq!(shares, vec![(1, 1247), (2, 1266), (3, 1291), (4, 1322), (5, 1359)]);
}

#[test]
fn distribute_shares_rejects_colliding_indices() {
    let params = FeldmanVSSParams::new(G, 7);
    let poly = Polynomial { coefficients: vec![3, 1] };
    assert_eq!(params.distribute_shares(&poly, 7), Err(VssError::DuplicateShareIndex));
    assert_eq!(params.distribute_shares(&poly, 6).unwrap().len(), 6);
    assert_eq!(
        params.generate_shares(3, 2, 9).map(|r| r.0.len()),
        Err(VssError::DuplicateShareIndex)
    );
}

#[test]
fn dealt_shares_verify() {
    let params = FeldmanVSSParams::new(G, Q);
    let poly = fixed_polynomial();
    let comms = params.generate_commitments(&poly);
    let shares = params.distribute_shares(&poly, 5).unwrap();
    for (x, y) in &shares {
        assert!(verify_share(*x, *y, &comms, &params));
    }
    let constant = Polynomial { coefficients: vec![SECRET] };
    let (shares, comms) = (
        params.distribute_shares(&constant, 8).unwrap(),
        params.generate_commitments(&constant),
    );
    for (x, y) in &shares {
        assert!(verify_share(*x, *y, &comms, &params));
    }
}

#[test]
fn share_reduced_past_modulus_fails_verification() {
    let params = FeldmanVSSParams::new(G, Q);
    let poly = Polynomial { coefficients: vec![SECRET, 2000, 5] };
    let comms = params.generate_commitments(&poly);
    let shares = params.distribute_shares(&poly, 1).unwrap();
    assert_eq!(shares[0], (1, 1150));
    assert!(!verify_share(1, 1150, &comms, &params));
}

#[test]
fn wrong_share_value_fails_verification() {
    let params = FeldmanVSSParams::new(G, Q);
    let poly = fixed_polynomial();
    let comms = params.generate_commitments(&poly);
    assert!(!verify_share(3, 1292, &comms, &params));
    assert!(!verify_share(4, 1291, &comms, &params));
}

#[test]
fn mutated_commitment_fails_verification() {
    let params = FeldmanVSSParams::new(G, Q);
    let poly = fixed_polynomial();
    let comms = params.generate_commitments(&poly);
    let shares = params.distribute_shares(&poly, 5).unwrap();
    for j in 0..comms.len() {
        let mut bad = comms.clone();
        bad[j] = (bad[j] + 1) % Q;
        for (x, y) in &shares {
            assert!(!verify_share(*x, *y, &bad, &params));
        }
    }
}

#[test]
fn scenario_small_field() {
    let params = FeldmanVSSParams::new(G, Q);
    let poly = fixed_polynomial();
    let comms = params.generate_commitments(&poly);
    let shares = params.distribute_shares(&poly, 5).unwrap();
    let xs: Vec<u64> = shares.iter().map(|s| s.0).collect();
    assert_eq!(xs, vec![1, 2, 3, 4, 5]);
    for (x, y) in &shares {
        assert!(verify_share(*x, *y, &comms, &params));
    }
    assert_eq!(reconstruct_secret(&pick(&shares, &[1, 3, 5]), 3, Q), Ok(SECRET));
    assert_eq!(reconstruct_secret(&pick(&shares, &[2, 4, 5]), 3, Q), Ok(SECRET));
}

#[test]
fn scenario_small_field_random_polynomial() {
    let params = FeldmanVSSParams::new(G, Q);
    for _ in 0..20 {
        let (shares, comms) = params.generate_shares(SECRET, 3, 5).unwrap();
        assert_eq!(shares.len(), 5);
        assert_eq!(comms.len(), 3);
        assert_eq!(comms[0], mod_exp(G, SECRET, Q));
        assert_eq!(reconstruct_secret(&pick(&shares, &[1, 3, 5]), 3, Q), Ok(SECRET));
        assert_eq!(reconstruct_secret(&pick(&shares, &[2, 4, 5]), 3, Q), Ok(SECRET));
    }
}

#[test]
fn reconstruction_any_subset_and_order() {
    let q: u64 = 1_000_000_007;
    let params = FeldmanVSSParams::new(5, q);
    let (shares, _) = params.generate_shares(424242, 4, 7).unwrap();
    let subsets: [&[u64]; 6] = [
        &[1, 2, 3, 4],
        &[4, 3, 2, 1],
        &[7, 1, 5, 3],
        &[2, 4, 6, 7, 1],
        &[1, 2, 3, 4, 5, 6, 7],
        &[6, 5, 4, 3, 2],
    ];
    for s in subsets {
        assert_eq!(reconstruct_secret(&pick(&shares, s), 4, q), Ok(424242));
    }
}

#[test]
fn reconstruction_reduces_secret() {
    let params = FeldmanVSSParams::new(G, Q);
    let poly = Polynomial { coefficients: vec![Q + 5, 17] };
    let shares = params.distribute_shares(&poly, 2).unwrap();
    assert_eq!(reconstruct_secret(&shares, 2, Q), Ok(5));
}

#[test]
fn reconstruction_below_threshold_is_refused() {
    let params = FeldmanVSSParams::new(G, Q);
    let shares = params.distribute_shares(&fixed_polynomial(), 5).unwrap();
    assert_eq!(
        reconstruct_secret(&pick(&shares, &[1, 2]), 3, Q),
        Err(VssError::InsufficientShares)
    );
    assert_eq!(reconstruct_secret(&[], 1, Q), Err(VssError::InsufficientShares));
}

#[test]
fn below_threshold_interpolation_differs_from_secret() {
    let params = FeldmanVSSParams::new(G, Q);
    let shares = params.distribute_shares(&fixed_polynomial(), 5).unwrap();
    let two = pick(&shares, &[1, 2]);
    let v = lagrange_interpolation_zero(&two, Q).unwrap();
    assert_ne!(v, SECRET);
    assert_eq!(reconstruct_secret(&two, 2, Q), Ok(v));
}

#[test]
fn reconstruction_duplicate_index() {
    let shares = vec![(1, 10), (3, 20), (1 + Q, 30)];
    assert_eq!(reconstruct_secret(&shares, 2, Q), Err(VssError::DuplicateShareIndex));
    let shares = vec![(4, 10), (4, 10)];
    assert_eq!(reconstruct_secret(&shares, 2, Q), Err(VssError::DuplicateShareIndex));
    assert_eq!(lagrange_interpolation_zero(&shares, Q), None);
}

#[test]
fn reconstruction_inverse_undefined() {
    let shares = vec![(1, 10), (4, 20)];
    assert_eq!(reconstruct_secret(&shares, 2, 15), Err(VssError::InverseUndefined));
    assert_eq!(lagrange_interpolation_zero(&shares, 15), None);
}

#[test]
fn interpolation_values() {
    assert_eq!(lagrange_interpolation_zero(&[], Q), Some(0));
    assert_eq!(lagrange_interpolation_zero(&[(9, 77)], Q), Some(77));
    // line through (1, 3) and (2, 5) meets zero at 1
    assert_eq!(lagrange_interpolation_zero(&[(1, 3), (2, 5)], 11), Some(1));
}

#[test]
fn below_threshold_interpolation_is_unrelated_across_trials() {
    let params = FeldmanVSSParams::new(G, Q);
    let mut hits = 0;
    let mut values = std::collections::BTreeSet::new();
    for _ in 0..200 {
        let (shares, _) = params.generate_shares(SECRET, 3, 5).unwrap();
        let v = lagrange_interpolation_zero(&pick(&shares, &[2, 5]), Q).unwrap();
        if v == SECRET {
            hits += 1;
        }
        values.insert(v);
    }
    assert!(hits < 10);
    assert!(values.len() > 100);
}

#[test]
fn randomly_dealt_constant_polynomial_shares_verify() {
    let params = FeldmanVSSParams::new(G, Q);
    let (shares, comms) = params.generate_shares(SECRET, 1, 10).unwrap();
    assert_eq!(comms, vec![mod_exp(G, SECRET, Q)]);
    for (x, y) in &shares {
        assert_eq!(*y, SECRET);
        assert!(verify_share(*x, *y, &comms, &params));
    }
    assert_eq!(reconstruct_secret(&shares[..1], 1, Q), Ok(SECRET));
}

fn big(s: &str) -> BigNat {
    BigNat { limbs: BigUint::from_str(s).unwrap().to_u32_digits() }
}

#[test]
fn interactive_feldman_vss() {
    let shares = vec![
        (big("9550"), big("18919602278323673031046851760634693089117")),
        (big("24571"), big("36327887789328451003212201782115387342483493")),
        (big("25933"), big("55934357380513682591568081080354454850198681")),
        (big("68519"), big("132841689833329350976110287839060563757719983677")),
        (big("83331"), big("635766873914960083864607408973982106190173553973")),
        (big("69931"), big("156388223167164532559319605168774853012564848773")),
        (big("63668"), big("73827200827679711151479550212387225767223347831")),
        (big("98037"), big("2333267208719916331893291708962359562461031958313")),
        (big("8913"), big("10891294502686836777382457274393259980481")),
        (big("49756"), big("10270989938358300332627341680612225590405522623")),
        (big("80651"), big("489466949230035041645701935679697121654450264133")),
        (big("73409"), big("230589914975321730063972438418175389153326506017")),
        (big("62653"), big("64920494536977701702442817440197491822626514681")),
        (big("65862"), big("96811251235585944050484408222911856035702886613")),
        (big("57085"), big("30833552411738175997637326741290713764838927737")),
    ];

    let commitments = vec![
        big("13126420383068338128945497109713047802042211444418566693982109672322157867506"),
        big("11608252019833344481067501514889404975802366901069732424381596350173677867166"),
        big("74848086454058703152874126878808099257028914799352738012045221827888506519856"),
        big("32747611984764819058159202615507510078184872987161563325651774231999858591519"),
        big("38498891942037509122470071137942652677743017376337639159073899908721954514711"),
        big("77318421827468798149829158931660979124799921968196212784738277802917759270837"),
        big("21763044245426738464849354678324532039471513180336697777445611573883236270916"),
        big("48124709334983853620945668779764531788162387636878529269667956732660229186497"),
        big("65399536914080467172370801603907012699409604681638958120018197966562541542478"),
    ];

    let g = BigNat::from_u64(3);
    let q = big("89715053225915147086466643337824135904976077704764787688030218510402096592169");

    for (i, (x, y)) in shares.iter().enumerate() {
        assert!(verify_share_wide(x, y, &commitments, &g, &q), "Share {} failed verification", i + 1);
    }
}

#[test]
fn wide_verification_agrees_with_word_verification() {
    let params = FeldmanVSSParams::new(G, Q);
    let poly = fixed_polynomial();
    let comms = params.generate_commitments(&poly);
    let wide: Vec<BigNat> = comms.iter().map(|c| BigNat::from_u64(*c)).collect();
    let (g, q) = (BigNat::from_u64(G), BigNat::from_u64(Q));
    for x in 1..8u64 {
        for y in [0u64, 1247, 1266, 1291, 1322, 1359, 2088] {
            assert_eq!(
                verify_share_wide(&BigNat::from_u64(x), &BigNat::from_u64(y), &wide, &g, &q),
                verify_share(x, y, &comms, &params)
            );
        }
    }
    let mut bad = wide.clone();
    bad[2] = BigNat::from_u64(9);
    assert!(!verify_share_wide(&BigNat::from_u64(3), &BigNat::from_u64(1291), &bad, &g, &q));
}

#[test]
fn big_nat_from_u64_digits() {
    assert_eq!(BigNat::from_u64(4294967296).limbs, vec![0, 1]);
    assert_eq!(BigNat::from_u64(112500000000).limbs, vec![830850304, 26]);
    assert_eq!(BigNat::from_u64(u64::MAX).limbs, vec![u32::MAX, u32::MAX]);
}

fn big_value(b: &BigNat) -> BigUint {
    BigUint::new(b.limbs.clone())
}

#[test]
fn wide_evaluation_agrees_with_word_evaluation() {
    let c: Vec<BigNat> = [SECRET, 10, 3].iter().map(|v| BigNat::from_u64(*v)).collect();
    let q = BigNat::from_u64(Q);
    for x in [0u64, 1, 5, 100, 4000] {
        let r = evaluate_wide(&c, &BigNat::from_u64(x), &q);
        assert_eq!(big_value(&r), BigUint::from(fixed_polynomial().evaluate(x, Q)));
    }
    let comms = generate_commitments_wide(&c, &BigNat::from_u64(G), &q);
    let values: Vec<BigUint> = comms.iter().map(big_value).collect();
    assert_eq!(values, vec![BigUint::from(777u32), BigUint::from(1024u32), BigUint::from(8u32)]);
}

#[test]
fn wide_dealing_in_a_large_field_verifies() {
    let q = big("89715053225915147086466643337824135904976077704764787688030218510402096592169");
    let g = BigNat::from_u64(3);
    let coefficients: Vec<BigNat> =
        [986743267u64, 123456789, 987654321, 555555555, 42, 7, 1, 99999, 31337]
            .iter()
            .map(|v| BigNat::from_u64(*v))
            .collect();
    let comms = generate_commitments_wide(&coefficients, &g, &q);
    let shares = distribute_shares_wide(&coefficients, 15, &q).unwrap();
    assert_eq!(shares.len(), 15);
    for (k, (x, y)) in shares.iter().enumerate() {
        assert_eq!(big_value(x), BigUint::from(k as u64 + 1));
        assert!(verify_share_wide(x, y, &comms, &g, &q));
        let wrong = BigNat { limbs: (big_value(y) + 1u32).to_u32_digits() };
        assert!(!verify_share_wide(x, &wrong, &comms, &g, &q));
    }
    // the value at 1 is the sum of the coefficients
    let total: u64 = [986743267u64, 123456789, 987654321, 555555555, 42, 7, 1, 99999, 31337]
        .iter()
        .sum();
    assert_eq!(big_value(&shares[0].1), BigUint::from(total));
}

#[test]
fn wide_dealing_rejects_colliding_indices() {
    let c = vec![BigNat::from_u64(3), BigNat::from_u64(1)];
    let q = BigNat::from_u64(7);
    assert!(matches!(distribute_shares_wide(&c, 7, &q), Err(VssError::DuplicateShareIndex)));
    assert!(matches!(distribute_shares_wide(&c, 9, &q), Err(VssError::DuplicateShareIndex)));
    assert_eq!(distribute_shares_wide(&c, 6, &q).unwrap().len(), 6);
}

#[test]
fn wide_mod_inv_values() {
    let inv = |a: u64, m: u64| {
        mod_inv_wide(&BigNat::from_u64(a), &BigNat::from_u64(m)).map(|v| big_value(&v))
    };
    assert_eq!(inv(3, 7), Some(BigUint::from(5u32)));
    assert_eq!(inv(10, Q), Some(BigUint::from(209u32)));
    assert_eq!(inv(4, 8), None);
    assert_eq!(inv(0, 7), None);
    assert_eq!(inv(0, 1), Some(BigUint::from(0u32)));
    for a in 0..30u64 {
        assert_eq!(inv(a, 30), mod_inv(a, 30).map(BigUint::from));
    }
    let q = big("89715053225915147086466643337824135904976077704764787688030218510402096592169");
    let a = big("123456789123456789123456789");
    let v = big_value(&mod_inv_wide(&a, &q).unwrap());
    assert_eq!((big_value(&a) * v) % big_value(&q), BigUint::from(1u32));
}

#[test]
fn wide_reconstruction_in_a_large_field() {
    let q = big("89715053225915147086466643337824135904976077704764787688030218510402096592169");
    let secret = big("55555555555555555555555555555555555555555555555555555");
    let mut coefficients = vec![secret.clone()];
    for v in [123456789u64, 987654321, 555555555, 42, 7, 1, 99999, 31337] {
        coefficients.push(BigNat::from_u64(v));
    }
    let shares = distribute_shares_wide(&coefficients, 15, &q).unwrap();
    let pick_wide = |idx: &[usize]| -> Vec<(BigNat, BigNat)> {
        idx.iter().map(|i| shares[*i - 1].clone()).collect()
    };
    for subset in [
        vec![1, 2, 3, 4, 5, 6, 7, 8, 9],
        vec![15, 3, 9, 1, 11, 6, 13, 2, 8],
        vec![1, 2, 3, 4, 5, 6, 7, 8, 9, 10, 11, 12, 13, 14, 15],
    ] {
        let r = reconstruct_secret_wide(&pick_wide(&subset), 9, &q).unwrap();
        assert_eq!(big_value(&r), big_value(&secret));
    }
    assert!(matches!(
        reconstruct_secret_wide(&pick_wide(&[1, 2, 3]), 9, &q),
        Err(VssError::InsufficientShares)
    ));
    assert!(matches!(
        reconstruct_secret_wide(&pick_wide(&[1, 2, 2]), 3, &q),
        Err(VssError::DuplicateShareIndex)
    ));
}

#[test]
fn wide_interpolation_small_values() {
    let q = BigNat::from_u64(11);
    let pts = vec![
        (BigNat::from_u64(1), BigNat::from_u64(3)),
        (BigNat::from_u64(2), BigNat::from_u64(5)),
    ];
    assert_eq!(big_value(&lagrange_interpolation_zero_wide(&pts, &q).unwrap()), BigUint::from(1u32));
    let pts = vec![
        (BigNat::from_u64(1), BigNat::from_u64(10)),
        (BigNat::from_u64(4), BigNat::from_u64(20)),
    ];
    let q = BigNat::from_u64(15);
    assert!(lagrange_interpolation_zero_wide(&pts, &q).is_none());
    assert!(matches!(reconstruct_secret_wide(&pts, 2, &q), Err(VssError::InverseUndefined)));
}

#[test]
fn wide_prime_generation() {
    for bits in [2usize, 16, 64, 256] {
        let p = big_value(&generate_prime_wide(bits).unwrap());
        assert_eq!(p.bits(), bits as u64);
        let two = BigUint::from(2u32);
        assert_eq!(two.modpow(&(&p - 1u32), &p), BigUint::from(1u32));
        if bits <= 16 {
            assert!(is_prime(p.to_u32_digits()[0] as u64));
        }
    }
    assert!(matches!(generate_prime_wide(0), Err(VssError::PrimeGenerationFailed)));
    assert!(matches!(generate_prime_wide(1), Err(VssError::PrimeGenerationFailed)));
    assert!(matches!(generate_prime_wide(8193), Err(VssError::PrimeGenerationFailed)));
}

#[test]
fn wide_random_dealing_reconstructs() {
    let q = big("89715053225915147086466643337824135904976077704764787688030218510402096592169");
    let g = BigNat::from_u64(3);
    let secret = BigNat::from_u64(986743267);
    let (shares, comms) = generate_shares_wide(&secret, 10, 15, &g, &q).unwrap();
    assert_eq!(shares.len(), 15);
    assert_eq!(comms.len(), 10);
    assert_eq!(big_value(&comms[0]), BigUint::from(3u32).modpow(&BigUint::from(986743267u32), &big_value(&q)));
    let r = reconstruct_secret_wide(&shares[..10], 10, &q).unwrap();
    assert_eq!(big_value(&r), BigUint::from(986743267u32));
    let r = reconstruct_secret_wide(&shares[5..], 10, &q).unwrap();
    assert_eq!(big_value(&r), BigUint::from(986743267u32));
    let small = BigNat::from_u64(7);
    assert!(matches!(
        generate_shares_wide(&secret, 2, 7, &g, &small),
        Err(VssError::DuplicateShareIndex)
    ));
}
