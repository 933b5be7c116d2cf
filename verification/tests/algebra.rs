//! The field, the equality polynomial and the product argument by themselves.

use flock_channel::challenger::{BatchedGrinding, CoinTape};
use flock_channel::field::F128;
use flock_channel::multilinear::{build_eq, LiveMask};
use flock_channel::product_gkr::{prove_plain_grouped, verify_plain, VerifyError};

fn f(bits: u128) -> F128 {
    F128 { bits }
}

/// Some elements without visible structure.
fn scattered(n: usize) -> Vec<F128> {
    let mut bits: u128 = 0x0123_4567_89ab_cdef_0f1e_2d3c_4b5a_6978;
    (0..n)
        .map(|_| {
            bits = bits.wrapping_mul(0xda94_2042_e4dd_58b5_da94_2042_e4dd_58b5).wrapping_add(0x3c6e);
            f(bits ^ (bits >> 61))
        })
        .collect()
}

#[test]
fn the_field_reduces_by_its_polynomial() {
    assert_eq!(f(3) * f(3), f(5));
    assert_eq!(f(7) * f(5), f(0x1b));
    assert_eq!(f(1 << 127) * f(2), f(0x87));
    assert_eq!(f(1 << 64) * f(1 << 64), f(0x87));
    assert_eq!(f(1 << 127) * f(1 << 127), f(0xc000_0000_0000_0000_0000_0000_0000_1067));
    assert_eq!(f(6) + f(3), f(5));
    assert_eq!(F128::new(5, 9), f((9 << 64) + 5));
}

#[test]
fn the_field_laws_hold_on_scattered_elements() {
    let e = scattered(6);
    for &a in &e {
        for &b in &e {
            assert_eq!(a * b, b * a);
            assert_eq!((a + b) * (a + b), a * a + b * b);
            for &c in &e {
                assert_eq!(a * (b * c), (a * b) * c);
                assert_eq!(a * (b + c), a * b + a * c);
            }
        }
        assert_eq!(a + a, F128::zero());
        assert_eq!(a * F128::one(), a);
        assert_eq!(a * F128::zero(), F128::zero());
    }
}

#[test]
fn every_element_but_zero_has_an_inverse() {
    for a in scattered(4) {
        // a^(2^128 - 2) = a^2 a^4 ... a^(2^127)
        let mut square = a;
        let mut inverse = F128::one();
        for _ in 1..128 {
            square = square * square;
            inverse = inverse * square;
        }
        assert_eq!(a * inverse, F128::one());
        assert_eq!(square * square, a);
    }
}

#[test]
fn the_equality_polynomial_splits_one() {
    let point = scattered(3);
    let table = build_eq(&point);
    assert_eq!(table.len(), 8);
    let total = table.iter().fold(F128::zero(), |acc, &e| acc + e);
    assert_eq!(total, F128::one());
    // Lowest coordinate first: entry 1 takes the first coordinate.
    let one = F128::one();
    assert_eq!(table[1], point[0] * (one + point[1]) * (one + point[2]));
    assert_eq!(table[6], (one + point[0]) * point[1] * point[2]);
    assert_eq!(build_eq(&[]), vec![one]);
    assert_eq!(build_eq(&[F128::zero(), one]), vec![f(0), f(0), f(1), f(0)]);
}

#[test]
fn the_live_mask_weighs_live_rows() {
    let rho = scattered(3);
    let mask = LiveMask { nu: 2, counts: vec![3, 1] };
    let table = build_eq(&rho);
    let live = [0, 1, 2, 4].iter().fold(F128::zero(), |acc, &i| acc + table[i]);
    assert_eq!(mask.live_eval(&rho), live);
    let none = LiveMask { nu: 2, counts: vec![0, 0] };
    assert_eq!(none.live_eval(&rho), F128::zero());
    let all = LiveMask { nu: 2, counts: vec![4, 4] };
    assert_eq!(all.live_eval(&rho), F128::one());
}

#[test]
fn dead_rows_are_ones_in_the_product_argument() {
    let grinding = BatchedGrinding { fingerprint_security: 0, round_bits: 0 };
    let coins = scattered(20);
    let lhs = scattered(8);
    let rhs: Vec<F128> = (1..9).map(f).collect();
    let (proof, claim) = prove_plain_grouped(
        lhs.clone(),
        &vec![3, 2],
        rhs,
        &vec![4, 0],
        4,
        3,
        grinding,
        &mut CoinTape::new(coins.clone()),
    );
    assert_eq!(proof.top_lhs, lhs[0] * lhs[1] * lhs[2] * lhs[4] * lhs[5]);
    assert_eq!(proof.top_rhs, f(1) * f(2) * f(3) * f(4));
    let mut tape = CoinTape::new(coins.clone());
    let verified = verify_plain(3, &proof, grinding, &mut tape).unwrap();
    assert_eq!(verified.rho, claim.rho);
    assert_eq!((verified.l_eval, verified.r_eval), (claim.l_eval, claim.r_eval));
    // The evaluations are those of the leaves.
    let table = build_eq(&claim.rho);
    let one = F128::one();
    let leaves = [lhs[0], lhs[1], lhs[2], one, lhs[4], lhs[5], one, one];
    let value = table.iter().zip(leaves).fold(F128::zero(), |acc, (&e, leaf)| acc + e * leaf);
    assert_eq!(claim.l_eval, value);
    // The wrong depth is malformed.
    let mut tape = CoinTape::new(coins);
    assert_eq!(verify_plain(2, &proof, grinding, &mut tape).err(), Some(VerifyError::Malformed));
}
