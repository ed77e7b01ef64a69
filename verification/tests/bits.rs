// Bit literals below are grouped by posit field (sign | regime | terminator | exponent |
// fraction), which is the whole point of reading them, so the groups are not equal sized.
#![allow(clippy::unusual_byte_groupings)]

use bposit_calc::bits::{bitstring, decode, mask_n, Special, HIDDEN_BIT};

/// Reconstruct the value as an f64. Only used where the significand is small enough to fit.
fn value_f64(bits: u64, n: u32, es: u32, kmax: u32) -> f64 {
    let f = decode(bits, n, es, kmax);
    match f.special {
        Some(Special::Zero) => 0.0,
        Some(Special::NaR) => f64::NAN,
        None => {
            let sig = f.frac as f64 / (1u64 << HIDDEN_BIT) as f64;
            let v = sig * (f.total_exp as f64).exp2();
            if f.neg {
                -v
            } else {
                v
            }
        }
    }
}

#[test]
fn specials() {
    let f = decode(0, 8, 2, 1);
    assert_eq!(f.special, Some(Special::Zero));
    let f = decode(0b1000_0000, 8, 2, 1);
    assert_eq!(f.special, Some(Special::NaR));
}

#[test]
fn bposit8_one() {
    // 1.0 is k=0, e=0, frac=1.0. With cap=2 the run is a single 1 plus a terminator.
    let f = decode(0b0_1_0_00_000, 8, 2, 1);
    assert!(!f.neg);
    assert_eq!(f.k, 0);
    assert_eq!(f.total_exp, 0);
    assert_eq!(f.frac, 1u64 << HIDDEN_BIT);
    assert_eq!(f.regime_len, 1);
    assert_eq!(f.term_len, 1);
    assert_eq!(f.exp_len, 2);
    assert_eq!(f.frac_len, 3);
    assert!(!f.capped);
    assert_eq!(value_f64(0b0_1_0_00_000, 8, 2, 1), 1.0);
}

#[test]
fn bposit8_max_is_capped() {
    // 0b0_11_11_111: the run of ones hits cap=2, so no terminator is stored.
    let f = decode(0b0111_1111, 8, 2, 1);
    assert!(f.capped);
    assert_eq!(f.regime_len, 2);
    assert_eq!(f.term_len, 0);
    assert_eq!(f.k, 1);
    assert_eq!(f.exp_len, 2);
    assert_eq!(f.frac_len, 3);
    assert_eq!(f.e, 3);
    assert_eq!(f.total_exp, 7);
    assert_eq!(value_f64(0b0111_1111, 8, 2, 1), 240.0);
}

/// Every BPosit8 pattern has exactly 3 fraction bits: with cap=2 the regime plus terminator
/// always consumes exactly 2 bits.
#[test]
fn bposit8_precision_is_uniform() {
    for bits in 0u64..256 {
        let f = decode(bits, 8, 2, 1);
        if f.special.is_some() {
            continue;
        }
        assert_eq!(f.frac_len, 3, "bits={bits:08b}");
        assert_eq!(f.exp_len, 2, "bits={bits:08b}");
        assert_eq!(f.regime_len + f.term_len, 2, "bits={bits:08b}");
    }
}

/// The fraction width never drops below the format's floor `p_min = n - 1 - cap - es`.
#[test]
fn fraction_floor_holds() {
    for &(n, es, kmax, p_min) in &[(8u32, 2u32, 1u32, 3u32), (16, 4, 7, 3)] {
        for bits in 0..(1u64 << n) {
            let f = decode(bits, n, es, kmax);
            if f.special.is_some() {
                continue;
            }
            assert!(
                f.frac_len >= p_min,
                "n={n} bits={bits:b} frac_len={} < p_min={p_min}",
                f.frac_len
            );
        }
    }
}

/// Negation must mirror the fields exactly: a posit and its negation share a magnitude.
#[test]
fn negation_mirrors_fields() {
    for bits in 1u64..256 {
        if bits == 0b1000_0000 {
            continue; // NaR
        }
        let f = decode(bits, 8, 2, 1);
        let neg_bits = bits.wrapping_neg() & mask_n(8);
        let g = decode(neg_bits, 8, 2, 1);
        assert_eq!(f.neg, !g.neg, "bits={bits:08b}");
        assert_eq!(f.total_exp, g.total_exp, "bits={bits:08b}");
        assert_eq!(f.frac, g.frac, "bits={bits:08b}");
        assert_eq!(f.regime_len, g.regime_len, "bits={bits:08b}");
        assert_eq!(f.frac_len, g.frac_len, "bits={bits:08b}");
    }
}

/// With the cap disabled (`kmax = n-1`) we must reproduce ordinary posit behaviour.
#[test]
fn uncapped_matches_ordinary_posit() {
    // maxpos of an unbounded p<8,2> is 2^24: regime run of 7 ones, k=6, es=2.
    let f = decode(0b0111_1111, 8, 2, 7);
    assert_eq!(f.k, 6);
    assert_eq!(f.total_exp, 24);
    assert!(!f.capped);
    assert_eq!(value_f64(0b0111_1111, 8, 2, 7), 16777216.0);
}

#[test]
fn masks_and_bitstrings() {
    assert_eq!(mask_n(8), 0xff);
    assert_eq!(mask_n(64), u64::MAX);
    assert_eq!(bitstring(0b0111_1111, 8), "01111111");
    assert_eq!(bitstring(5, 4), "0101");
}

#[test]
fn negative_values_decode_from_their_magnitude() {
    // -1.0 in BPosit8 is the two's complement of 0b0100_0000.
    let f = decode(0b1100_0000, 8, 2, 1);
    assert!(f.neg);
    assert_eq!(f.total_exp, 0);
    assert_eq!(f.magnitude, 0b0100_0000);
    assert_eq!(value_f64(0b1100_0000, 8, 2, 1), -1.0);
}
