use bposit_calc::bits::{Special, HIDDEN_BIT};
use bposit_calc::decimal;
use bposit_calc::format::{bin_op, convert, from_decimal, un_op, BinOp, Format, UnOp};
use fast_posit::{Posit, RoundFrom};

type P8 = Posit<8, 2, i8, 2>;
type P16 = Posit<16, 4, i16, 8>;
type P32 = Posit<32, 4, i32, 14>;
type P64 = Posit<64, 4, i64, 20>;

const ALL: [Format; 4] = [Format::B8, Format::B16, Format::B32, Format::B64];

/// A deterministic xorshift, so failures reproduce.
struct Rng(u64);
impl Rng {
    fn next(&mut self) -> u64 {
        self.0 ^= self.0 << 13;
        self.0 ^= self.0 >> 7;
        self.0 ^= self.0 << 17;
        self.0
    }
}

/// `fast-posit`'s own value of a pattern, as an `f64`.
fn to_f64(fmt: Format, bits: u64) -> f64 {
    match fmt {
        Format::B8 => f64::round_from(P8::from_bits(bits as i8)),
        Format::B16 => f64::round_from(P16::from_bits(bits as i16)),
        Format::B32 => f64::round_from(P32::from_bits(bits as i32)),
        Format::B64 => f64::round_from(P64::from_bits(bits as i64)),
    }
}

/// The value of a bit pattern, reconstructed from the library's decoder.
fn our_f64(fmt: Format, bits: u64) -> f64 {
    let f = fmt.decode(bits);
    match f.special {
        Some(Special::Zero) => 0.0,
        Some(Special::NaR) => f64::NAN,
        None => {
            let sig = f.frac as f64 / (1u64 << HIDDEN_BIT) as f64;
            let v = sig * (f.total_exp as f64).exp2();
            if f.neg {
                -v
            } else {
                v
            }
        }
    }
}

fn same(a: f64, b: f64) -> bool {
    (a.is_nan() && b.is_nan()) || a == b
}

/// `fast-posit` parameterises the cap as RS (max regime bits); the reference definition uses
/// k_max (max regime value).
#[test]
fn rs_matches_kmax_plus_one() {
    assert_eq!(P8::RS, Format::B8.cap());
    assert_eq!(P16::RS, Format::B16.cap());
    assert_eq!(P32::RS, Format::B32.cap());
    assert_eq!(P64::RS, Format::B64.cap());
    assert_eq!(P8::ES, Format::B8.es());
    assert_eq!(P16::ES, Format::B16.es());
    assert_eq!(P32::ES, Format::B32.es());
    assert_eq!(P64::ES, Format::B64.es());
}

/// The published fraction floors: 3, 3, 13, 39.
#[test]
fn fraction_floors_match_reference() {
    assert_eq!(Format::B8.p_min(), 3);
    assert_eq!(Format::B16.p_min(), 3);
    assert_eq!(Format::B32.p_min(), 13);
    assert_eq!(Format::B64.p_min(), 39);
}

/// The field decoder must agree with `fast-posit` over every 8- and 16-bit pattern.
#[test]
fn decode_agrees_exhaustively() {
    for fmt in [Format::B8, Format::B16] {
        for bits in 0..(1u64 << fmt.n()) {
            assert!(
                same(our_f64(fmt, bits), to_f64(fmt, bits)),
                "{:?} bits={bits:b}: ours={} fast-posit={}",
                fmt,
                our_f64(fmt, bits),
                to_f64(fmt, bits)
            );
        }
    }
}

/// BPosit32 still fits an f64 exactly (at most 26 significand bits), so it can be sampled.
#[test]
fn decode_agrees_on_bposit32() {
    let mut rng = Rng(0x1234_5678_9abc_def0);
    for _ in 0..200_000 {
        let bits = rng.next() & Format::B32.mask();
        assert!(
            same(our_f64(Format::B32, bits), to_f64(Format::B32, bits)),
            "bits={bits:032b}"
        );
    }
}

/// Bit patterns read as signed integers are ordered by value.
#[test]
fn patterns_are_monotonic_in_value() {
    for fmt in [Format::B8, Format::B16] {
        let n = fmt.n();
        let mut prev = f64::NEG_INFINITY;
        for i in (-(1i64 << (n - 1)) + 1)..(1i64 << (n - 1)) {
            let bits = (i as u64) & fmt.mask();
            let v = to_f64(fmt, bits);
            assert!(v > prev, "{:?} not monotonic at {i}: {prev} then {v}", fmt);
            prev = v;
        }
    }
}

/// Nothing nonzero may round to zero or to NaR: posits saturate instead.
#[test]
fn rounding_never_produces_zero_or_nar() {
    for fmt in ALL {
        for s in ["1e-300", "-1e-300", "1e300", "-1e300", "1e-99999", "1e99999"] {
            let bits = from_decimal(fmt, s).expect("parse");
            assert_ne!(bits, 0, "{:?} {s} rounded to zero", fmt);
            assert_ne!(bits, fmt.nar_bits(), "{:?} {s} rounded to NaR", fmt);
        }
        assert_eq!(from_decimal(fmt, "0"), Some(0));
        assert_eq!(from_decimal(fmt, "-0.000"), Some(0));
    }
}

/// Every narrower format's grid sits inside BPosit64's, so widening then narrowing is lossless.
#[test]
fn widening_roundtrip_is_lossless() {
    for fmt in [Format::B8, Format::B16] {
        for bits in 0..(1u64 << fmt.n()) {
            let wide = convert(fmt, Format::B64, bits);
            let back = convert(Format::B64, fmt, wide);
            assert_eq!(back, bits, "{:?} bits={bits:b}", fmt);
        }
    }
    let mut rng = Rng(0xabcd_ef01_2345_6789);
    for _ in 0..50_000 {
        let bits = rng.next() & Format::B32.mask();
        let wide = convert(Format::B32, Format::B64, bits);
        assert_eq!(convert(Format::B64, Format::B32, wide), bits, "bits={bits:032b}");
    }
}

/// Converting must preserve the value, not the bit pattern.
#[test]
fn conversion_preserves_value() {
    let one8 = from_decimal(Format::B8, "1").unwrap();
    let one64 = from_decimal(Format::B64, "1").unwrap();
    assert_eq!(convert(Format::B8, Format::B64, one8), one64);
    let half8 = from_decimal(Format::B8, "0.5").unwrap();
    let half32 = from_decimal(Format::B32, "0.5").unwrap();
    assert_eq!(convert(Format::B8, Format::B32, half8), half32);
}

/// Posit arithmetic saturates rather than overflowing, and 1/0 is NaR.
#[test]
fn saturation_and_nar() {
    for fmt in ALL {
        let max = fmt.max_bits();
        assert_eq!(bin_op(fmt, BinOp::Add, max, max), max, "{:?}", fmt);
        assert_eq!(bin_op(fmt, BinOp::Mul, max, max), max, "{:?}", fmt);
        let one = from_decimal(fmt, "1").unwrap();
        assert_eq!(bin_op(fmt, BinOp::Div, one, 0), fmt.nar_bits(), "{:?}", fmt);
        assert_eq!(un_op(fmt, UnOp::Recip, 0), fmt.nar_bits(), "{:?}", fmt);
    }
}

/// Negation is exactly two's complement of the bit pattern, for every non-NaR value.
#[test]
fn negation_is_twos_complement() {
    for fmt in [Format::B8, Format::B16] {
        for bits in 0..(1u64 << fmt.n()) {
            if bits == fmt.nar_bits() {
                continue;
            }
            assert_eq!(
                un_op(fmt, UnOp::Neg, bits),
                bits.wrapping_neg() & fmt.mask(),
                "{:?} bits={bits:b}",
                fmt
            );
        }
    }
}

/// In BPosit8 every pattern carries exactly 3 fraction bits, so doubling is exact right up to
/// the point it saturates.
#[test]
fn doubling_is_exact_until_saturation() {
    let fmt = Format::B8;
    let mut v = from_decimal(fmt, "1").unwrap();
    let max = fmt.max_bits();
    let mut expect = 1.0f64;
    for _ in 0..7 {
        v = un_op(fmt, UnOp::Double, v);
        expect *= 2.0;
        assert_eq!(to_f64(fmt, v), expect);
    }
    // 2^7 = 128 is representable; the next doubling saturates at maxpos = 240.
    v = un_op(fmt, UnOp::Double, v);
    assert_eq!(v, max);
    assert_eq!(to_f64(fmt, v), 240.0);
}

#[test]
fn format_parameters() {
    assert_eq!(Format::B8.name(), "BPosit8");
    assert_eq!(Format::B64.name(), "BPosit64");
    assert_eq!(Format::B16.n(), 16);
    assert_eq!(Format::B8.es(), 2);
    assert_eq!(Format::B32.es(), 4);
    assert_eq!(Format::B32.kmax(), 13);
    assert_eq!(Format::B64.cap(), 20);
    assert_eq!(Format::from_index(2), Format::B32);
    assert_eq!(Format::from_index(99), Format::B64);
    assert_eq!(Format::B16.index(), 1);
    assert_eq!(Format::B16.mask(), 0xffff);
    assert_eq!(Format::B8.nar_bits(), 0x80);
    assert_eq!(Format::B8.max_bits(), 0x7f);
    assert_eq!(Format::B8.min_positive_bits(), 1);
    // The unbounded shadow of BPosit8's maxpos is 2^24.
    assert_eq!(Format::B8.decode_unbounded(0x7f).total_exp, 24);
    assert_eq!(Format::B8.decode(0x7f).total_exp, 7);
}

#[test]
fn literal_grammar() {
    let fmt = Format::B16;
    let one = from_decimal(fmt, "1").unwrap();
    assert_eq!(from_decimal(fmt, "  +1.0  "), Some(one));
    assert_eq!(from_decimal(fmt, "1_0e-1"), Some(one));
    assert_eq!(from_decimal(fmt, "0.1E1"), Some(one));
    // A marker with nothing after it stands for exponent zero.
    assert_eq!(from_decimal(fmt, "1e"), Some(one));
    assert_eq!(from_decimal(fmt, ""), None);
    assert_eq!(from_decimal(fmt, "   "), None);
    assert_eq!(from_decimal(fmt, "."), None);
    assert_eq!(from_decimal(fmt, "1.2.3"), None);
    assert_eq!(from_decimal(fmt, "1e+"), None);
    assert_eq!(from_decimal(fmt, "1e1.5"), None);
    assert_eq!(from_decimal(fmt, "1x"), None);
    assert_eq!(from_decimal(fmt, "--1"), None);
    assert_eq!(from_decimal(fmt, "1e99999999999"), None);
    assert_eq!(from_decimal(fmt, "-1"), Some(one.wrapping_neg() & fmt.mask()));
}

#[test]
fn rounding_ties_go_to_even() {
    // In BPosit8 the patterns 0x40 (1) and 0x41 (1.125) bracket 1.0625, an exact tie: the even
    // pattern wins. 1.1875 ties between 0x41 and 0x42 (1.25) and also goes to the even one.
    let fmt = Format::B8;
    assert_eq!(from_decimal(fmt, "1.0625"), Some(0x40));
    assert_eq!(from_decimal(fmt, "1.1875"), Some(0x42));
    assert_eq!(from_decimal(fmt, "1.07"), Some(0x41));
    // Saturation at both ends.
    assert_eq!(from_decimal(fmt, "1000"), Some(0x7f));
    assert_eq!(from_decimal(fmt, "0.000001"), Some(1));
}

/// Rounding a few short literals lands where `fast-posit`'s own conversion lands.
#[test]
fn decimal_rounding_agrees_on_simple_values() {
    for fmt in [Format::B8, Format::B16, Format::B32] {
        for (s, v) in [("3", 3.0f64), ("-3", -3.0), ("0.5", 0.5), ("2.5", 2.5), ("0.125", 0.125)] {
            let theirs = match fmt {
                Format::B8 => P8::round_from(v).to_bits() as u8 as u64,
                Format::B16 => P16::round_from(v).to_bits() as u16 as u64,
                _ => P32::round_from(v).to_bits() as u32 as u64,
            };
            assert_eq!(from_decimal(fmt, s), Some(theirs), "{:?} {s}", fmt);
        }
    }
}

#[test]
fn conversion_of_specials_and_negatives() {
    assert_eq!(convert(Format::B16, Format::B8, 0), 0);
    assert_eq!(convert(Format::B16, Format::B8, 0x8000), 0x80);
    let m3_16 = from_decimal(Format::B16, "-3").unwrap();
    let m3_8 = from_decimal(Format::B8, "-3").unwrap();
    assert_eq!(convert(Format::B16, Format::B8, m3_16), m3_8);
    // Narrowing saturates.
    let big64 = from_decimal(Format::B64, "1e100").unwrap();
    assert_eq!(convert(Format::B64, Format::B8, big64), 0x7f);
    assert_eq!(convert(Format::B8, Format::B8, 0x55), 0x55);
}

/// Exhaustive check that exact decimal rounding reproduces every 16-bit value from its exact
/// decimal expansion.
#[test]
fn decimal_roundtrips_exhaustively_16bit() {
    let fmt = Format::B16;
    for bits in 0..(1u64 << 16) {
        let d = fmt.decode(bits);
        if d.special.is_some() {
            continue;
        }
        let sci = decimal::exact_sci(d.frac, d.total_exp - HIDDEN_BIT as i64);
        let s = decimal::exact_string(d.neg, &sci);
        assert_eq!(from_decimal(fmt, &s), Some(bits), "bits={bits:016b} decimal={s}");
    }
}

/// The same round-trip for BPosit64, where the expansion runs to hundreds of digits.
#[test]
fn decimal_roundtrips_on_bposit64() {
    let fmt = Format::B64;
    let mut rng = Rng(0xfeed_face_dead_beef);
    for _ in 0..300 {
        let bits = rng.next();
        let d = fmt.decode(bits);
        if d.special.is_some() {
            continue;
        }
        let sci = decimal::exact_sci(d.frac, d.total_exp - HIDDEN_BIT as i64);
        let s = decimal::exact_string(d.neg, &sci);
        assert_eq!(from_decimal(fmt, &s), Some(bits), "bits={bits:016x}");
    }
}

/// Exact decimal of an f64, so `from_decimal` can be checked against `fast-posit`'s rounding.
fn f64_exact_decimal(v: f64) -> String {
    let b = v.to_bits();
    let neg = b >> 63 == 1;
    let biased = ((b >> 52) & 0x7ff) as i64;
    let mant = b & ((1u64 << 52) - 1);
    let (m, e) = if biased == 0 {
        (mant, -1074i64)
    } else {
        (mant | (1u64 << 52), biased - 1075)
    };
    if m == 0 {
        return "0".into();
    }
    decimal::exact_string(neg, &decimal::exact_sci(m, e))
}

/// `fast-posit`'s rounding of an `f64`.
fn from_f64(fmt: Format, v: f64) -> u64 {
    match fmt {
        Format::B8 => P8::round_from(v).to_bits() as u64 & fmt.mask(),
        Format::B16 => P16::round_from(v).to_bits() as u64 & fmt.mask(),
        Format::B32 => P32::round_from(v).to_bits() as u64 & fmt.mask(),
        Format::B64 => P64::round_from(v).to_bits() as u64 & fmt.mask(),
    }
}

/// Rounding a decimal literal must land exactly where `fast-posit` lands, for every format
/// where an f64 can express the input faithfully.
#[test]
fn decimal_rounding_matches_fast_posit() {
    let mut rng = Rng(0x0bad_c0de_1234_5678);
    for fmt in [Format::B8, Format::B16, Format::B32] {
        let mut cases: Vec<f64> = vec![
            0.0,
            1.0,
            -1.0,
            0.5,
            2.0,
            3.0,
            -3.0,
            0.1,
            -0.1,
            1e10,
            1e-10,
            123.456,
            1.0 / 3.0,
            2.5,
            1.5,
            0.125,
            1e30,
            1e-30,
            6.02214076e23,
        ];
        for _ in 0..3000 {
            let r = rng.next();
            let exp = ((r >> 52) % 120) as i32 - 60;
            let frac = 1.0 + (r & 0xfffff) as f64 / 0x100000 as f64;
            let sign = if r & (1 << 63) != 0 { -1.0 } else { 1.0 };
            cases.push(sign * frac * (exp as f64).exp2());
        }
        for v in cases {
            let s = f64_exact_decimal(v);
            let ours = from_decimal(fmt, &s).expect("parse");
            let theirs = from_f64(fmt, v);
            assert_eq!(ours, theirs, "{:?} v={v} decimal={s}: ours={ours:b} fast-posit={theirs:b}", fmt);
        }
    }
}

