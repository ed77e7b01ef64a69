use bposit_calc::format::{bin_op, from_decimal, un_op, BinOp, Format, UnOp};
use bposit_calc::inspect::{decimal_of, decimal_rational, exact_bin, exact_un, neighbour, neighbours, rational_of, readout};
use bposit_calc::rational::Rational;

fn text(q: &Rational) -> String {
    q.to_decimal(20).0
}

#[test]
fn patterns_have_exact_values() {
    let f = Format::B8;
    assert_eq!(text(&rational_of(f, 0x40).unwrap()), "1");
    assert_eq!(text(&rational_of(f, 0x7f).unwrap()), "240");
    assert_eq!(text(&rational_of(f, 0xc0).unwrap()), "-1");
    assert_eq!(text(&rational_of(f, 0).unwrap()), "0");
    assert!(rational_of(f, 0x80).is_none(), "NaR has no value");
}

#[test]
fn neighbours_step_through_the_order() {
    let f = Format::B8;
    assert_eq!(neighbour(f, 0, true), Some(1));
    assert_eq!(neighbour(f, 0, false), Some(0xff));
    assert_eq!(neighbour(f, 0x7f, true), None);
    assert_eq!(neighbour(f, 0x7f, false), Some(0x7e));
    assert_eq!(neighbour(f, 0x81, false), None);
    assert_eq!(neighbour(f, 0x81, true), Some(0x82));
    assert_eq!(neighbour(f, 0x80, true), None);
    assert_eq!(neighbour(Format::B64, u64::MAX, true), Some(0));
    let nb = neighbours(f, 0).unwrap();
    assert_eq!((nb.prior, nb.next), (Some(0xff), Some(1)));
    assert_eq!(nb.gap_above, nb.gap_below);
}

#[test]
fn exact_results_of_operations() {
    let f = Format::B16;
    let a = from_decimal(f, "1.5").unwrap();
    let b = from_decimal(f, "0.25").unwrap();
    assert_eq!(text(&exact_bin(f, BinOp::Add, a, b).unwrap()), "1.75");
    assert_eq!(text(&exact_bin(f, BinOp::Sub, b, a).unwrap()), "-1.25");
    assert_eq!(text(&exact_bin(f, BinOp::Mul, a, b).unwrap()), "0.375");
    assert_eq!(text(&exact_bin(f, BinOp::Div, a, b).unwrap()), "6");
    assert!(exact_bin(f, BinOp::Div, a, 0).is_none());
    assert!(exact_bin(f, BinOp::Add, a, 0x8000).is_none());
    assert_eq!(text(&exact_un(f, UnOp::Neg, a).unwrap()), "-1.5");
    assert_eq!(text(&exact_un(f, UnOp::Recip, b).unwrap()), "4");
    assert_eq!(text(&exact_un(f, UnOp::Double, a).unwrap()), "3");
    assert_eq!(text(&exact_un(f, UnOp::Half, a).unwrap()), "0.75");
    assert!(exact_un(f, UnOp::Recip, 0).is_none());
}

#[test]
fn literals_have_exact_values() {
    assert_eq!(text(&decimal_rational(" 0.1 ").unwrap()), "0.1");
    assert_eq!(text(&decimal_rational("-2.5e3").unwrap()), "-2500");
    assert!(decimal_rational("1.2.3").is_none());
}

#[test]
fn patterns_as_decimal_text() {
    let f = Format::B8;
    assert_eq!(decimal_of(f, 0, 20), "0");
    assert_eq!(decimal_of(f, 0x80, 20), "NaR");
    assert_eq!(decimal_of(f, 0x7f, 20), "240");
    assert_eq!(decimal_of(f, 0x7f, 1), "200");
}

#[test]
fn readout_of_capped_and_uncapped_decodings() {
    let f = Format::B8;
    let o = readout(&f.decode(0x7f), 20).unwrap();
    assert_eq!(o.shown, "240");
    assert_eq!(o.exact, "240");
    assert!(o.whole);
    assert_eq!(o.significand, "1.875");
    // Uncapped, the same bits read as a regime run of 7: 2^24, with no fraction bits left.
    let u = readout(&f.decode_unbounded(0x7f), 20).unwrap();
    assert_eq!(u.shown, "16777216");
    assert_eq!(u.significand, "1");
    let t = readout(&Format::B64.decode(from_decimal(Format::B64, "0.1").unwrap()), 5).unwrap();
    assert_eq!(t.shown, "0.1");
    assert!(!t.whole);
    assert!(t.exact.starts_with("0.0999999999999999999") || t.exact.starts_with("0.1000000000000000000"), "{}", t.exact);
    assert!(t.exact.len() > 22);
    assert!(readout(&f.decode(0), 20).is_none());
    assert!(readout(&f.decode(0x80), 20).is_none());
}

/// Reading the patterns as two's complement integers, from −maxpos up to maxpos, walks the values
/// upward: each neighbour above is strictly larger.
#[test]
fn two_complement_order_is_value_order() {
    for f in [Format::B8, Format::B16] {
        let n = f.n();
        let half = 1u64 << (n - 1);
        let mut b = half + 1; // −maxpos
        let mut prev = rational_of(f, b).unwrap();
        loop {
            match neighbour(f, b, true) {
                None => break,
                Some(next) => {
                    let v = rational_of(f, next).unwrap();
                    assert_eq!(prev.cmp(&v), std::cmp::Ordering::Less, "{f:?} at {next:#x}");
                    prev = v;
                    b = next;
                }
            }
        }
        assert_eq!(b, half - 1, "the walk ends at maxpos");
    }
}

/// fast-posit's arithmetic is the exact result correctly rounded: over every pair of BPosit8
/// numbers on a grid it agrees with the exact result read back through the library's own
/// rounder.
#[test]
fn arithmetic_is_the_correctly_rounded_exact_result() {
    let f = Format::B8;
    for a in (0u64..256).step_by(3) {
        for b in (1u64..256).step_by(5) {
            if a == 0x80 || b == 0x80 {
                continue;
            }
            for op in [BinOp::Add, BinOp::Sub, BinOp::Mul, BinOp::Div] {
                let Some(exact) = exact_bin(f, op, a, b) else { continue };
                let (text, whole) = exact.to_decimal(60);
                if !whole {
                    continue; // a quotient without a finite expansion
                }
                let want = from_decimal(f, &text).unwrap();
                assert_eq!(bin_op(f, op, a, b), want, "{op:?} {a:#x} {b:#x} exact={text}");
            }
        }
    }
}

#[test]
fn unary_operations_round_their_exact_results() {
    use_unary(Format::B8);
    use_unary(Format::B32);
}

fn use_unary(f: Format) {
    let d = |s: &str| from_decimal(f, s).unwrap();
    assert_eq!(un_op(f, UnOp::Recip, d("3")), d("0.333333333333333333333333333333"));
    assert_eq!(un_op(f, UnOp::Half, d("1")), d("0.5"));
    assert_eq!(un_op(f, UnOp::Double, d("1.5")), d("3"));
    assert_eq!(un_op(f, UnOp::Double, d("-7")), d("-14"));
}
