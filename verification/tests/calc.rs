use bposit_calc::bitlit::{is_bit_literal, parse_bit_literal};
use bposit_calc::bits::bitstring;
use bposit_calc::calc::{Calc, CalcError};
use bposit_calc::inspect::readout;
use bposit_calc::decimal::{exact_sci, render};
use bposit_calc::format::{from_decimal, Format};

fn from_decimal_bits(c: &Calc, s: &str) -> u64 {
    from_decimal(c.format(), s).unwrap()
}

/// The value in X as the display shows it.
fn shown(c: &Calc) -> String {
    let d = c.format().decode(c.registers()[0]);
    match d.special {
        Some(_) => "special".to_string(),
        None => render(d.neg, &exact_sci(d.frac, d.total_exp - 60), 20).0,
    }
}

#[test]
fn rpn_flow() {
    let mut c = Calc::new();
    c.set_format(2); // BPosit32
    c.push_decimal("3");
    c.push_decimal("5");
    c.binary("add");
    assert_eq!(shown(&c), "8");
    c.unary("recip");
    assert_eq!(shown(&c), "0.125");
    c.unary("double");
    assert_eq!(shown(&c), "0.25");
}

#[test]
fn operand_order() {
    let mut c = Calc::new();
    c.push_decimal("1");
    c.push_decimal("2");
    c.binary("sub"); // Y - X = 1 - 2
    assert_eq!(c.registers()[0], from_decimal_bits(&c, "-1"));
}

/// The four registers are always present, so nothing can under- or overflow.
#[test]
fn stack_is_always_four_deep() {
    let mut c = Calc::new();
    assert_eq!(c.registers(), [0; 4]);

    for v in ["1", "2", "3", "4", "5"] {
        c.push_decimal(v);
    }
    // The fifth push pushed the first value off the end.
    let want = ["5", "4", "3", "2"].map(|v| from_decimal_bits(&c, v));
    assert_eq!(c.registers(), want);

    // Dropping replicates T rather than running out, so the last value persists.
    let two = from_decimal_bits(&c, "2");
    for _ in 0..6 {
        c.drop_x();
    }
    assert_eq!(c.registers(), [two; 4], "T replicates down the whole stack");
}

/// T replicating on a drop is what makes it usable as a constant register.
#[test]
fn t_replicates_on_drop() {
    let mut c = Calc::new();
    c.set_format(2);
    for v in ["9", "3", "2", "1"] {
        c.push_decimal(v);
    }
    let (one, two, three, nine) = (
        from_decimal_bits(&c, "1"),
        from_decimal_bits(&c, "2"),
        from_decimal_bits(&c, "3"),
        from_decimal_bits(&c, "9"),
    );
    assert_eq!(c.registers(), [one, two, three, nine]);

    c.drop_x();
    assert_eq!(c.registers(), [two, three, nine, nine], "T copies down into Z");
    c.drop_x();
    assert_eq!(c.registers(), [three, nine, nine, nine]);
    c.drop_x();
    assert_eq!(c.registers(), [nine; 4], "and keeps refilling");
}

/// Fill the stack with a constant and every drop refills Y with it again.
#[test]
fn t_acts_as_a_constant_through_repeated_operations() {
    let mut c = Calc::new();
    c.set_format(2);
    keys(&mut c, &["2", "ENTER", "ENTER", "ENTER"]);
    let two = from_decimal_bits(&c, "2");
    assert_eq!(c.registers(), [two; 4], "the constant is in every register");

    for want in ["4", "8", "16"] {
        keys(&mut c, &["*"]);
        assert_eq!(c.registers()[0], from_decimal_bits(&c, want));
        assert_eq!(c.registers()[1], two, "T keeps refilling Y with the constant");
    }
}

/// With a fixed stack there are no operand-count failures left to report.
#[test]
fn operations_never_error() {
    let mut c = Calc::new();
    for op in ["add", "sub", "mul", "div"] {
        c.binary(op);
        assert!(c.error().is_none(), "{op}");
    }
    c.drop_x();
    c.swap();
    c.enter_key();
    assert!(c.error().is_none());
}

/// A binary op consumes X and Y, drops the stack, and T replicates.
#[test]
fn binary_drops_the_stack() {
    let mut c = Calc::new();
    for v in ["7", "5", "3", "2"] {
        c.push_decimal(v);
    }
    c.binary("add"); // 3 + 2
    let want = ["5", "5", "7", "7"].map(|v| from_decimal_bits(&c, v));
    assert_eq!(c.registers(), want);
}

/// Drive the calculator the way the keypad does, one keystroke at a time.
fn keys(c: &mut Calc, seq: &[&str]) {
    let mut entry = String::new();
    for k in seq {
        match *k {
            "ENTER" => {
                entry.clear();
                c.enter_key();
            }
            "+" | "-" | "*" | "/" => {
                entry.clear();
                c.binary(match *k {
                    "+" => "add",
                    "-" => "sub",
                    "*" => "mul",
                    _ => "div",
                });
            }
            "SWAP" => {
                entry.clear();
                c.swap();
            }
            digits => {
                for ch in digits.chars() {
                    entry.push(ch);
                    c.type_x(&entry);
                }
            }
        }
    }
}

/// ENTER duplicates X and suspends the lift, so the next number typed replaces the copy.
#[test]
fn enter_duplicates_then_the_next_number_overwrites() {
    let mut c = Calc::new();
    keys(&mut c, &["2", "ENTER"]);
    let two = from_decimal_bits(&c, "2");
    assert_eq!(c.registers()[0], two, "X keeps the value");
    assert_eq!(c.registers()[1], two, "and Y gets a copy");
    assert!(!c.lift_enabled(), "ENTER suspends the lift");

    keys(&mut c, &["3"]);
    assert_eq!(c.registers()[0], from_decimal_bits(&c, "3"));
    assert_eq!(c.registers()[1], two, "the original stays in Y");

    keys(&mut c, &["*"]);
    assert_eq!(c.registers()[0], from_decimal_bits(&c, "6"));
}

/// The whole point of ENTER duplicating: `2 ENTER +` doubles.
#[test]
fn enter_then_an_operator_uses_the_copy() {
    let mut c = Calc::new();
    keys(&mut c, &["2", "ENTER", "+"]);
    assert_eq!(c.registers()[0], from_decimal_bits(&c, "4"));
}

/// Full keystroke sequences, checked end to end.
#[test]
fn keystroke_sequences() {
    let cases: &[(&[&str], &str)] = &[
        (&["2", "ENTER", "3", "*"], "6"),
        (&["2", "ENTER", "3", "+"], "5"),
        (&["10", "ENTER", "4", "-"], "6"),
        (&["12", "ENTER", "4", "/"], "3"),
        (&["7", "ENTER", "ENTER", "+"], "14"),
        (&["2", "ENTER", "3", "+", "4", "*"], "20"),
        (&["1", "ENTER", "2", "SWAP", "-"], "1"),
    ];
    for (seq, want) in cases {
        let mut c = Calc::new();
        c.set_format(2);
        keys(&mut c, seq);
        assert_eq!(c.registers()[0], from_decimal_bits(&c, want), "{seq:?} should give {want}");
    }
}

/// After anything other than ENTER, typing lifts the previous value out of the way.
#[test]
fn typing_after_an_operation_lifts() {
    let mut c = Calc::new();
    keys(&mut c, &["2", "ENTER", "3", "+"]);
    assert!(c.lift_enabled());

    keys(&mut c, &["4"]);
    assert_eq!(c.registers()[0], from_decimal_bits(&c, "4"));
    assert_eq!(c.registers()[1], from_decimal_bits(&c, "5"), "the result was pushed up");
}

/// Successive keystrokes rewrite X rather than lifting again.
#[test]
fn typing_builds_in_x_without_repeated_lifts() {
    let mut c = Calc::new();
    c.set_format(2);
    c.push_decimal("9");
    for prefix in ["1", "1.", "1.2", "1.25"] {
        c.type_x(prefix);
    }
    assert_eq!(c.registers()[0], from_decimal_bits(&c, "1.25"));
    assert_eq!(c.registers()[1], from_decimal_bits(&c, "9"), "only one lift happened");
    assert_eq!(c.registers()[2], 0);
}

/// Half-written literals are shown as far as they go rather than collapsing to zero.
#[test]
fn partial_literals_are_tolerated() {
    let mut c = Calc::new();
    c.set_format(2);
    c.type_x("");
    assert_eq!(c.registers()[0], 0);
    c.type_x("1");
    c.type_x("1e");
    assert_eq!(c.registers()[0], from_decimal_bits(&c, "1"), "a dangling exponent is ignored");
    c.type_x("1e-");
    assert_eq!(c.registers()[0], from_decimal_bits(&c, "1"));
    c.type_x("1e-2");
    assert_eq!(c.registers()[0], from_decimal_bits(&c, "0.01"));
}

#[test]
fn bit_entry() {
    let mut c = Calc::new();
    c.set_format(0);
    assert!(c.push_bits("0x7f"));
    assert_eq!(shown(&c), "240");
    c.clear();
    assert!(c.push_bits("0b01000000"));
    assert_eq!(shown(&c), "1");
}

/// Switching format must preserve values, not bit patterns.
#[test]
fn format_switch_converts_values() {
    let mut c = Calc::new();
    c.set_format(0);
    c.push_decimal("0.5");
    c.set_format(3); // BPosit64
    assert_eq!(c.format(), Format::B64);
    assert_eq!(shown(&c), "0.5");
}

#[test]
fn refused_input_is_reported() {
    let mut c = Calc::new();
    assert!(!c.push_decimal("1.2.3"));
    assert!(matches!(c.error(), Some(CalcError::BadNumber(s)) if s == "1.2.3"));
    assert!(!c.push_bits("0xzz"));
    assert!(matches!(c.error(), Some(CalcError::BadBits(_))));
    c.binary("pow");
    assert!(matches!(c.error(), Some(CalcError::UnknownOp(s)) if s == "pow"));
    c.unary("sqrt");
    assert!(matches!(c.error(), Some(CalcError::UnknownOp(_))));
    assert_eq!(c.registers(), [0; 4], "nothing refused touched the stack");
    assert_eq!(c.format_index(), 1);
    c.clear();
    assert!(c.error().is_none());
}

#[test]
fn bit_literals_accept_separators_and_wrap_to_the_format() {
    assert_eq!(parse_bit_literal(" 0x7F "), Some(0x7f));
    assert_eq!(parse_bit_literal("0b0100_0000"), Some(0x40));
    assert_eq!(parse_bit_literal("101"), Some(5));
    assert_eq!(parse_bit_literal("0x+ff"), Some(0xff));
    assert_eq!(parse_bit_literal("0x"), None);
    assert_eq!(parse_bit_literal("102"), None);
    assert_eq!(parse_bit_literal("0x1_0000_0000_0000_0000"), None);
    assert!(is_bit_literal("  0B1"));
    assert!(!is_bit_literal("1.5"));
    let mut c = Calc::new();
    c.set_format(0);
    assert!(c.push_bits("0x1ff"));
    assert_eq!(c.registers()[0], 0xff, "only the format's width is kept");
}

/// The inspector must explain the tie that makes 60 + 2 and 64 - 2 both land on 64.
#[test]
fn inspector_reports_an_exact_tie() {
    let mut c = Calc::new();
    c.set_format(0); // BPosit8
    c.push_decimal("60");
    c.push_decimal("2");
    c.binary("add");
    let i = c.inspector().expect("the last operation is inspectable");
    assert_eq!(i.rounding.exact, "62");
    assert_eq!(i.rounding.rounded, "64");
    let b = i.rounding.bracket.as_ref().expect("62 lies between two patterns");
    assert!(b.tie);
    assert_eq!(b.position.as_deref(), Some("0.5"));
    assert!(!i.rounding.saturated);
}

/// An exactly representable result must not be dressed up as a rounding.
#[test]
fn inspector_reports_exact_results() {
    let mut c = Calc::new();
    c.set_format(2);
    c.push_decimal("3");
    c.push_decimal("5");
    c.binary("add");
    let i = c.inspector().unwrap();
    assert!(!i.rounding.was_rounded);
    assert_eq!(i.rounding.exact, "8");
}

/// 1/3 has no finite expansion, so the exact value must be flagged as non-terminating rather
/// than presented as if the shown digits were all of it.
#[test]
fn inspector_flags_non_terminating_results() {
    let mut c = Calc::new();
    c.set_format(0);
    c.push_decimal("1");
    c.push_decimal("3");
    c.binary("div");
    let i = c.inspector().unwrap();
    assert!(!i.rounding.terminating);
    assert!(!i.rounding.exact_shown);
    assert_eq!(i.rounding.exact, "0.33333333333333333333");
}

/// Past maxpos there is no bracketing pair, so it must be reported as saturation.
#[test]
fn inspector_reports_saturation() {
    let mut c = Calc::new();
    c.set_format(0);
    c.push_decimal("200");
    c.push_decimal("200");
    c.binary("mul");
    let i = c.inspector().unwrap();
    assert!(i.rounding.saturated);
    assert!(i.rounding.bracket.is_none(), "no position without a bracket");
    assert_eq!(i.rounding.rounded, "240");
}

/// Typing a literal is itself a rounding, and worth inspecting.
#[test]
fn inspector_covers_entry_rounding() {
    let mut c = Calc::new();
    c.set_format(3); // BPosit64
    c.push_decimal("0.1");
    let i = c.inspector().unwrap();
    assert_eq!(i.expr, "0.1");
    assert_eq!(i.rounding.exact, "0.1");
    assert!(i.rounding.was_rounded);
}

/// The inspector describes level 1; once level 1 is something else it must go quiet rather
/// than keep explaining a value that is no longer there.
#[test]
fn inspector_clears_when_it_no_longer_applies() {
    let mut c = Calc::new();
    c.set_format(0);
    c.push_decimal("60");
    c.push_decimal("2");
    c.binary("add");
    assert!(c.inspector().unwrap().rounding.bracket.unwrap().tie);

    c.drop_x();
    assert!(c.inspector().is_none());

    // A format switch re-rounds everything, so the recorded operation no longer applies.
    c.push_decimal("60");
    c.push_decimal("2");
    c.binary("add");
    c.set_format(2);
    assert!(c.inspector().is_none());
}

/// Neighbours bound the value on both sides, except at the ends of the range.
#[test]
fn neighbours_are_reported() {
    let mut c = Calc::new();
    c.set_format(0);
    c.push_decimal("1");
    let nb = c.neighbours().unwrap();
    assert_eq!(nb.gap_below.as_deref(), Some("0.0625"));
    assert_eq!(nb.gap_above.as_deref(), Some("0.125"));

    // maxpos has nothing above it.
    c.clear();
    c.push_bits("0x7f");
    let nb = c.neighbours().unwrap();
    assert!(nb.next.is_none());
    assert!(nb.gap_above.is_none());
}

#[test]
fn inspector_writes_the_operation() {
    let mut c = Calc::new();
    c.set_format(0);
    c.push_decimal("60");
    c.push_decimal("2");
    c.binary("sub");
    assert_eq!(c.inspector().unwrap().expr, "60 \u{2212} 2");
    c.unary("recip");
    assert_eq!(c.inspector().unwrap().expr, "1 \u{00f7} 56");
    c.unary("neg");
    assert!(c.inspector().unwrap().expr.starts_with("\u{2212}(0.0"));
    c.push_decimal("3");
    c.unary("double");
    assert_eq!(c.inspector().unwrap().expr, "3 \u{00d7} 2");
    c.unary("half");
    assert_eq!(c.inspector().unwrap().expr, "6 \u{00f7} 2");
}

#[test]
fn inspector_is_quiet_without_an_exact_result() {
    let mut c = Calc::new();
    c.push_decimal("1");
    c.push_decimal("0");
    c.binary("div"); // 1/0 is NaR: nothing exact to show
    assert!(c.inspector().is_none());
    assert!(c.neighbours().is_none(), "NaR is outside the order");
    c.clear();
    c.unary("recip");
    assert!(c.inspector().is_none());
    c.push_bits("0x1");
    assert!(c.inspector().is_none(), "a raw pattern rounds nothing");
    c.type_x("0.1");
    assert_eq!(c.inspector().unwrap().expr, "0.1");
    c.type_x("0x3");
    assert!(c.inspector().is_none());
}

#[test]
fn inspector_reports_relative_error_and_position() {
    let mut c = Calc::new();
    c.set_format(0);
    c.push_decimal("61"); // between 60 and 64, a quarter of the way up
    let i = c.inspector().unwrap();
    assert_eq!(i.rounding.rounded, "60");
    let b = i.rounding.bracket.as_ref().unwrap();
    assert!(!b.tie);
    assert_eq!(b.position.as_deref(), Some("0.25"));
    assert_eq!((b.lo, b.hi), (0x6f, 0x70));
    // |61 − 60| / 61 = 0.016393…
    assert_eq!(i.rounding.rel_error.as_deref(), Some("0.01639"));
}

/// What the page's state is made of for maxpos of BPosit8: the regime run hits the cap, so no
/// terminator and 3 fraction bits.
#[test]
fn state_json_shape() {
    let mut c = Calc::new();
    c.set_format(0); // BPosit8
    assert!(c.push_decimal("240"));
    let f = c.format();
    assert_eq!(f.name(), "BPosit8");
    let x = c.registers()[0];
    let d = f.decode(x);
    assert!(d.capped);
    assert_eq!(bitstring(x, f.n()), "01111111");
    assert_eq!(readout(&d, 20).unwrap().shown, "240");
    assert_eq!(d.term_len, 0);
    assert!(c.error().is_none());
}

/// 6 ÷ 3 is exactly 2: a quotient whose stored denominator has a factor of three still has a
/// finite expansion, and its text is the whole value.
#[test]
fn inspector_sees_exact_quotients_as_terminating() {
    let mut c = Calc::new();
    c.set_format(2);
    c.push_decimal("6");
    c.push_decimal("3");
    c.binary("div");
    let i = c.inspector().unwrap();
    assert!(i.rounding.terminating);
    assert!(i.rounding.exact_shown);
    assert_eq!(i.rounding.exact, "2");
    assert!(!i.rounding.was_rounded);
}

#[test]
fn refused_actions_hold_their_text() {
    let mut c = Calc::new();
    assert!(!c.push_decimal("1.2.3"));
    assert!(matches!(c.error(), Some(CalcError::BadNumber(t)) if t == "1.2.3"));
    c.enter_key();
    assert!(matches!(c.error(), Some(CalcError::BadNumber(t)) if t == "1.2.3"), "ENTER keeps the error");
    c.set_format(1); // the current format: nothing changes
    assert!(matches!(c.error(), Some(CalcError::BadNumber(_))));
    c.binary("pow");
    assert!(matches!(c.error(), Some(CalcError::UnknownOp(t)) if t == "pow"));
    assert!(!c.push_bits("0xZZ"));
    assert!(matches!(c.error(), Some(CalcError::BadBits(t)) if t == "0xZZ"));
}
