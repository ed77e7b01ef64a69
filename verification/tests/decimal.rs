use bposit_calc::decimal::{exact_sci, exact_string, render, round_digits, sci_from};

fn sci_of(frac: u64, s: i64) -> String {
    let sci = exact_sci(frac, s);
    exact_string(false, &sci)
}

#[test]
fn integers() {
    assert_eq!(sci_of(1, 0), "1");
    assert_eq!(sci_of(3, 0), "3");
    assert_eq!(sci_of(1, 10), "1024");
    assert_eq!(sci_of(5, 3), "40");
}

#[test]
fn negative_powers_are_exact() {
    assert_eq!(sci_of(1, -1), "0.5");
    assert_eq!(sci_of(1, -3), "0.125");
    assert_eq!(sci_of(1, -10), "0.0009765625");
    // 2^-60, the kind of expansion f64 could not print exactly
    assert_eq!(
        sci_of(1, -60),
        "0.000000000000000000867361737988403547205962240695953369140625"
    );
}

#[test]
fn scientific_form_is_normalised() {
    let s = exact_sci(1, 10);
    assert_eq!(s.digits, "1024");
    assert_eq!(s.exp, 3);
    let s = exact_sci(5, 3);
    assert_eq!(s.digits, "4"); // 40 -> 4 x 10^1
    assert_eq!(s.exp, 1);
}

#[test]
fn rounding_carries() {
    // Carrying off the front bumps the exponent; the trailing zero is not significant.
    let (d, shift) = round_digits("999", 2);
    assert_eq!((d.as_str(), shift), ("1", 1));
    let (d, shift) = round_digits("123456", 3);
    assert_eq!((d.as_str(), shift), ("123", 0));
    let (d, shift) = round_digits("125", 2);
    assert_eq!((d.as_str(), shift), ("13", 0));
    // Trailing zeros created by rounding are dropped.
    let (d, shift) = round_digits("10499", 3);
    assert_eq!((d.as_str(), shift), ("105", 0));
}

#[test]
fn render_marks_truncation() {
    let sci = exact_sci(1, -60);
    let (_, exact) = render(false, &sci, 20);
    assert!(!exact, "a 60-digit expansion cannot be exact in 20 digits");
    let sci = exact_sci(1, 10);
    let (s, exact) = render(false, &sci, 20);
    assert!(exact);
    assert_eq!(s, "1024");
}

#[test]
fn render_negative_and_scientific() {
    let sci = exact_sci(1, 100);
    let (s, _) = render(true, &sci, 20);
    assert!(s.starts_with("-1.26765060022822940"), "got {s}");
    assert!(s.ends_with("e30"), "got {s}");
}

#[test]
fn normalising_strips_zeros_and_places_the_point() {
    let s = sci_from("1200".to_string(), -2);
    assert_eq!((s.digits.as_str(), s.exp), ("12", 1));
    let s = sci_from("000".to_string(), 5);
    assert_eq!((s.digits.as_str(), s.exp), ("0", 0));
    let s = sci_from("5".to_string(), -3);
    assert_eq!((s.digits.as_str(), s.exp), ("5", -3));
    assert_eq!(exact_string(true, &s), "-0.005");
}

#[test]
fn small_and_large_exponents_switch_notation() {
    // 2^-30 = 9.31322574615478515625e-10 is below the positional range.
    let (s, exact) = render(false, &exact_sci(1, -30), 6);
    assert_eq!(s, "9.31323e-10");
    assert!(!exact);
    // Exactly at the edges of the positional range.
    let (s, _) = render(false, &sci_from("1".to_string(), -7), 20);
    assert_eq!(s, "0.0000001");
    let (s, _) = render(false, &sci_from("1".to_string(), -8), 20);
    assert_eq!(s, "1e-8");
    let (s, _) = render(false, &sci_from("1".to_string(), 21), 20);
    assert_eq!(s, "1e21");
    let (s, _) = render(false, &sci_from("125".to_string(), 18), 20);
    assert_eq!(s, "125000000000000000000");
}

#[test]
fn rounding_edge_cases() {
    let (d, shift) = round_digits("5", 0);
    assert_eq!((d.as_str(), shift), ("0", 1));
    let (d, shift) = round_digits("4", 0);
    assert_eq!((d.as_str(), shift), ("0", 0));
    let (d, shift) = round_digits("12", 5);
    assert_eq!((d.as_str(), shift), ("12", 0));
    let (d, shift) = round_digits("1999", 3);
    assert_eq!((d.as_str(), shift), ("2", 0));
    let (d, shift) = round_digits("19949", 4);
    assert_eq!((d.as_str(), shift), ("1995", 0));
}
