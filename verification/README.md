# bposit_calc

An HP-42S style RPN calculator for bounded posits (b-posits), with every stack entry decomposed
into its sign, regime, terminator, exponent and fraction fields. The library is written in Verus:
each public function carries a contract, and the properties the calculator relies on are proved.

## Layout

- `src/` — the verified library.
  - `bits.rs` decodes a pattern into its fields under a format's regime cap; `format.rs` holds the
    four standard formats, arithmetic (through `posit_ops.rs`, which calls `fast-posit`), exact
    conversion between formats and correctly rounded decimal input.
  - `grid.rs`, `monotone.rs` and `order.rs` prove that patterns are ordered by value, that
    rounding is to the nearest pattern with ties to even, and what follows from it.
  - `bignum.rs`, `rational.rs`, `decimal.rs` and `digits.rs` give exact big-integer and rational
    arithmetic and exact decimal rendering; `literal.rs` and `bitlit.rs` read decimal and
    bit-pattern literals; `roundtrip.rs` proves that the exact decimal expansion of a pattern
    reads back as that pattern.
  - `text.rs` trims white space and writes JSON strings for the page.
  - `calc.rs` is the four-register stack; `inspect.rs` is the rounding inspector: the exact
    value behind the last operation, what it rounded to, and the neighbouring patterns.
- `tests/` — tests run against the compiled library.
- `app/` — the browser bindings and the JSON the page reads.
