//! An HP-42S style RPN calculator over bounded posits: a fixed stack of four registers and the
//! operations on it.
//!
//! A fixed four-register stack in the HP-42S manner: dropping replicates T and lifting pushes T
//! off the end, so there is never too little or too much on it. No operation can fail for want of
//! operands.

use vstd::prelude::*;
use vstd::utf8::encode_utf8;
use vstd::string::StrSliceExecFns;
use crate::bitlit::{bit_literal_value, has_prefix, is_bit_literal, parse_bit_literal};
use crate::format::{bin_op, bin_op_result, convert, converts_to, decimal_rounds_to, from_decimal, un_op, un_op_result, BinOp, Format, UnOp};
use crate::literal::decimal_literal;
use crate::text::{str_trim, trimmed};
use crate::inspect::{
    bin_expr, bin_expr_text, decimal_rational, describes, exact_bin, exact_bin_parts, exact_un,
    exact_un_parts, inspect_rounding, is_nar, is_zero_pattern, lists_neighbours, literal_parts,
    neighbours, un_expr, un_expr_text, value_parts, Neighbours, Rounding,
};
use crate::rational::{printable, Rational};

verus! {

/// Why the last action was refused; each carries the text it was given.
#[derive(Clone, Debug)]
pub enum CalcError {
    /// The text is not a decimal literal.
    BadNumber(String),
    /// The text is not a bit-pattern literal.
    BadBits(String),
    /// The operation name is not known.
    UnknownOp(String),
}

/// The stack after placing `v` in X: pushed up when lift is enabled, overwriting X when not.
pub open spec fn placed(s: Seq<u64>, lift: bool, v: u64) -> Seq<u64> {
    if lift {
        seq![v, s[0], s[1], s[2]]
    } else {
        seq![v, s[1], s[2], s[3]]
    }
}

/// The stack after a drop: Y becomes X and T replicates.
pub open spec fn dropped(s: Seq<u64>) -> Seq<u64> {
    seq![s[1], s[2], s[3], s[3]]
}

/// The binary operation an operation name stands for.
pub open spec fn binary_name(b: Seq<u8>) -> Option<BinOp> {
    if b =~= seq![97u8, 100, 100] {
        Some(BinOp::Add)
    } else if b =~= seq![115u8, 117, 98] {
        Some(BinOp::Sub)
    } else if b =~= seq![109u8, 117, 108] {
        Some(BinOp::Mul)
    } else if b =~= seq![100u8, 105, 118] {
        Some(BinOp::Div)
    } else {
        None
    }
}

/// The unary operation an operation name stands for.
pub open spec fn unary_name(b: Seq<u8>) -> Option<UnOp> {
    if b =~= seq![110u8, 101, 103] {
        Some(UnOp::Neg)
    } else if b =~= seq![114u8, 101, 99, 105, 112] {
        Some(UnOp::Recip)
    } else if b =~= seq![100u8, 111, 117, 98, 108, 101] {
        Some(UnOp::Double)
    } else if b =~= seq![104u8, 97, 108, 102] {
        Some(UnOp::Half)
    } else {
        None
    }
}

/// Whether the bytes `b` are exactly `w`.
fn bytes_are(b: &[u8], w: &[u8]) -> (r: bool)
    ensures
        r == (b@ =~= w@),
{
    if b.len() != w.len() {
        return false;
    }
    let mut i: usize = 0;
    while i < b.len()
        invariant
            i <= b@.len() == w@.len(),
            forall|j: int| 0 <= j < i ==> b@[j] == w@[j],
        decreases b@.len() - i,
    {
        if b[i] != w[i] {
            return false;
        }
        i = i + 1;
    }
    true
}

fn binary_of(op: &str) -> (r: Option<BinOp>)
    ensures
        r == binary_name(encode_utf8(op@)),
{
    let b = op.as_bytes();
    if bytes_are(b, &[97u8, 100, 100]) {
        Some(BinOp::Add)
    } else if bytes_are(b, &[115u8, 117, 98]) {
        Some(BinOp::Sub)
    } else if bytes_are(b, &[109u8, 117, 108]) {
        Some(BinOp::Mul)
    } else if bytes_are(b, &[100u8, 105, 118]) {
        Some(BinOp::Div)
    } else {
        None
    }
}

fn unary_of(op: &str) -> (r: Option<UnOp>)
    ensures
        r == unary_name(encode_utf8(op@)),
{
    let b = op.as_bytes();
    if bytes_are(b, &[110u8, 101, 103]) {
        Some(UnOp::Neg)
    } else if bytes_are(b, &[114u8, 101, 99, 105, 112]) {
        Some(UnOp::Recip)
    } else if bytes_are(b, &[100u8, 111, 117, 98, 108, 101]) {
        Some(UnOp::Double)
    } else if bytes_are(b, &[104u8, 97, 108, 102]) {
        Some(UnOp::Half)
    } else {
        None
    }
}

/// The text being typed, with a half-written exponent or a lone trailing sign set aside.
pub open spec fn entry_text(s: Seq<char>) -> Seq<char> {
    let t = trimmed(s);
    let t1 = if t.len() > 0 && (t.last() == '+' || t.last() == '-') { t.drop_last() } else { t };
    if t1.len() > 0 && (t1.last() == 'e' || t1.last() == 'E') {
        t1.drop_last()
    } else {
        t1
    }
}

/// The pattern that partly typed text shows: zero for nothing, the pattern of a bit literal
/// within the format, the rounding of a decimal literal, and zero for anything unreadable.
pub open spec fn entry_value(fmt: Format, t: Seq<char>, v: u64) -> bool {
    let b = encode_utf8(trimmed(t));
    if t.len() == 0 {
        v == 0
    } else if has_prefix(b, 120, 88) || has_prefix(b, 98, 66) {
        match bit_literal_value(b) {
            Some(x) => v as nat == x % fmt.modulus(),
            None => v == 0,
        }
    } else {
        match decimal_literal(b) {
            None => v == 0,
            Some(_) => decimal_rounds_to(fmt, b, Some(v)),
        }
    }
}

/// What the inspector keeps of an operation: how it was written, its exact value and the
/// pattern that value rounded to.
pub open spec fn literal_record(t: Seq<char>, v: u64) -> Option<(Seq<char>, (bool, nat, nat), u64)> {
    match decimal_literal(encode_utf8(trimmed(t))) {
        None => None,
        Some((neg, m, q)) => Some((trimmed(t), literal_parts(neg, m, q), v)),
    }
}

/// The record of `a op b` rounded to `r`; none when the operation has no exact result.
pub open spec fn bin_record(fmt: Format, op: BinOp, a: u64, b: u64, r: u64) -> Option<(Seq<char>, (bool, nat, nat), u64)> {
    if is_nar(fmt, a) || is_nar(fmt, b) || (op == BinOp::Div && is_zero_pattern(fmt, b)) {
        None
    } else {
        Some((bin_expr(fmt, op, a, b), exact_bin_parts(op, value_parts(fmt, a), value_parts(fmt, b)), r))
    }
}

/// The record of `op a` rounded to `r`; none when the operation has no exact result.
pub open spec fn un_record(fmt: Format, op: UnOp, a: u64, r: u64) -> Option<(Seq<char>, (bool, nat, nat), u64)> {
    if is_nar(fmt, a) || (op == UnOp::Recip && is_zero_pattern(fmt, a)) {
        None
    } else {
        Some((un_expr(fmt, op, a), exact_un_parts(op, value_parts(fmt, a)), r))
    }
}

/// What produced the current X, kept so the inspector can show what was rounded away.
struct LastOp {
    /// How it was written, e.g. `60 + 2`.
    expr: String,
    /// The exact real result, before it was forced back into the format.
    exact: Rational,
    /// The pattern it rounded to.
    result: u64,
}

impl LastOp {
    #[verifier::type_invariant]
    spec fn exact_ok(self) -> bool {
        self.exact.wf()
    }
}

/// The last operation, described for the inspector.
pub struct Inspection {
    /// How the operation was written.
    pub expr: String,
    /// What rounding its exact result did.
    pub rounding: Rounding,
}

/// The record of a decimal literal placed as `v`.
fn record_literal(s: &str, v: u64) -> (r: Option<LastOp>)
    ensures
        match r {
            None => literal_record(s@, v) is None,
            Some(l) => literal_record(s@, v) == Some((l.expr@, l.exact.parts(), l.result)),
        },
{
    match decimal_rational(s) {
        Some(exact) => {
            let expr = str_trim(s).to_owned();
            Some(LastOp { expr, exact, result: v })
        },
        None => None,
    }
}

pub struct Calc {
    fmt: Format,
    /// The X, Y, Z, T registers, X first.
    regs: [u64; 4],
    /// HP's stack-lift flag.
    ///
    /// ENTER clears it, so the next number typed replaces X rather than pushing it up, which is
    /// what makes `2 ENTER 3 ×` work. Everything else sets it, so typing a digit after an
    /// operation lifts the result out of the way first.
    lift: bool,
    error: Option<CalcError>,
    /// What produced X, while the inspector can still describe it.
    last: Option<LastOp>,
}

impl Calc {
    /// The registers X, Y, Z, T.
    pub closed spec fn stack(&self) -> Seq<u64> {
        self.regs@
    }

    pub closed spec fn lifting(&self) -> bool {
        self.lift
    }

    pub closed spec fn current_format(&self) -> Format {
        self.fmt
    }

    /// Why the last action was refused, if it was.
    pub closed spec fn held_error(&self) -> Option<CalcError> {
        self.error
    }

    /// Whether the last action was refused.
    pub open spec fn failed(&self) -> bool {
        self.held_error() is Some
    }

    /// How the operation that produced X was written, its exact value and the pattern it
    /// rounded to; none once X may no longer be that result.
    pub closed spec fn last_record(&self) -> Option<(Seq<char>, (bool, nat, nat), u64)> {
        match self.last {
            Some(l) => Some((l.expr@, l.exact.parts(), l.result)),
            None => None,
        }
    }

    pub fn new() -> (c: Calc)
        ensures
            c.stack() == seq![0u64, 0, 0, 0],
            c.lifting(),
            c.current_format() == Format::B16,
            !c.failed(),
            c.last_record() is None,
    {
        let c = Calc { fmt: Format::B16, regs: [0, 0, 0, 0], lift: true, error: None, last: None };
        assert(c.regs@ =~= seq![0u64, 0, 0, 0]);
        c
    }

    /// The registers X, Y, Z, T.
    pub fn registers(&self) -> (r: [u64; 4])
        ensures
            r@ == self.stack(),
    {
        self.regs
    }

    pub fn format(&self) -> (f: Format)
        ensures
            f == self.current_format(),
    {
        self.fmt
    }

    pub fn lift_enabled(&self) -> (b: bool)
        ensures
            b == self.lifting(),
    {
        self.lift
    }

    /// Why the last action was refused, if it was.
    pub fn error(&self) -> (e: &Option<CalcError>)
        ensures
            *e == self.held_error(),
    {
        &self.error
    }

    /// Switch format, re-rounding every register into the new one.
    ///
    /// Values are converted rather than reinterpreted: the numbers you were working with stay the
    /// numbers you were working with, and you get to watch their encodings change.
    pub fn set_format(&mut self, idx: u32)
        ensures
            final(self).current_format().position() == if idx < 3 { idx as nat } else { 3 },
            final(self).lifting() == old(self).lifting(),
            final(self).current_format() == old(self).current_format() ==> {
                &&& final(self).stack() == old(self).stack()
                &&& final(self).held_error() == old(self).held_error()
                &&& final(self).last_record() == old(self).last_record()
            },
            final(self).current_format() != old(self).current_format() ==> {
                &&& !final(self).failed()
                &&& final(self).last_record() is None
                &&& forall|i: int| 0 <= i < 4 ==> converts_to(
                    old(self).current_format(),
                    final(self).current_format(),
                    #[trigger] old(self).stack()[i],
                    final(self).stack()[i],
                )
            },
    {
        let to = Format::from_index(idx);
        if to == self.fmt {
            return;
        }
        let from = self.fmt;
        let r0 = convert(from, to, self.regs[0]);
        let r1 = convert(from, to, self.regs[1]);
        let r2 = convert(from, to, self.regs[2]);
        let r3 = convert(from, to, self.regs[3]);
        self.regs = [r0, r1, r2, r3];
        self.fmt = to;
        self.error = None;
        // Every value was re-rounded, so the recorded operation no longer describes X.
        self.last = None;
    }

    pub fn format_index(&self) -> (r: u32)
        ensures
            r as nat == self.current_format().position(),
    {
        self.fmt.index()
    }

    /// Push X up into Y and put `bits` in X. T falls off the end.
    fn lift_in(&mut self, bits: u64)
        ensures
            final(self).stack() == placed(old(self).stack(), true, bits),
            final(self).fmt == old(self).fmt,
            final(self).lift == old(self).lift,
            final(self).error == old(self).error,
            final(self).last_record() == old(self).last_record(),
    {
        self.regs = [bits, self.regs[0], self.regs[1], self.regs[2]];
        assert(self.regs@ =~= placed(old(self).stack(), true, bits));
    }

    /// Put `bits` in X, honouring the lift flag, then re-enable lift.
    fn place(&mut self, bits: u64)
        ensures
            final(self).stack() == placed(old(self).stack(), old(self).lift, bits),
            final(self).lift,
            final(self).fmt == old(self).fmt,
            final(self).error == old(self).error,
            final(self).last_record() == old(self).last_record(),
    {
        if self.lift {
            self.lift_in(bits);
        } else {
            self.regs[0] = bits;
            assert(self.regs@ =~= placed(old(self).stack(), false, bits));
        }
        self.lift = true;
    }

    /// Drop the stack: Y becomes X and T replicates rather than emptying.
    ///
    /// The replication is not a detail. It is what lets T hold a constant across a run of
    /// operations: load it once, and every drop refills Z with it again.
    fn drop_stack(&mut self)
        ensures
            final(self).stack() == dropped(old(self).stack()),
            final(self).fmt == old(self).fmt,
            final(self).lift == old(self).lift,
            final(self).error == old(self).error,
            final(self).last_record() == old(self).last_record(),
    {
        self.regs = [self.regs[1], self.regs[2], self.regs[3], self.regs[3]];
        assert(self.regs@ =~= dropped(old(self).stack()));
    }

    /// ENTER: duplicate X and suspend the lift.
    ///
    /// This is unconditional: ENTER pushes on its own account, which is why `2 ENTER` leaves 2 in
    /// both X and Y, and why the suspended lift then makes the next digit overwrite the copy
    /// rather than pushing again.
    pub fn enter_key(&mut self)
        ensures
            final(self).stack() == placed(old(self).stack(), true, old(self).stack()[0]),
            !final(self).lifting(),
            final(self).current_format() == old(self).current_format(),
            final(self).held_error() == old(self).held_error(),
            final(self).last_record() == old(self).last_record(),
    {
        let x = self.regs[0];
        self.lift_in(x);
        self.lift = false;
    }

    /// Place a decimal literal in X, rounded exactly into the current format.
    #[verifier::spinoff_prover]
    pub fn push_decimal(&mut self, s: &str) -> (ok: bool)
        ensures
            ok == (decimal_literal(encode_utf8(trimmed(s@))) is Some),
            final(self).current_format() == old(self).current_format(),
            ok ==> {
                &&& final(self).stack() == placed(old(self).stack(), old(self).lifting(), final(self).stack()[0])
                &&& decimal_rounds_to(old(self).current_format(), encode_utf8(trimmed(s@)), Some(final(self).stack()[0]))
                &&& final(self).lifting()
                &&& !final(self).failed()
                &&& final(self).last_record() == literal_record(s@, final(self).stack()[0])
            },
            !ok ==> {
                &&& final(self).stack() == old(self).stack()
                &&& final(self).lifting() == old(self).lifting()
                &&& (final(self).held_error() matches Some(CalcError::BadNumber(t)) && t@ == s@)
                &&& final(self).last_record() == old(self).last_record()
            },
    {
        match from_decimal(self.fmt, s) {
            Some(bits) => {
                self.place(bits);
                self.error = None;
                // Typing a literal is itself a rounding worth inspecting: 0.1 is not
                // representable in any of these formats.
                self.last = record_literal(s, bits);
                true
            },
            None => {
                self.error = Some(CalcError::BadNumber(s.to_owned()));
                false
            },
        }
    }

    /// Rebuild X from the literal currently being typed.
    ///
    /// Called on every keystroke: the number is built in X itself rather than in a separate entry
    /// area, as on the real machines. The first keystroke lifts the stack if lift is enabled;
    /// clearing the flag afterwards means later keystrokes rewrite X instead of pushing it up
    /// again. Re-parsing the whole literal each time keeps rounding from compounding.
    pub fn type_x(&mut self, s: &str)
        ensures
            final(self).stack() == placed(old(self).stack(), old(self).lifting(), final(self).stack()[0]),
            entry_value(old(self).current_format(), entry_text(s@), final(self).stack()[0]),
            !final(self).lifting(),
            !final(self).failed(),
            final(self).current_format() == old(self).current_format(),
            final(self).last_record() == ({
                let t = entry_text(s@);
                let b = encode_utf8(trimmed(t));
                if t.len() == 0 || has_prefix(b, 120, 88) || has_prefix(b, 98, 66) {
                    None
                } else {
                    literal_record(t, final(self).stack()[0])
                }
            }),
    {
        // A half-written exponent or a lone sign is not yet a number; show what there is so far.
        let t0 = str_trim(s);
        let n0 = t0.unicode_len();
        let mut t1 = t0;
        if n0 > 0 {
            let c = t0.get_char(n0 - 1);
            if c == '+' || c == '-' {
                t1 = t0.substring_char(0, n0 - 1);
                assert(t1@ =~= t0@.drop_last());
            }
        }
        let n1 = t1.unicode_len();
        let mut t = t1;
        if n1 > 0 {
            let c = t1.get_char(n1 - 1);
            if c == 'e' || c == 'E' {
                t = t1.substring_char(0, n1 - 1);
                assert(t@ =~= t1@.drop_last());
            }
        }
        assert(t@ == entry_text(s@));
        let is_bits = is_bit_literal(t);
        let bits = if t.unicode_len() == 0 {
            0
        } else if is_bits {
            match parse_bit_literal(t) {
                Some(v) => {
                    let m = self.fmt.mask();
                    proof {
                        lemma_mask_is_mod(v, m, self.fmt);
                    }
                    v & m
                },
                None => 0,
            }
        } else {
            match from_decimal(self.fmt, t) {
                Some(v) => v,
                None => 0,
            }
        };
        self.place(bits);
        // Stay in entry: the next keystroke rewrites X rather than lifting again.
        self.lift = false;
        self.error = None;
        self.last = if t.unicode_len() == 0 || is_bits {
            None
        } else {
            record_literal(t, bits)
        };
    }

    /// Place a raw bit pattern in X: `0x` prefixed for hex, otherwise read as binary.
    pub fn push_bits(&mut self, s: &str) -> (ok: bool)
        ensures
            ok == (bit_literal_value(encode_utf8(trimmed(s@))) is Some),
            final(self).current_format() == old(self).current_format(),
            ok ==> {
                &&& final(self).stack() == placed(
                    old(self).stack(),
                    old(self).lifting(),
                    final(self).stack()[0],
                )
                &&& final(self).stack()[0] as nat == bit_literal_value(encode_utf8(trimmed(s@)))->0
                    % old(self).current_format().modulus()
                &&& final(self).lifting()
                &&& !final(self).failed()
                &&& final(self).last_record() is None
            },
            !ok ==> {
                &&& final(self).stack() == old(self).stack()
                &&& final(self).lifting() == old(self).lifting()
                &&& (final(self).held_error() matches Some(CalcError::BadBits(t)) && t@ == s@)
                &&& final(self).last_record() == old(self).last_record()
            },
    {
        match parse_bit_literal(s) {
            Some(v) => {
                let m = self.fmt.mask();
                proof {
                    lemma_mask_is_mod(v, m, self.fmt);
                }
                self.place(v & m);
                self.error = None;
                // A raw pattern is not a rounding of anything.
                self.last = None;
                true
            },
            None => {
                self.error = Some(CalcError::BadBits(s.to_owned()));
                false
            },
        }
    }

    /// `X = Y op X`, dropping the stack.
    pub fn binary(&mut self, op: &str)
        ensures
            final(self).current_format() == old(self).current_format(),
            match binary_name(encode_utf8(op@)) {
                Some(o) => {
                    let s = old(self).stack();
                    let m = old(self).current_format().modulus();
                    &&& final(self).stack() == dropped(s).update(0, final(self).stack()[0])
                    &&& final(self).stack()[0] as nat == bin_op_result(
                        old(self).current_format(),
                        o,
                        (s[1] as nat) % m,
                        (s[0] as nat) % m,
                    )
                    &&& final(self).lifting()
                    &&& !final(self).failed()
                    &&& final(self).last_record() == bin_record(old(self).current_format(), o, s[1], s[0], final(self).stack()[0])
                },
                None => {
                    &&& final(self).stack() == old(self).stack()
                    &&& final(self).lifting() == old(self).lifting()
                    &&& (final(self).held_error() matches Some(CalcError::UnknownOp(t)) && t@ == op@)
                    &&& final(self).last_record() == old(self).last_record()
                },
            },
    {
        let o = match binary_of(op) {
            Some(o) => o,
            None => {
                self.error = Some(CalcError::UnknownOp(op.to_owned()));
                return;
            },
        };
        let x = self.regs[0];
        let y = self.regs[1];
        let result = bin_op(self.fmt, o, y, x);
        self.drop_stack();
        self.regs[0] = result;
        assert(self.regs@ =~= dropped(old(self).stack()).update(0, result));
        self.lift = true;
        self.error = None;
        self.last = match exact_bin(self.fmt, o, y, x) {
            Some(exact) => {
                let expr = bin_expr_text(self.fmt, o, y, x);
                Some(LastOp { expr, exact, result })
            },
            None => None,
        };
    }

    /// `X = op X`.
    pub fn unary(&mut self, op: &str)
        ensures
            final(self).current_format() == old(self).current_format(),
            match unary_name(encode_utf8(op@)) {
                Some(o) => {
                    let s = old(self).stack();
                    &&& final(self).stack() == s.update(0, final(self).stack()[0])
                    &&& final(self).stack()[0] as nat == un_op_result(
                        old(self).current_format(),
                        o,
                        (s[0] as nat) % old(self).current_format().modulus(),
                    )
                    &&& final(self).lifting()
                    &&& !final(self).failed()
                    &&& final(self).last_record() == un_record(old(self).current_format(), o, s[0], final(self).stack()[0])
                },
                None => {
                    &&& final(self).stack() == old(self).stack()
                    &&& final(self).lifting() == old(self).lifting()
                    &&& (final(self).held_error() matches Some(CalcError::UnknownOp(t)) && t@ == op@)
                    &&& final(self).last_record() == old(self).last_record()
                },
            },
    {
        let o = match unary_of(op) {
            Some(o) => o,
            None => {
                self.error = Some(CalcError::UnknownOp(op.to_owned()));
                return;
            },
        };
        let x = self.regs[0];
        let result = un_op(self.fmt, o, x);
        self.regs[0] = result;
        assert(self.regs@ =~= old(self).stack().update(0, result));
        self.lift = true;
        self.error = None;
        self.last = match exact_un(self.fmt, o, x) {
            Some(exact) => {
                let expr = un_expr_text(self.fmt, o, x);
                Some(LastOp { expr, exact, result })
            },
            None => None,
        };
    }

    /// Drop X; T replicates.
    pub fn drop_x(&mut self)
        ensures
            final(self).stack() == dropped(old(self).stack()),
            final(self).lifting(),
            !final(self).failed(),
            final(self).current_format() == old(self).current_format(),
            final(self).last_record() is None,
    {
        self.drop_stack();
        self.lift = true;
        self.error = None;
        self.last = None;
    }

    /// Exchange X and Y.
    pub fn swap(&mut self)
        ensures
            final(self).stack() == old(self).stack().update(0, old(self).stack()[1]).update(1, old(self).stack()[0]),
            final(self).lifting(),
            !final(self).failed(),
            final(self).current_format() == old(self).current_format(),
            final(self).last_record() is None,
    {
        let x = self.regs[0];
        let y = self.regs[1];
        self.regs[0] = y;
        self.regs[1] = x;
        assert(self.regs@ =~= old(self).stack().update(0, old(self).stack()[1]).update(1, old(self).stack()[0]));
        self.lift = true;
        self.error = None;
        self.last = None;
    }

    /// Zero every register.
    pub fn clear(&mut self)
        ensures
            final(self).stack() == seq![0u64, 0, 0, 0],
            final(self).lifting(),
            !final(self).failed(),
            final(self).current_format() == old(self).current_format(),
            final(self).last_record() is None,
    {
        self.regs = [0, 0, 0, 0];
        assert(self.regs@ =~= seq![0u64, 0, 0, 0]);
        self.lift = true;
        self.error = None;
        self.last = None;
    }

    /// What rounding did to produce X, while X is still the result of the last operation: the
    /// inspector describes X, and goes quiet once X is something else.
    pub fn inspector(&self) -> (r: Option<Inspection>)
        ensures
            match self.last_record() {
                None => r is None,
                Some((expr, e, res)) => {
                    let fmt = self.current_format();
                    if self.stack()[0] != res || is_nar(fmt, res) {
                        r is None
                    } else {
                        &&& printable(e) ==> r is Some
                        &&& r matches Some(i) ==> i.expr@ == expr && describes(fmt, e, res, i.rounding)
                    }
                },
            },
    {
        match &self.last {
            None => None,
            Some(l) => {
                proof {
                    use_type_invariant(l);
                }
                if self.regs[0] != l.result {
                    return None;
                }
                match inspect_rounding(self.fmt, &l.exact, l.result) {
                    Some(rounding) => Some(Inspection { expr: l.expr.clone(), rounding }),
                    None => None,
                }
            },
        }
    }

    /// The values either side of X and the steps to them; `None` when X is NaR.
    pub fn neighbours(&self) -> (r: Option<Neighbours>)
        ensures
            r is None <==> is_nar(self.current_format(), self.stack()[0]),
            r matches Some(nb) ==> lists_neighbours(self.current_format(), self.stack()[0], nb),
    {
        neighbours(self.fmt, self.regs[0])
    }
}

impl Default for Calc {
    /// A fresh calculator, as [`Calc::new`] makes it.
    fn default() -> (c: Self)
        ensures
            c.stack() == seq![0u64, 0, 0, 0],
            c.lifting(),
            c.current_format() == Format::B16,
            !c.failed(),
            c.last_record() is None,
    {
        Calc::new()
    }
}

/// Masking with a format's mask is reducing modulo its width.
pub(crate) proof fn lemma_mask_is_mod(v: u64, m: u64, fmt: Format)
    requires
        m as nat == fmt.modulus() - 1,
    ensures
        (v & m) as nat == (v as nat) % fmt.modulus(),
{
    vstd::arithmetic::power2::lemma2_to64();
    vstd::arithmetic::power2::lemma2_to64_rest();
    if fmt.nbits() < 64 {
        vstd::bits::lemma_u64_pow2_no_overflow(fmt.nbits());
        vstd::bits::lemma_u64_low_bits_mask_is_mod(v, fmt.nbits());
    } else {
        assert(v & 0xffff_ffff_ffff_ffffu64 == v) by (bit_vector);
        vstd::arithmetic::div_mod::lemma_small_mod(v as nat, vstd::arithmetic::power2::pow2(64));
    }
}

} // verus!
