//! Textual rendering of scalars and node annotations for the graph
//! export: fixed-point values print with exactly four decimal places.

use vstd::prelude::*;
use vstd::string::StringExecFns;

use crate::fixed::MyF64;
use crate::graph::{NodeSpec, Op, Value};

verus! {

/// The single decimal digit `d` as text.
pub open spec fn spec_digit(d: int) -> Seq<char> {
    if d == 0 {
        "0"@
    } else if d == 1 {
        "1"@
    } else if d == 2 {
        "2"@
    } else if d == 3 {
        "3"@
    } else if d == 4 {
        "4"@
    } else if d == 5 {
        "5"@
    } else if d == 6 {
        "6"@
    } else if d == 7 {
        "7"@
    } else if d == 8 {
        "8"@
    } else {
        "9"@
    }
}

/// The decimal digits of a nonnegative number, most significant first.
pub open spec fn spec_decimal(n: int) -> Seq<char>
    recommends
        n >= 0,
    decreases n,
{
    if n < 10 {
        spec_digit(n)
    } else {
        spec_decimal(n / 10) + spec_digit(n % 10)
    }
}

/// A fixed-point scalar as text: an optional minus sign, the whole part,
/// a decimal point, and exactly four fraction digits.
pub open spec fn spec_fixed_fmt(v: int) -> Seq<char> {
    let n = if v < 0 {
        -v
    } else {
        v
    };
    let sign = if v < 0 {
        "-"@
    } else {
        Seq::<char>::empty()
    };
    sign + spec_decimal(n / 10000) + "."@ + spec_digit(n / 1000 % 10) + spec_digit(n / 100 % 10)
        + spec_digit(n / 10 % 10) + spec_digit(n % 10)
}

/// The export annotation of a node: its operation symbol when it has one,
/// its label, and its value and gradient to four decimal places.
pub open spec fn spec_annotation(n: NodeSpec) -> Seq<char> {
    let tail = n.label + " | data "@ + spec_fixed_fmt(n.data) + " | grad "@ + spec_fixed_fmt(
        n.grad,
    ) + "  "@;
    match n.op {
        Op::Leaf => "  "@ + tail,
        Op::Add => "  "@ + "+"@ + " | "@ + tail,
        Op::Mul => "  "@ + "*"@ + " | "@ + tail,
        Op::Tanh => "  "@ + "tanh"@ + " | "@ + tail,
    }
}

/// The single decimal digit `d` as text.
fn digit_str(d: u64) -> (r: &'static str)
    requires
        d < 10,
    ensures
        r@ == spec_digit(d as int),
{
    if d == 0 {
        "0"
    } else if d == 1 {
        "1"
    } else if d == 2 {
        "2"
    } else if d == 3 {
        "3"
    } else if d == 4 {
        "4"
    } else if d == 5 {
        "5"
    } else if d == 6 {
        "6"
    } else if d == 7 {
        "7"
    } else if d == 8 {
        "8"
    } else {
        "9"
    }
}

/// The decimal digits of a nonnegative number, most significant first.
fn decimal_string(n: u64) -> (r: String)
    ensures
        r@ == spec_decimal(n as int),
    decreases n,
{
    if n < 10 {
        digit_str(n).to_owned()
    } else {
        proof {
            vstd::arithmetic::div_mod::lemma_div_is_strictly_smaller(n as int, 10);
            vstd::arithmetic::div_mod::lemma_div_pos_is_pos(n as int, 10);
        }
        decimal_string(n / 10).concat(digit_str(n % 10))
    }
}

/// A fixed-point scalar as text, in the shape `spec_fixed_fmt` gives:
/// four decimal places, as the graph export prints values.
pub fn fmt_fixed(v: MyF64) -> (r: String)
    ensures
        r@ == spec_fixed_fmt(v@),
{
    let neg = v.0 < 0;
    let n: u64 = if v.0 < 0 {
        (-(v.0 as i128)) as u64
    } else {
        v.0 as u64
    };
    let sign = if neg {
        "-".to_owned()
    } else {
        String::new()
    };
    sign.concat(decimal_string(n / 10000).as_str()).concat(".").concat(
        digit_str(n / 1000 % 10),
    ).concat(digit_str(n / 100 % 10)).concat(digit_str(n / 10 % 10)).concat(digit_str(n % 10))
}

/// The export annotation of a node, in the shape `spec_annotation` gives.
pub fn annotation(v: &Value) -> (r: String)
    ensures
        r@ == spec_annotation(v@),
{
    let tail = v.label.clone().concat(" | data ").concat(fmt_fixed(v.data).as_str()).concat(
        " | grad ",
    ).concat(fmt_fixed(v.grad).as_str()).concat("  ");
    match v.op {
        Op::Leaf => "  ".to_owned().concat(tail.as_str()),
        Op::Add | Op::Mul | Op::Tanh => "  ".to_owned().concat(v.op.symbol()).concat(
            " | ",
        ).concat(tail.as_str()),
    }
}

} // verus!
