//! The engine's governing properties, stated over the same spec functions
//! its contracts use and proved once for all inputs.

use vstd::prelude::*;

verus! {

use crate::arith::{
    as_int,
    bitlen,
    encode,
    in_range,
    in_width,
    lemma_bitlen_le,
    lemma_pow_cost_le_bitlen,
};
use crate::cs::{ConstraintSystem, OverflowPolicy};
use crate::enforce::{
    concrete_result,
    lemma_render_resolved,
    operand_of,
    operand_of_resolved,
    resolve_then,
    Operand,
    Operator,
    Outcome,
};
use crate::gadgets::{
    int_div_sem,
    int_mod_sem,
    int_pow_sem,
    pow_gadget_cost,
    ArithOutcome,
};
use crate::arith::lemma_as_int_encode;
use crate::resolve::{lit_val, resolution, resolved_matches, Resolved};
use crate::span::Span;
use crate::value::Value;
use vstd::arithmetic::power::pow;
use vstd::arithmetic::power2::{lemma_pow2_pos, pow2};

/// Type-homogeneity closure: for two concrete operands of one matching type
/// under an operator that type supports, dispatch yields a value of the
/// same type — an integer result keeps the operands' width and signedness —
/// and can fail only with the declared division-by-zero or checked-overflow
/// reports, never with an incompatibility.
pub proof fn lemma_type_homogeneity(op: Operator, a: Operand, b: Operand, cs: ConstraintSystem)
    ensures
        (a matches Operand::OpInt { width: w1, signed: s1, .. } && b matches Operand::OpInt {
            width: w2,
            signed: s2,
            ..
        } && w1 == w2 && s1 == s2) ==> match concrete_result(op, a, b, cs) {
            Outcome::OInt { width, signed, .. } => width == a->OpInt_width && signed
                == a->OpInt_signed,
            Outcome::OField { .. } => false,
            Outcome::OGroup { .. } => false,
            Outcome::EIncompatible => false,
            Outcome::EDivisionByZero => op is Div || op is Mod,
            Outcome::EOverflow => cs.policy() is Checked,
        },
        (a is OpField && b is OpField && (op is Add || op is Sub || op is Mul))
            ==> concrete_result(op, a, b, cs) matches Outcome::OField { .. },
        (a is OpGroup && b is OpGroup && (op is Add || op is Sub)) ==> concrete_result(
            op,
            a,
            b,
            cs,
        ) matches Outcome::OGroup { .. },
{
}

/// Literal resolution idempotence: resolving the same literal text against
/// the same sibling type twice yields values that represent the same
/// number and display identically; only wire identities may differ.
pub proof fn lemma_resolution_idempotent(
    text: Seq<char>,
    sibling: Value,
    p: nat,
    n: nat,
    v1: Value,
    cs1: ConstraintSystem,
    v2: Value,
    cs2: ConstraintSystem,
)
    requires
        resolution(text, sibling, p, n) is Some,
        resolved_matches(v1, cs1, resolution(text, sibling, p, n)->Some_0),
        resolved_matches(v2, cs2, resolution(text, sibling, p, n)->Some_0),
    ensures
        operand_of(v1, cs1) == operand_of(v2, cs2),
        v1.render(cs1) == v2.render(cs2),
{
    let m = resolution(text, sibling, p, n)->Some_0;
    lemma_render_resolved(v1, cs1, m);
    lemma_render_resolved(v2, cs2, m);
}

/// A resolved integer literal represents exactly the literal's number: the
/// allocated bit pattern, read back under the sibling's width and
/// signedness, is the value the text denotes.
pub proof fn lemma_resolved_integer_represents(text: Seq<char>, sibling: Value, p: nat, n: nat)
    requires
        sibling matches Value::Integer { width, .. } && 1 <= width <= 64,
        sibling is Integer,
        resolution(text, sibling, p, n) is Some,
    ensures
        ({
            let m = resolution(text, sibling, p, n)->Some_0;
            &&& m matches Resolved::RInt { width, signed, bits }
            &&& as_int(m->RInt_bits, m->RInt_width as nat, m->RInt_signed) == lit_val(text)
        }),
{
    match sibling {
        Value::Integer { width, signed, .. } => {
            lemma_as_int_encode(lit_val(text), width as nat, signed);
        },
        _ => {},
    }
}

/// Symmetry of dispatch under a commutative operator: addition and
/// multiplication read the same whichever side each operand stands on.
pub proof fn lemma_commutative_symmetry(op: Operator, a: Operand, b: Operand, cs: ConstraintSystem)
    requires
        op is Add || op is Mul,
    ensures
        concrete_result(op, a, b, cs) == concrete_result(op, b, a, cs),
{
    match (a, b) {
        (
            Operand::OpInt { width: w1, signed: s1, bits: x },
            Operand::OpInt { width: w2, signed: s2, bits: y },
        ) => {
            let ax = as_int(x, w1 as nat, s1);
            let ay = as_int(y, w1 as nat, s1);
            assert(ax * ay == ay * ax) by (nonlinear_arith);
            assert(x * y == y * x) by (nonlinear_arith);
        },
        (Operand::OpField { value: x }, Operand::OpField { value: y }) => {
            assert(x * y == y * x) by (nonlinear_arith);
        },
        _ => {},
    }
}

/// Symmetry of resolution side: for a literal and a concrete value under a
/// commutative operator, `enforce_op` with the literal on the left and with
/// the literal on the right succeed together, and their results represent
/// the same number; only wire identities and message word order can differ.
pub proof fn lemma_resolution_side_symmetry(
    op: Operator,
    text: Seq<char>,
    sibling: Value,
    span: Span,
    cs0: ConstraintSystem,
    cs1a: ConstraintSystem,
    ra: Result<Value, crate::error::ExpressionError>,
    cs1b: ConstraintSystem,
    rb: Result<Value, crate::error::ExpressionError>,
)
    requires
        op is Add || op is Mul,
        resolve_then(op, text, sibling, true, span, cs0, cs1a, ra),
        resolve_then(op, text, sibling, false, span, cs0, cs1b, rb),
    ensures
        ra is Ok <==> rb is Ok,
        ra is Ok ==> operand_of(ra->Ok_0, cs1a) == operand_of(rb->Ok_0, cs1b),
{
    match resolution(text, sibling, cs0.field_modulus(), cs0.group_order()) {
        Some(m) => {
            lemma_commutative_symmetry(
                op,
                operand_of_resolved(m),
                operand_of(sibling, cs0),
                cs0,
            );
        },
        None => {},
    }
}

/// Incompatible-type rejection: an integer operand and a boolean operand
/// never support any arithmetic operator, whichever side each stands on.
/// The enforcement contract then reports the incompatibility whose message
/// embeds both operands' display forms joined by the operator's symbol.
pub proof fn lemma_int_bool_rejected(op: Operator, a: Operand, b: Operand, cs: ConstraintSystem)
    requires
        a is OpInt,
        b is OpBool,
    ensures
        concrete_result(op, a, b, cs) == Outcome::EIncompatible,
        concrete_result(op, b, a, cs) == Outcome::EIncompatible,
{
}

/// Exponentiation correctness: under the wrapping policies the result
/// pattern is `base^exponent mod 2^width`; under the checked policy the
/// same holds whenever the interpreted power is representable, and the
/// overflow report comes exactly otherwise.
pub proof fn lemma_pow_correctness(pol: OverflowPolicy, w: nat, s: bool, x: nat, e: nat)
    requires
        w >= 1,
        in_width(x, w),
    ensures
        !(pol is Checked) ==> int_pow_sem(pol, w, s, x, e) == ArithOutcome::Val(
            encode(pow(x as int, e), w),
        ),
        pol is Checked && in_range(pow(as_int(x, w, s), e), w, s) ==> int_pow_sem(pol, w, s, x, e)
            == ArithOutcome::Val(encode(pow(x as int, e), w)) && as_int(
            encode(pow(x as int, e), w),
            w,
            s,
        ) == pow(as_int(x, w, s), e),
        pol is Checked && !in_range(pow(as_int(x, w, s), e), w, s) ==> int_pow_sem(
            pol,
            w,
            s,
            x,
            e,
        ) == ArithOutcome::Overflow,
{
    if in_range(pow(as_int(x, w, s), e), w, s) {
        crate::arith::lemma_encode_pow(x, e, w, s);
        crate::arith::lemma_as_int_encode(pow(as_int(x, w, s), e), w, s);
    }
}

/// Exponentiation constraint-count bound: the constraints an
/// exponentiation gadget appends grow with the exponent's bit length, never
/// with its magnitude; for any wire value they stay under a small constant.
pub proof fn lemma_pow_cost_logarithmic(pol: OverflowPolicy, e: nat)
    ensures
        pow_gadget_cost(pol, e) <= 2 * bitlen(e) + 1,
        e < pow2(64) ==> pow_gadget_cost(pol, e) <= 129,
{
    lemma_pow_cost_le_bitlen(e);
    if e < pow2(64) {
        lemma_bitlen_le(e, 64);
    }
}

/// Division by zero: a zero divisor is rejected with the distinct
/// division-by-zero report, for division and modulus alike, under every
/// overflow policy — never wired as a silently wrong value.
pub proof fn lemma_division_by_zero(pol: OverflowPolicy, w: nat, s: bool, x: nat)
    requires
        w >= 1,
    ensures
        int_div_sem(pol, w, s, x, 0) == ArithOutcome::DivisionByZero,
        int_mod_sem(pol, w, s, x, 0) == ArithOutcome::DivisionByZero,
{
    lemma_pow2_pos((w - 1) as nat);
}

} // verus!
