//! The operator enforcement family. One fixed dispatch protocol serves every
//! binary arithmetic operator: same concrete variant supporting the operator
//! invokes that type's gadget; exactly one unresolved literal is resolved
//! against its sibling and the concrete pair dispatched; everything else —
//! mismatched variants, two unresolved literals, an unsupported operator —
//! fails with one consistent incompatible-types message.

use vstd::prelude::*;

verus! {

use crate::arith::{as_int, pow_cost};
use crate::cs::{ConstraintSystem, OverflowPolicy};
use crate::error::ExpressionError;
use crate::gadgets::{
    field_add,
    field_add_sem,
    field_mul,
    field_mul_sem,
    field_pow,
    field_pow_sem,
    field_sub,
    field_sub_sem,
    flat_cost,
    group_add,
    group_add_sem,
    group_scalar_mul,
    group_scalar_sem,
    group_sub,
    group_sub_sem,
    int_add_sem,
    int_div_sem,
    int_mod_sem,
    int_mul_sem,
    int_pow_sem,
    int_sub_sem,
    integer_add,
    integer_div,
    integer_mod,
    integer_mul,
    integer_pow,
    integer_sub,
    is_div_zero_err,
    is_overflow_err,
    pow_gadget_cost,
    ArithOutcome,
};
use crate::resolve::{
    is_literal_parse_err,
    resolution,
    resolve,
    resolved_matches,
    Resolved,
};
use crate::span::Span;
use crate::value::{
    dec_str,
    int_str,
    is_field_value,
    is_group_value,
    is_int_value,
    lemma_valid_extended,
    render_items,
    Value,
};
use vstd::string::{StrSliceExecFns, StringExecFns};

/// The binary arithmetic operators the family enforces.
#[derive(Clone, Copy, Debug, PartialEq, Eq, Structural)]
pub enum Operator {
    Add,
    Sub,
    Mul,
    Div,
    Mod,
    Pow,
}

/// The textual symbol an error message joins the operands with.
pub open spec fn op_symbol(op: Operator) -> Seq<char> {
    match op {
        Operator::Add => "+"@,
        Operator::Sub => "-"@,
        Operator::Mul => "*"@,
        Operator::Div => "/"@,
        Operator::Mod => "%"@,
        Operator::Pow => "**"@,
    }
}

/// The executable operator symbol.
pub fn op_symbol_str(op: Operator) -> (s: &'static str)
    ensures
        s@ == op_symbol(op),
{
    match op {
        Operator::Add => "+",
        Operator::Sub => "-",
        Operator::Mul => "*",
        Operator::Div => "/",
        Operator::Mod => "%",
        Operator::Pow => "**",
    }
}

/// The semantic content of a concrete operand: its type and represented
/// number, with wire identity abstracted away.
pub enum Operand {
    OpInt { width: u32, signed: bool, bits: nat },
    OpField { value: nat },
    OpGroup { value: nat },
    OpBool { value: bool },
    /// An aggregate; no arithmetic operator applies to it.
    OpArray,
}

/// The semantic content of a concrete value under a constraint system.
/// (Unresolved literals never reach this reading; they map to the
/// no-capability operand.)
pub open spec fn operand_of(v: Value, cs: ConstraintSystem) -> Operand {
    match v {
        Value::Integer { width, signed, wire } => Operand::OpInt {
            width,
            signed,
            bits: cs.wire_values()[wire as int] as nat,
        },
        Value::Field { wire } => Operand::OpField { value: cs.wire_values()[wire as int] as nat },
        Value::Group { wire } => Operand::OpGroup { value: cs.wire_values()[wire as int] as nat },
        Value::Boolean { wire } => Operand::OpBool { value: cs.wire_values()[wire as int] == 1 },
        Value::Array { .. } => Operand::OpArray,
        Value::Unresolved { .. } => Operand::OpArray,
    }
}

/// The semantic content a successful resolution allocates.
pub open spec fn operand_of_resolved(m: Resolved) -> Operand {
    match m {
        Resolved::RInt { width, signed, bits } => Operand::OpInt { width, signed, bits },
        Resolved::RField { value } => Operand::OpField { value },
        Resolved::RGroup { value } => Operand::OpGroup { value },
        Resolved::RBool { value } => Operand::OpBool { value },
    }
}

/// The display form of a freshly resolved value, determined by the
/// resolution alone.
pub open spec fn render_resolved(m: Resolved) -> Seq<char> {
    match m {
        Resolved::RInt { width, signed, bits } => int_str(as_int(bits, width as nat, signed)),
        Resolved::RField { value } => dec_str(value),
        Resolved::RGroup { value } => dec_str(value),
        Resolved::RBool { value } => if value {
            "true"@
        } else {
            "false"@
        },
    }
}

/// What one enforcement of `op` over two concrete operands yields.
pub enum Outcome {
    OInt { width: u32, signed: bool, bits: nat },
    OField { value: nat },
    OGroup { value: nat },
    EIncompatible,
    EDivisionByZero,
    EOverflow,
}

/// Maps an integer gadget outcome into an enforcement outcome of the base's
/// width and signedness.
pub open spec fn from_arith(o: ArithOutcome, width: u32, signed: bool) -> Outcome {
    match o {
        ArithOutcome::Val(v) => Outcome::OInt { width, signed, bits: v },
        ArithOutcome::DivisionByZero => Outcome::EDivisionByZero,
        ArithOutcome::Overflow => Outcome::EOverflow,
    }
}

/// The complete dispatch semantics over concrete operands: equal integer
/// types support every operator; fields support addition, subtraction,
/// multiplication, and exponentiation by an integer; group elements support
/// addition, subtraction, and scalar multiplication by an integer; every
/// other combination is incompatible.
pub open spec fn concrete_result(op: Operator, a: Operand, b: Operand, cs: ConstraintSystem) -> Outcome {
    match (a, b) {
        (
            Operand::OpInt { width: w1, signed: s1, bits: x },
            Operand::OpInt { width: w2, signed: s2, bits: e },
        ) => {
            if op is Pow {
                from_arith(int_pow_sem(cs.policy(), w1 as nat, s1, x, e), w1, s1)
            } else if w1 == w2 && s1 == s2 {
                match op {
                    Operator::Add => from_arith(int_add_sem(cs.policy(), w1 as nat, s1, x, e), w1, s1),
                    Operator::Sub => from_arith(int_sub_sem(cs.policy(), w1 as nat, s1, x, e), w1, s1),
                    Operator::Mul => from_arith(int_mul_sem(cs.policy(), w1 as nat, s1, x, e), w1, s1),
                    Operator::Div => from_arith(int_div_sem(cs.policy(), w1 as nat, s1, x, e), w1, s1),
                    Operator::Mod => from_arith(int_mod_sem(cs.policy(), w1 as nat, s1, x, e), w1, s1),
                    Operator::Pow => from_arith(int_pow_sem(cs.policy(), w1 as nat, s1, x, e), w1, s1),
                }
            } else {
                Outcome::EIncompatible
            }
        },
        (Operand::OpField { value: x }, Operand::OpField { value: y }) => match op {
            Operator::Add => Outcome::OField { value: field_add_sem(cs.field_modulus(), x, y) },
            Operator::Sub => Outcome::OField { value: field_sub_sem(cs.field_modulus(), x, y) },
            Operator::Mul => Outcome::OField { value: field_mul_sem(cs.field_modulus(), x, y) },
            _ => Outcome::EIncompatible,
        },
        (Operand::OpField { value: x }, Operand::OpInt { bits: e, .. }) => if op is Pow {
            Outcome::OField { value: field_pow_sem(cs.field_modulus(), x, e) }
        } else {
            Outcome::EIncompatible
        },
        (Operand::OpGroup { value: x }, Operand::OpGroup { value: y }) => match op {
            Operator::Add => Outcome::OGroup { value: group_add_sem(cs.group_order(), x, y) },
            Operator::Sub => Outcome::OGroup { value: group_sub_sem(cs.group_order(), x, y) },
            _ => Outcome::EIncompatible,
        },
        (Operand::OpGroup { value: g }, Operand::OpInt { bits: e, .. }) => if op is Pow {
            Outcome::OGroup { value: group_scalar_sem(cs.group_order(), g, e) }
        } else {
            Outcome::EIncompatible
        },
        _ => Outcome::EIncompatible,
    }
}

/// Constraints a successful dispatch appends.
pub open spec fn concrete_cost(op: Operator, a: Operand, b: Operand, pol: OverflowPolicy) -> nat {
    match (a, b) {
        (Operand::OpInt { .. }, Operand::OpInt { bits: e, .. }) => if op is Pow {
            pow_gadget_cost(pol, e)
        } else {
            flat_cost(pol)
        },
        (Operand::OpField { value: x }, Operand::OpInt { bits: e, .. }) => pow_cost(e),
        (Operand::OpGroup { value: g }, Operand::OpInt { bits: e, .. }) => pow_cost(e),
        _ => 1,
    }
}

/// An incompatible-types error whose message is exactly `msg`, at `sp`.
pub open spec fn is_incompatible_err(e: ExpressionError, msg: Seq<char>, sp: Span) -> bool {
    e matches ExpressionError::IncompatibleTypes { message, span } && message@ == msg && span == sp
}

/// The incompatible-types message: both operands' display forms joined by
/// the operator's symbol.
pub open spec fn incompatible_message(disp_l: Seq<char>, op: Operator, disp_r: Seq<char>) -> Seq<
    char,
> {
    disp_l + " "@ + op_symbol(op) + " "@ + disp_r
}

/// The contract of one dispatch over concrete operands `a` (displayed
/// `disp_l`) and `b` (displayed `disp_r`), started after `extra` wires were
/// already allocated on top of `cs0` (by literal resolution) without adding
/// constraints. A successful outcome allocates exactly one more wire
/// carrying the declared value and appends the declared constraint count; a
/// failed one allocates nothing and appends nothing, and carries the
/// declared error at `span`.
pub open spec fn concrete_post(
    op: Operator,
    a: Operand,
    b: Operand,
    disp_l: Seq<char>,
    disp_r: Seq<char>,
    span: Span,
    cs0: ConstraintSystem,
    cs1: ConstraintSystem,
    res: Result<Value, ExpressionError>,
    extra: nat,
) -> bool {
    match concrete_result(op, a, b, cs0) {
        Outcome::OInt { width, signed, bits } => {
            &&& res matches Ok(v)
            &&& is_int_value(res->Ok_0, cs1, width, signed, bits)
            &&& res->Ok_0.valid(cs1)
            &&& res->Ok_0.is_concrete()
            &&& cs1.wire_values().len() == cs0.wire_values().len() + extra + 1
            &&& cs1.constraint_count() == cs0.constraint_count() + concrete_cost(op, a, b, cs0.policy())
        },
        Outcome::OField { value } => {
            &&& res matches Ok(v)
            &&& is_field_value(res->Ok_0, cs1, value)
            &&& res->Ok_0.valid(cs1)
            &&& res->Ok_0.is_concrete()
            &&& cs1.wire_values().len() == cs0.wire_values().len() + extra + 1
            &&& cs1.constraint_count() == cs0.constraint_count() + concrete_cost(op, a, b, cs0.policy())
        },
        Outcome::OGroup { value } => {
            &&& res matches Ok(v)
            &&& is_group_value(res->Ok_0, cs1, value)
            &&& res->Ok_0.valid(cs1)
            &&& res->Ok_0.is_concrete()
            &&& cs1.wire_values().len() == cs0.wire_values().len() + extra + 1
            &&& cs1.constraint_count() == cs0.constraint_count() + concrete_cost(op, a, b, cs0.policy())
        },
        Outcome::EIncompatible => {
            &&& res matches Err(e)
            &&& is_incompatible_err(res->Err_0, incompatible_message(disp_l, op, disp_r), span)
            &&& cs1.wire_values().len() == cs0.wire_values().len() + extra
            &&& cs1.constraint_count() == cs0.constraint_count()
        },
        Outcome::EDivisionByZero => {
            &&& res matches Err(e)
            &&& is_div_zero_err(res->Err_0, span)
            &&& cs1.wire_values().len() == cs0.wire_values().len() + extra
            &&& cs1.constraint_count() == cs0.constraint_count()
        },
        Outcome::EOverflow => {
            &&& res matches Err(e)
            &&& is_overflow_err(res->Err_0, span)
            &&& cs1.wire_values().len() == cs0.wire_values().len() + extra
            &&& cs1.constraint_count() == cs0.constraint_count()
        },
    }
}

/// The contract of enforcing `op` when the operand on one side is the
/// unresolved literal `text` and the other, `sibling`, is concrete: failed
/// resolution reports the literal-parse error untouched; successful
/// resolution dispatches the concrete pair, the literal's side taken by the
/// resolved operand.
pub open spec fn resolve_then(
    op: Operator,
    text: Seq<char>,
    sibling: Value,
    lit_on_left: bool,
    span: Span,
    cs0: ConstraintSystem,
    cs1: ConstraintSystem,
    res: Result<Value, ExpressionError>,
) -> bool {
    match resolution(text, sibling, cs0.field_modulus(), cs0.group_order()) {
        Some(m) => if lit_on_left {
            concrete_post(
                op,
                operand_of_resolved(m),
                operand_of(sibling, cs0),
                render_resolved(m),
                sibling.render(cs0),
                span,
                cs0,
                cs1,
                res,
                1,
            )
        } else {
            concrete_post(
                op,
                operand_of(sibling, cs0),
                operand_of_resolved(m),
                sibling.render(cs0),
                render_resolved(m),
                span,
                cs0,
                cs1,
                res,
                1,
            )
        },
        None => {
            &&& res matches Err(e)
            &&& is_literal_parse_err(res->Err_0, text, span)
            &&& cs1 == cs0
        },
    }
}

/// The full contract of one enforcement call: the three-step dispatch
/// protocol applied to `left` and `right` as given, over the constraint
/// system as it stood at the call.
pub open spec fn enforce_post(
    op: Operator,
    left: Value,
    right: Value,
    span: Span,
    cs0: ConstraintSystem,
    cs1: ConstraintSystem,
    res: Result<Value, ExpressionError>,
) -> bool {
    &&& cs0.extended_by(cs1)
    &&& match (left, right) {
        (Value::Unresolved { text: lt }, Value::Unresolved { text: rt }) => {
            &&& res matches Err(e)
            &&& is_incompatible_err(res->Err_0, incompatible_message(lt@, op, rt@), span)
            &&& cs1 == cs0
        },
        (Value::Unresolved { text }, _) => resolve_then(
            op,
            text@,
            right,
            true,
            span,
            cs0,
            cs1,
            res,
        ),
        (_, Value::Unresolved { text }) => resolve_then(
            op,
            text@,
            left,
            false,
            span,
            cs0,
            cs1,
            res,
        ),
        _ => concrete_post(
            op,
            operand_of(left, cs0),
            operand_of(right, cs0),
            left.render(cs0),
            right.render(cs0),
            span,
            cs0,
            cs1,
            res,
            0,
        ),
    }
}

/// A concrete operand reads the same under any extension of the constraint
/// system.
pub proof fn lemma_operand_extended(v: Value, a: ConstraintSystem, b: ConstraintSystem)
    requires
        v.valid(a),
        a.extended_by(b),
    ensures
        operand_of(v, b) == operand_of(v, a),
{
    assert forall|i: int| 0 <= i < a.wire_values().len() implies a.wire_values()[i]
        == b.wire_values()[i] by {
        assert(a.wire_values() =~= b.wire_values().subrange(0, a.wire_values().len() as int));
    }
}

/// A value displays the same under any extension of the constraint system.
pub proof fn lemma_render_extended(v: Value, a: ConstraintSystem, b: ConstraintSystem)
    requires
        v.valid(a),
        a.extended_by(b),
    ensures
        v.render(b) == v.render(a),
    decreases v, 0nat,
{
    assert forall|i: int| 0 <= i < a.wire_values().len() implies a.wire_values()[i]
        == b.wire_values()[i] by {
        assert(a.wire_values() =~= b.wire_values().subrange(0, a.wire_values().len() as int));
    }
    match v {
        Value::Array { elements } => {
            lemma_render_items_extended(elements@, a, b);
        },
        _ => {},
    }
}

/// A list of values displays the same under any extension.
pub proof fn lemma_render_items_extended(elems: Seq<Value>, a: ConstraintSystem, b: ConstraintSystem)
    requires
        forall|i: int| 0 <= i < elems.len() ==> (#[trigger] elems[i]).valid(a),
        a.extended_by(b),
    ensures
        render_items(elems, b) == render_items(elems, a),
    decreases elems, 1nat,
{
    if elems.len() >= 1 {
        lemma_render_extended(elems[0], a, b);
        if elems.len() > 1 {
            assert forall|i: int| 0 <= i < elems.drop_first().len() implies (#[trigger] elems.drop_first()[i]).valid(a) by {
                assert(elems.drop_first()[i] == elems[i + 1]);
            }
            lemma_render_items_extended(elems.drop_first(), a, b);
        }
    }
}

/// A freshly resolved value displays exactly what the resolution declares.
pub proof fn lemma_render_resolved(v: Value, cs: ConstraintSystem, m: Resolved)
    requires
        resolved_matches(v, cs, m),
    ensures
        v.render(cs) == render_resolved(m),
        operand_of(v, cs) == operand_of_resolved(m),
{
}

/// Builds the one consistent incompatible-types error.
fn incompatible(
    cs: &ConstraintSystem,
    op: Operator,
    l: &Value,
    r: &Value,
    span: Span,
) -> (e: ExpressionError)
    requires
        l.valid(*cs),
        r.valid(*cs),
    ensures
        is_incompatible_err(e, incompatible_message(l.render(*cs), op, r.render(*cs)), span),
{
    let mut msg = l.to_display(cs);
    msg.append(" ");
    msg.append(op_symbol_str(op));
    msg.append(" ");
    let rd = r.to_display(cs);
    msg.append(rd.as_str());
    ExpressionError::incompatible_types(msg, span)
}

/// Enforces `op` over two concrete operands: the single non-recursive
/// dispatch at the end of the protocol.
pub fn enforce_concrete(
    cs: &mut ConstraintSystem,
    op: Operator,
    left: Value,
    right: Value,
    span: Span,
) -> (res: Result<Value, ExpressionError>)
    requires
        old(cs).wf(),
        left.is_concrete(),
        right.is_concrete(),
        left.valid(*old(cs)),
        right.valid(*old(cs)),
        old(cs).constraint_count() + 130 <= u64::MAX,
    ensures
        old(cs).extended_by(*final(cs)),
        concrete_post(
            op,
            operand_of(left, *old(cs)),
            operand_of(right, *old(cs)),
            left.render(*old(cs)),
            right.render(*old(cs)),
            span,
            *old(cs),
            *final(cs),
            res,
            0,
        ),
{
    proof {
        vstd::arithmetic::power2::lemma2_to64();
    }
    match (&left, &right) {
        (
            Value::Integer { width: w1, signed: s1, wire: a },
            Value::Integer { width: w2, signed: s2, wire: b },
        ) => {
            if let Operator::Pow = op {
                match integer_pow(cs, *a, *b, *w1, *s1, span) {
                    Ok(wire) => Ok(Value::Integer { width: *w1, signed: *s1, wire }),
                    Err(e) => Err(e),
                }
            } else if *w1 == *w2 && *s1 == *s2 {
                let g = match op {
                    Operator::Add => integer_add(cs, *a, *b, *w1, *s1, span),
                    Operator::Sub => integer_sub(cs, *a, *b, *w1, *s1, span),
                    Operator::Mul => integer_mul(cs, *a, *b, *w1, *s1, span),
                    Operator::Div => integer_div(cs, *a, *b, *w1, *s1, span),
                    Operator::Mod => integer_mod(cs, *a, *b, *w1, *s1, span),
                    Operator::Pow => integer_pow(cs, *a, *b, *w1, *s1, span),
                };
                match g {
                    Ok(wire) => Ok(Value::Integer { width: *w1, signed: *s1, wire }),
                    Err(e) => Err(e),
                }
            } else {
                Err(incompatible(cs, op, &left, &right, span))
            }
        },
        (Value::Field { wire: a }, Value::Field { wire: b }) => match op {
            Operator::Add => {
                let wire = field_add(cs, *a, *b);
                Ok(Value::Field { wire })
            },
            Operator::Sub => {
                let wire = field_sub(cs, *a, *b);
                Ok(Value::Field { wire })
            },
            Operator::Mul => {
                let wire = field_mul(cs, *a, *b);
                Ok(Value::Field { wire })
            },
            _ => Err(incompatible(cs, op, &left, &right, span)),
        },
        (Value::Field { wire: a }, Value::Integer { wire: b, .. }) => {
            if let Operator::Pow = op {
                let wire = field_pow(cs, *a, *b);
                Ok(Value::Field { wire })
            } else {
                Err(incompatible(cs, op, &left, &right, span))
            }
        },
        (Value::Group { wire: a }, Value::Group { wire: b }) => match op {
            Operator::Add => {
                let wire = group_add(cs, *a, *b);
                Ok(Value::Group { wire })
            },
            Operator::Sub => {
                let wire = group_sub(cs, *a, *b);
                Ok(Value::Group { wire })
            },
            _ => Err(incompatible(cs, op, &left, &right, span)),
        },
        (Value::Group { wire: a }, Value::Integer { wire: b, .. }) => {
            if let Operator::Pow = op {
                let wire = group_scalar_mul(cs, *a, *b);
                Ok(Value::Group { wire })
            } else {
                Err(incompatible(cs, op, &left, &right, span))
            }
        },
        _ => Err(incompatible(cs, op, &left, &right, span)),
    }
}

/// Enforces one binary arithmetic operator over two evaluated operands: the
/// uniform three-step protocol. A concrete pair of one supporting type is
/// dispatched to that type's gadget; a single unresolved literal is resolved
/// against its sibling and the pair dispatched; two unresolved literals are
/// ambiguous, and every remaining combination incompatible. A successful
/// call never returns an unresolved value; constraints appended before a
/// failure remain, as the caller discards the whole system on error.
pub fn enforce_op(
    cs: &mut ConstraintSystem,
    op: Operator,
    left: Value,
    right: Value,
    span: Span,
) -> (res: Result<Value, ExpressionError>)
    requires
        old(cs).wf(),
        left.valid(*old(cs)),
        right.valid(*old(cs)),
        old(cs).constraint_count() + 130 <= u64::MAX,
    ensures
        enforce_post(op, left, right, span, *old(cs), *final(cs), res),
{
    let ghost cs0 = *old(cs);
    match (left, right) {
        (Value::Unresolved { text: lt }, Value::Unresolved { text: rt }) => {
            let mut msg = lt;
            msg.append(" ");
            msg.append(op_symbol_str(op));
            msg.append(" ");
            msg.append(rt.as_str());
            Err(ExpressionError::incompatible_types(msg, span))
        },
        (Value::Unresolved { text }, rv) => {
            match resolve(cs, text.as_str(), &rv, span) {
                Err(e) => Err(e),
                Ok(lv) => {
                    let ghost mid = *cs;
                    let ghost m = resolution(
                        text@,
                        rv,
                        cs0.field_modulus(),
                        cs0.group_order(),
                    )->Some_0;
                    proof {
                        lemma_valid_extended(rv, cs0, mid);
                        lemma_render_resolved(lv, mid, m);
                        lemma_render_extended(rv, cs0, mid);
                        lemma_operand_extended(rv, cs0, mid);
                    }
                    let r = enforce_concrete(cs, op, lv, rv, span);
                    proof {
                        assert(concrete_result(op, operand_of_resolved(m), operand_of(rv, cs0), mid)
                            == concrete_result(op, operand_of_resolved(m), operand_of(rv, cs0), cs0));
                    }
                    r
                },
            }
        },
        (lv, Value::Unresolved { text }) => {
            match resolve(cs, text.as_str(), &lv, span) {
                Err(e) => Err(e),
                Ok(rv) => {
                    let ghost mid = *cs;
                    let ghost m = resolution(
                        text@,
                        lv,
                        cs0.field_modulus(),
                        cs0.group_order(),
                    )->Some_0;
                    proof {
                        lemma_valid_extended(lv, cs0, mid);
                        lemma_render_resolved(rv, mid, m);
                        lemma_render_extended(lv, cs0, mid);
                        lemma_operand_extended(lv, cs0, mid);
                    }
                    let r = enforce_concrete(cs, op, lv, rv, span);
                    proof {
                        assert(concrete_result(op, operand_of(lv, cs0), operand_of_resolved(m), mid)
                            == concrete_result(op, operand_of(lv, cs0), operand_of_resolved(m), cs0));
                    }
                    r
                },
            }
        },
        (lv, rv) => enforce_concrete(cs, op, lv, rv, span),
    }
}

/// Enforces `+`.
pub fn enforce_add(cs: &mut ConstraintSystem, left: Value, right: Value, span: Span) -> (res:
    Result<Value, ExpressionError>)
    requires
        old(cs).wf(),
        left.valid(*old(cs)),
        right.valid(*old(cs)),
        old(cs).constraint_count() + 130 <= u64::MAX,
    ensures
        enforce_post(Operator::Add, left, right, span, *old(cs), *final(cs), res),
{
    enforce_op(cs, Operator::Add, left, right, span)
}

/// Enforces `-`.
pub fn enforce_sub(cs: &mut ConstraintSystem, left: Value, right: Value, span: Span) -> (res:
    Result<Value, ExpressionError>)
    requires
        old(cs).wf(),
        left.valid(*old(cs)),
        right.valid(*old(cs)),
        old(cs).constraint_count() + 130 <= u64::MAX,
    ensures
        enforce_post(Operator::Sub, left, right, span, *old(cs), *final(cs), res),
{
    enforce_op(cs, Operator::Sub, left, right, span)
}

/// Enforces `*`.
pub fn enforce_mul(cs: &mut ConstraintSystem, left: Value, right: Value, span: Span) -> (res:
    Result<Value, ExpressionError>)
    requires
        old(cs).wf(),
        left.valid(*old(cs)),
        right.valid(*old(cs)),
        old(cs).constraint_count() + 130 <= u64::MAX,
    ensures
        enforce_post(Operator::Mul, left, right, span, *old(cs), *final(cs), res),
{
    enforce_op(cs, Operator::Mul, left, right, span)
}

/// Enforces `/`.
pub fn enforce_div(cs: &mut ConstraintSystem, left: Value, right: Value, span: Span) -> (res:
    Result<Value, ExpressionError>)
    requires
        old(cs).wf(),
        left.valid(*old(cs)),
        right.valid(*old(cs)),
        old(cs).constraint_count() + 130 <= u64::MAX,
    ensures
        enforce_post(Operator::Div, left, right, span, *old(cs), *final(cs), res),
{
    enforce_op(cs, Operator::Div, left, right, span)
}

/// Enforces `%`.
pub fn enforce_mod(cs: &mut ConstraintSystem, left: Value, right: Value, span: Span) -> (res:
    Result<Value, ExpressionError>)
    requires
        old(cs).wf(),
        left.valid(*old(cs)),
        right.valid(*old(cs)),
        old(cs).constraint_count() + 130 <= u64::MAX,
    ensures
        enforce_post(Operator::Mod, left, right, span, *old(cs), *final(cs), res),
{
    enforce_op(cs, Operator::Mod, left, right, span)
}

/// Enforces `**`: integer exponentiation by square-and-multiply, field
/// exponentiation by an integer, or group scalar multiplication, after any
/// unresolved literal is resolved against its sibling.
pub fn enforce_pow(cs: &mut ConstraintSystem, left: Value, right: Value, span: Span) -> (res:
    Result<Value, ExpressionError>)
    requires
        old(cs).wf(),
        left.valid(*old(cs)),
        right.valid(*old(cs)),
        old(cs).constraint_count() + 130 <= u64::MAX,
    ensures
        enforce_post(Operator::Pow, left, right, span, *old(cs), *final(cs), res),
{
    enforce_op(cs, Operator::Pow, left, right, span)
}

} // verus!
