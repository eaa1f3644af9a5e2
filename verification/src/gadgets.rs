//! Type-specific arithmetic gadgets. Each gadget reads its operand wires,
//! appends the constraints of one primitive operation, allocates the result
//! wire, and is proved to assign that wire exactly the value its semantics
//! function declares. Integer gadgets consume the configured overflow policy
//! uniformly; exponentiation is square-and-multiply, so its constraint count
//! follows the exponent's bit length, never its magnitude.

use vstd::prelude::*;

verus! {

use crate::arith::{
    as_int,
    as_int_exec,
    encode,
    encode_exec,
    iabs,
    in_range,
    in_range_exec,
    in_width,
    is_negative_exec,
    lemma_as_int_bounds,
    lemma_bitlen_le,
    lemma_encode_add,
    lemma_encode_in_width,
    lemma_encode_mul,
    lemma_encode_small,
    lemma_encode_sub,
    lemma_pow2_split,
    lemma_pow_cost_le_bitlen,
    lemma_pow_ge_pow2,
    lemma_pow_neg,
    magnitude_exec,
    pow2_u128,
    pow_cost,
    tdiv,
    trem,
};
use crate::cs::{ConstraintSystem, OverflowPolicy};
use crate::error::ExpressionError;
use crate::span::Span;
use vstd::arithmetic::div_mod::{
    lemma_mod_bound,
    lemma_mul_mod_noop_general,
    lemma_small_mod,
};
use vstd::arithmetic::mul::lemma_mul_is_associative;
use vstd::arithmetic::power::{
    lemma_pow1,
    lemma_pow_adds,
    lemma_pow_mod_noop,
    lemma_pow_multiplies,
    lemma_square_is_pow2,
    pow,
};
use vstd::arithmetic::power2::{lemma2_to64, lemma_pow2_adds, lemma_pow2_pos, pow2};

/// What an integer gadget produces: the result wire's bit pattern, or the
/// reason the gadget statically rejects the operation.
pub enum ArithOutcome {
    Val(nat),
    DivisionByZero,
    Overflow,
}

/// Constraints appended by a single (non-exponentiation) gadget invocation:
/// one for the operation, plus one overflow-forcing constraint under the
/// constrained policy.
pub open spec fn flat_cost(pol: OverflowPolicy) -> nat {
    if pol is Constrained {
        2
    } else {
        1
    }
}

/// Constraints appended by an exponentiation gadget invocation.
pub open spec fn pow_gadget_cost(pol: OverflowPolicy, e: nat) -> nat {
    pow_cost(e) + if pol is Constrained {
        1nat
    } else {
        0nat
    }
}

/// Integer addition semantics under a policy, over `w`-bit patterns.
pub open spec fn int_add_sem(pol: OverflowPolicy, w: nat, signed: bool, x: nat, y: nat) -> ArithOutcome {
    let i = as_int(x, w, signed) + as_int(y, w, signed);
    if pol is Checked && !in_range(i, w, signed) {
        ArithOutcome::Overflow
    } else {
        ArithOutcome::Val(encode(i, w))
    }
}

/// Integer subtraction semantics.
pub open spec fn int_sub_sem(pol: OverflowPolicy, w: nat, signed: bool, x: nat, y: nat) -> ArithOutcome {
    let i = as_int(x, w, signed) - as_int(y, w, signed);
    if pol is Checked && !in_range(i, w, signed) {
        ArithOutcome::Overflow
    } else {
        ArithOutcome::Val(encode(i, w))
    }
}

/// Integer multiplication semantics.
pub open spec fn int_mul_sem(pol: OverflowPolicy, w: nat, signed: bool, x: nat, y: nat) -> ArithOutcome {
    let i = as_int(x, w, signed) * as_int(y, w, signed);
    if pol is Checked && !in_range(i, w, signed) {
        ArithOutcome::Overflow
    } else {
        ArithOutcome::Val(encode(i, w))
    }
}

/// Integer division semantics: truncated division, a statically known zero
/// divisor is rejected outright.
pub open spec fn int_div_sem(pol: OverflowPolicy, w: nat, signed: bool, x: nat, y: nat) -> ArithOutcome {
    let ax = as_int(x, w, signed);
    let ay = as_int(y, w, signed);
    if ay == 0 {
        ArithOutcome::DivisionByZero
    } else if pol is Checked && !in_range(tdiv(ax, ay), w, signed) {
        ArithOutcome::Overflow
    } else {
        ArithOutcome::Val(encode(tdiv(ax, ay), w))
    }
}

/// Integer modulus semantics: remainder of truncated division, its sign
/// following the dividend.
pub open spec fn int_mod_sem(pol: OverflowPolicy, w: nat, signed: bool, x: nat, y: nat) -> ArithOutcome {
    let ax = as_int(x, w, signed);
    let ay = as_int(y, w, signed);
    if ay == 0 {
        ArithOutcome::DivisionByZero
    } else {
        ArithOutcome::Val(encode(trem(ax, ay), w))
    }
}

/// Integer exponentiation semantics: the exponent is an unsigned magnitude,
/// the result keeps the base's width and signedness.
pub open spec fn int_pow_sem(pol: OverflowPolicy, w: nat, signed: bool, x: nat, e: nat) -> ArithOutcome {
    if pol is Checked && !in_range(pow(as_int(x, w, signed), e), w, signed) {
        ArithOutcome::Overflow
    } else {
        ArithOutcome::Val(encode(pow(x as int, e), w))
    }
}

/// Field addition semantics, modulo `p`.
pub open spec fn field_add_sem(p: nat, x: nat, y: nat) -> nat {
    (x + y) % p
}

/// Field subtraction semantics.
pub open spec fn field_sub_sem(p: nat, x: nat, y: nat) -> nat {
    ((x as int - y) % (p as int)) as nat
}

/// Field multiplication semantics.
pub open spec fn field_mul_sem(p: nat, x: nat, y: nat) -> nat {
    (x * y) % p
}

/// Field exponentiation (by an integer magnitude) semantics.
pub open spec fn field_pow_sem(p: nat, x: nat, e: nat) -> nat {
    (pow(x as int, e) % (p as int)) as nat
}

/// Group addition semantics, in a cyclic group of order `n` written
/// additively.
pub open spec fn group_add_sem(n: nat, x: nat, y: nat) -> nat {
    (x + y) % n
}

/// Group subtraction semantics.
pub open spec fn group_sub_sem(n: nat, x: nat, y: nat) -> nat {
    ((x as int - y) % (n as int)) as nat
}

/// Group scalar-multiplication semantics: the `e`-fold sum of a group
/// element.
pub open spec fn group_scalar_sem(n: nat, g: nat, e: nat) -> nat {
    (g * e) % n
}

/// A successful gadget call: the configuration stands, exactly one wire
/// carrying `v` was appended at index `w`, and `dc` constraints were added.
pub open spec fn gadget_ok(
    pre: ConstraintSystem,
    post: ConstraintSystem,
    w: usize,
    v: nat,
    dc: nat,
) -> bool {
    &&& pre.same_config(post)
    &&& w == pre.wire_values().len()
    &&& v < pow2(64)
    &&& post.wire_values() == pre.wire_values().push(v as u64)
    &&& post.constraint_count() == pre.constraint_count() + dc
}

/// A rejected gadget call leaves the constraint system untouched.
pub open spec fn gadget_rejected(pre: ConstraintSystem, post: ConstraintSystem) -> bool {
    post == pre
}

/// A statically rejected overflow, reported at `sp`.
pub open spec fn is_overflow_err(e: ExpressionError, sp: Span) -> bool {
    e matches ExpressionError::Overflow { message, span } && message@
        == crate::error::overflow_message() && span == sp
}

/// A statically rejected zero divisor, reported at `sp`.
pub open spec fn is_div_zero_err(e: ExpressionError, sp: Span) -> bool {
    e matches ExpressionError::DivisionByZero { message, span } && message@
        == crate::error::division_by_zero_message() && span == sp
}

proof fn lemma_val_fits(v: nat, w: nat)
    requires
        w <= 64,
        v < pow2(w),
    ensures
        v < pow2(64),
        (v as u64) as nat == v,
{
    if w < 64 {
        vstd::arithmetic::power2::lemma_pow2_strictly_increases(w, 64);
    }
    lemma2_to64();
}

/// Modular product with a modulus of at most `2^64`.
fn mul_mod(a: u128, b: u128, m: u128) -> (r: u128)
    requires
        1 <= m <= pow2(64),
        a < m,
        b < m,
    ensures
        r as int == (a as int * b) % (m as int),
        r < m,
{
    proof {
        lemma2_to64();
        lemma_pow2_adds(64, 64);
        assert(a as int * b < pow2(64) as int * pow2(64) as int) by (nonlinear_arith)
            requires
                0 <= a < pow2(64),
                0 <= b < pow2(64),
        ;
        lemma_mod_bound(a as int * b, m as int);
    }
    (a * b) % m
}

/// Modular exponentiation by square-and-multiply, appending one constraint
/// per multiplication sub-circuit: `pow_cost(e)` constraints in all, a
/// number proportional to the exponent's bit length.
pub fn pow_mod(cs: &mut ConstraintSystem, b: u128, e: u64, m: u128) -> (r: u128)
    requires
        1 <= m <= pow2(64),
        b < m,
        old(cs).constraint_count() + pow_cost(e as nat) <= u64::MAX,
    ensures
        r < m,
        r as int == pow(b as int, e as nat) % (m as int),
        final(cs).wire_values() == old(cs).wire_values(),
        old(cs).same_config(*final(cs)),
        final(cs).constraint_count() == old(cs).constraint_count() + pow_cost(e as nat),
{
    let ghost c0 = old(cs).constraint_count();
    let mut acc: u128 = 1 % m;
    let mut base: u128 = b;
    let mut exp: u64 = e;
    proof {
        lemma_mod_bound(1, m as int);
        lemma_mul_mod_noop_general(1, pow(b as int, e as nat), m as int);
    }
    while exp > 0
        invariant
            1 <= m <= pow2(64),
            acc < m,
            base < m,
            (acc as int * pow(base as int, exp as nat)) % (m as int) == pow(b as int, e as nat)
                % (m as int),
            cs.constraint_count() + pow_cost(exp as nat) == c0 + pow_cost(e as nat),
            c0 + pow_cost(e as nat) <= u64::MAX,
            cs.wire_values() == old(cs).wire_values(),
            old(cs).same_config(*cs),
        decreases exp,
    {
        let ghost exp0 = exp as nat;
        let ghost acc0 = acc as int;
        let ghost base0 = base as int;
        let ghost m_i = m as int;
        proof {
            assert(pow_cost(exp0) == (if exp0 % 2 == 1 {
                1nat
            } else {
                0nat
            }) + (if exp0 / 2 > 0 {
                1nat + pow_cost(exp0 / 2)
            } else {
                0nat
            }));
        }
        if exp % 2 == 1 {
            acc = mul_mod(acc, base, m);
            cs.add_constraint();
        }
        exp = exp / 2;
        if exp > 0 {
            base = mul_mod(base, base, m);
            cs.add_constraint();
        }
        proof {
            let k = exp as nat;
            // pow(base0, exp0) regrouped around the halved exponent.
            lemma_square_is_pow2(base0);
            lemma_pow_multiplies(base0, 2, k);
            assert(pow(base0 * base0, k) == pow(base0, 2 * k));
            if exp0 % 2 == 1 {
                lemma_pow1(base0);
                lemma_pow_adds(base0, 1, 2 * k);
                assert(pow(base0, exp0) == base0 * pow(base0, 2 * k));
            } else {
                assert(pow(base0, exp0) == pow(base0, 2 * k));
            }
            if k > 0 {
                // The squared base is reduced modulo m; powering commutes
                // with that reduction.
                lemma_pow_mod_noop(base0 * base0, k, m_i);
                assert(pow(base as int, k) % m_i == pow(base0 * base0, k) % m_i);
            } else {
                assert(pow(base as int, k) == 1) by {
                    reveal(pow);
                }
                assert(pow(base0, 2 * k) == 1) by {
                    reveal(pow);
                }
            }
            if exp0 % 2 == 1 {
                // acc picked up one factor of base0 modulo m.
                lemma_mul_mod_noop_general(acc0 * base0, pow(base as int, k), m_i);
                assert((acc as int * pow(base as int, k)) % m_i == ((acc0 * base0) * pow(
                    base as int,
                    k,
                )) % m_i);
                if k > 0 {
                    lemma_mul_mod_noop_general(acc0 * base0, pow(base0 * base0, k), m_i);
                    assert(((acc0 * base0) * pow(base as int, k)) % m_i == ((acc0 * base0) * pow(
                        base0 * base0,
                        k,
                    )) % m_i);
                }
                lemma_mul_is_associative(acc0, base0, pow(base0, 2 * k));
                assert((acc0 * base0) * pow(base0, 2 * k) == acc0 * (base0 * pow(base0, 2 * k)));
                assert((acc as int * pow(base as int, k)) % m_i == (acc0 * pow(base0, exp0))
                    % m_i);
            } else {
                lemma_mul_mod_noop_general(acc0, pow(base as int, k), m_i);
                lemma_mul_mod_noop_general(acc0, pow(base0 * base0, k), m_i);
                assert((acc as int * pow(base as int, k)) % m_i == (acc0 * pow(base0, exp0))
                    % m_i);
            }
        }
    }
    proof {
        assert(pow(base as int, 0) == 1) by {
            reveal(pow);
        }
        lemma_small_mod(acc as nat, m as nat);
    }
    acc
}

/// Modular sum with a modulus of at most `2^64`.
fn add_mod_c(x: u128, y: u128, m: u128) -> (r: u128)
    requires
        1 <= m <= pow2(64),
        x < m,
        y < m,
    ensures
        r as int == (x as int + y) % (m as int),
        r < m,
{
    proof {
        lemma2_to64();
    }
    let s = x + y;
    if s >= m {
        proof {
            vstd::arithmetic::div_mod::lemma_mod_sub_multiples_vanish(s as int, m as int);
            lemma_small_mod((s - m) as nat, m as nat);
        }
        s - m
    } else {
        proof {
            lemma_small_mod(s as nat, m as nat);
        }
        s
    }
}

/// Modular difference with a modulus of at most `2^64`.
fn sub_mod_c(x: u128, y: u128, m: u128) -> (r: u128)
    requires
        1 <= m <= pow2(64),
        x < m,
        y < m,
    ensures
        r as int == (x as int - y) % (m as int),
        r < m,
{
    proof {
        lemma2_to64();
    }
    if x >= y {
        proof {
            lemma_small_mod((x - y) as nat, m as nat);
        }
        x - y
    } else {
        proof {
            vstd::arithmetic::div_mod::lemma_mod_add_multiples_vanish(
                x as int - y as int,
                m as int,
            );
            lemma_small_mod((x + m - y) as nat, m as nat);
        }
        x + m - y
    }
}

/// Exact exponentiation with an early stop: reports whether the power
/// exceeds `cap` without ever computing past it.
fn pow_capped(b: u128, e: u64, cap: u128) -> (r: Option<u128>)
    requires
        b < pow2(64),
        cap < pow2(64),
    ensures
        match r {
            Some(v) => v as int == pow(b as int, e as nat) && v <= cap,
            None => pow(b as int, e as nat) > cap,
        },
{
    proof {
        lemma2_to64();
    }
    if e == 0 {
        proof {
            reveal(pow);
        }
        if cap == 0 {
            None
        } else {
            Some(1)
        }
    } else if b == 0 {
        proof {
            vstd::arithmetic::power::lemma0_pow(e as nat);
        }
        Some(0)
    } else if b == 1 {
        proof {
            vstd::arithmetic::power::lemma1_pow(e as nat);
        }
        if cap == 0 {
            None
        } else {
            Some(1)
        }
    } else if e >= 128 {
        proof {
            lemma_pow_ge_pow2(b as int, e as nat);
            if e > 128 {
                vstd::arithmetic::power2::lemma_pow2_strictly_increases(128, e as nat);
            }
            vstd::arithmetic::power2::lemma_pow2_strictly_increases(64, 128);
            lemma_pow2_adds(64, 64);
        }
        None
    } else {
        if cap == 0 {
            proof {
                vstd::arithmetic::power::lemma_pow_positive(b as int, e as nat);
            }
            return None;
        }
        let mut acc: u128 = 1;
        let mut i: u64 = 0;
        proof {
            reveal(pow);
        }
        while i < e
            invariant
                2 <= b < pow2(64),
                1 <= e <= 127,
                i <= e,
                1 <= cap < pow2(64),
                acc as int == pow(b as int, i as nat),
                1 <= acc <= cap,
            decreases e - i,
        {
            proof {
                lemma2_to64();
                lemma_pow2_adds(64, 64);
                assert(acc as int * b < pow2(64) as int * pow2(64) as int) by (nonlinear_arith)
                    requires
                        0 <= acc < pow2(64),
                        0 <= b < pow2(64),
                ;
            }
            let next = acc * b;
            proof {
                lemma_pow1(b as int);
                lemma_pow_adds(b as int, i as nat, 1);
                assert(next as int == pow(b as int, (i + 1) as nat));
                vstd::arithmetic::power::lemma_pow_positive(b as int, (i + 1) as nat);
            }
            if next > cap {
                proof {
                    vstd::arithmetic::power::lemma_pow_increases(
                        b as nat,
                        (i + 1) as nat,
                        e as nat,
                    );
                }
                return None;
            }
            acc = next;
            i = i + 1;
        }
        Some(acc)
    }
}

/// Integer addition gadget. Relies on nothing outside the handle: it reads
/// the operand wires, applies the configured overflow policy, and wires the
/// declared sum.
pub fn integer_add(
    cs: &mut ConstraintSystem,
    a_wire: usize,
    b_wire: usize,
    width: u32,
    signed: bool,
    span: Span,
) -> (r: Result<usize, ExpressionError>)
    requires
        1 <= width <= 64,
        a_wire < old(cs).wire_values().len(),
        b_wire < old(cs).wire_values().len(),
        in_width(old(cs).wire_values()[a_wire as int] as nat, width as nat),
        in_width(old(cs).wire_values()[b_wire as int] as nat, width as nat),
        old(cs).constraint_count() + 2 <= u64::MAX,
    ensures
        ({
            let x = old(cs).wire_values()[a_wire as int] as nat;
            let y = old(cs).wire_values()[b_wire as int] as nat;
            match int_add_sem(old(cs).policy(), width as nat, signed, x, y) {
                ArithOutcome::Val(v) => r matches Ok(wr) && gadget_ok(
                    *old(cs),
                    *final(cs),
                    wr,
                    v,
                    flat_cost(old(cs).policy()),
                ) && in_width(v, width as nat),
                ArithOutcome::Overflow => r matches Err(e) && is_overflow_err(e, span)
                    && gadget_rejected(*old(cs), *final(cs)),
                ArithOutcome::DivisionByZero => false,
            }
        }),
{
    let x = cs.wire_value(a_wire);
    let y = cs.wire_value(b_wire);
    let pol = cs.overflow_policy();
    let ghost w_n = width as nat;
    proof {
        lemma_as_int_bounds(x as nat, w_n, signed);
        lemma_as_int_bounds(y as nat, w_n, signed);
        lemma_encode_add(x as nat, y as nat, w_n, signed);
        lemma_encode_in_width(as_int(x as nat, w_n, signed) + as_int(y as nat, w_n, signed), w_n);
        lemma_val_fits(encode(as_int(x as nat, w_n, signed) + as_int(y as nat, w_n, signed), w_n), w_n);
        lemma_pow2_split(w_n);
    }
    if let OverflowPolicy::Checked = pol {
        let ai = as_int_exec(x, width, signed);
        let bi = as_int_exec(y, width, signed);
        let s = ai + bi;
        if in_range_exec(s, width, signed) {
            let v = encode_exec(s, width);
            let wire = cs.allocate_witness(v);
            cs.add_constraint();
            Ok(wire)
        } else {
            Err(ExpressionError::overflow(span))
        }
    } else {
        let m = pow2_u128(width);
        proof {
            lemma_pow2_pos(w_n);
            if width < 64 {
                vstd::arithmetic::power2::lemma_pow2_strictly_increases(w_n, 64);
            }
            lemma2_to64();
        }
        let v128 = add_mod_c(x as u128, y as u128, m);
        let v = v128 as u64;
        let wire = cs.allocate_witness(v);
        cs.add_constraint();
        if let OverflowPolicy::Constrained = pol {
            cs.add_constraint();
        }
        Ok(wire)
    }
}

/// Integer subtraction gadget.
pub fn integer_sub(
    cs: &mut ConstraintSystem,
    a_wire: usize,
    b_wire: usize,
    width: u32,
    signed: bool,
    span: Span,
) -> (r: Result<usize, ExpressionError>)
    requires
        1 <= width <= 64,
        a_wire < old(cs).wire_values().len(),
        b_wire < old(cs).wire_values().len(),
        in_width(old(cs).wire_values()[a_wire as int] as nat, width as nat),
        in_width(old(cs).wire_values()[b_wire as int] as nat, width as nat),
        old(cs).constraint_count() + 2 <= u64::MAX,
    ensures
        ({
            let x = old(cs).wire_values()[a_wire as int] as nat;
            let y = old(cs).wire_values()[b_wire as int] as nat;
            match int_sub_sem(old(cs).policy(), width as nat, signed, x, y) {
                ArithOutcome::Val(v) => r matches Ok(wr) && gadget_ok(
                    *old(cs),
                    *final(cs),
                    wr,
                    v,
                    flat_cost(old(cs).policy()),
                ) && in_width(v, width as nat),
                ArithOutcome::Overflow => r matches Err(e) && is_overflow_err(e, span)
                    && gadget_rejected(*old(cs), *final(cs)),
                ArithOutcome::DivisionByZero => false,
            }
        }),
{
    let x = cs.wire_value(a_wire);
    let y = cs.wire_value(b_wire);
    let pol = cs.overflow_policy();
    let ghost w_n = width as nat;
    proof {
        lemma_as_int_bounds(x as nat, w_n, signed);
        lemma_as_int_bounds(y as nat, w_n, signed);
        lemma_encode_sub(x as nat, y as nat, w_n, signed);
        lemma_encode_in_width(as_int(x as nat, w_n, signed) - as_int(y as nat, w_n, signed), w_n);
        lemma_val_fits(encode(as_int(x as nat, w_n, signed) - as_int(y as nat, w_n, signed), w_n), w_n);
        lemma_pow2_split(w_n);
    }
    if let OverflowPolicy::Checked = pol {
        let ai = as_int_exec(x, width, signed);
        let bi = as_int_exec(y, width, signed);
        let s = ai - bi;
        if in_range_exec(s, width, signed) {
            let v = encode_exec(s, width);
            let wire = cs.allocate_witness(v);
            cs.add_constraint();
            Ok(wire)
        } else {
            Err(ExpressionError::overflow(span))
        }
    } else {
        let m = pow2_u128(width);
        proof {
            lemma_pow2_pos(w_n);
            if width < 64 {
                vstd::arithmetic::power2::lemma_pow2_strictly_increases(w_n, 64);
            }
            lemma2_to64();
        }
        let v128 = sub_mod_c(x as u128, y as u128, m);
        let v = v128 as u64;
        let wire = cs.allocate_witness(v);
        cs.add_constraint();
        if let OverflowPolicy::Constrained = pol {
            cs.add_constraint();
        }
        Ok(wire)
    }
}

/// Integer multiplication gadget.
pub fn integer_mul(
    cs: &mut ConstraintSystem,
    a_wire: usize,
    b_wire: usize,
    width: u32,
    signed: bool,
    span: Span,
) -> (r: Result<usize, ExpressionError>)
    requires
        1 <= width <= 64,
        a_wire < old(cs).wire_values().len(),
        b_wire < old(cs).wire_values().len(),
        in_width(old(cs).wire_values()[a_wire as int] as nat, width as nat),
        in_width(old(cs).wire_values()[b_wire as int] as nat, width as nat),
        old(cs).constraint_count() + 2 <= u64::MAX,
    ensures
        ({
            let x = old(cs).wire_values()[a_wire as int] as nat;
            let y = old(cs).wire_values()[b_wire as int] as nat;
            match int_mul_sem(old(cs).policy(), width as nat, signed, x, y) {
                ArithOutcome::Val(v) => r matches Ok(wr) && gadget_ok(
                    *old(cs),
                    *final(cs),
                    wr,
                    v,
                    flat_cost(old(cs).policy()),
                ) && in_width(v, width as nat),
                ArithOutcome::Overflow => r matches Err(e) && is_overflow_err(e, span)
                    && gadget_rejected(*old(cs), *final(cs)),
                ArithOutcome::DivisionByZero => false,
            }
        }),
{
    let x = cs.wire_value(a_wire);
    let y = cs.wire_value(b_wire);
    let pol = cs.overflow_policy();
    let ghost w_n = width as nat;
    proof {
        lemma_as_int_bounds(x as nat, w_n, signed);
        lemma_as_int_bounds(y as nat, w_n, signed);
        lemma_encode_mul(x as nat, y as nat, w_n, signed);
        lemma_encode_in_width(as_int(x as nat, w_n, signed) * as_int(y as nat, w_n, signed), w_n);
        lemma_val_fits(encode(as_int(x as nat, w_n, signed) * as_int(y as nat, w_n, signed), w_n), w_n);
        lemma_pow2_split(w_n);
        lemma_pow2_pos(w_n);
        if width < 64 {
            vstd::arithmetic::power2::lemma_pow2_strictly_increases(w_n, 64);
        }
        lemma2_to64();
    }
    if let OverflowPolicy::Checked = pol {
        if signed {
            let ai = as_int_exec(x, width, signed);
            let bi = as_int_exec(y, width, signed);
            proof {
                if width - 1 < 63 {
                    vstd::arithmetic::power2::lemma_pow2_strictly_increases(
                        (w_n - 1) as nat,
                        63,
                    );
                }
                lemma_pow2_adds(63, 63);
                lemma_pow2_adds(63, 64);
                vstd::arithmetic::power2::lemma2_to64_rest();
                assert(-(pow2(63) as int * pow2(63) as int) <= ai as int * bi && ai as int * bi
                    <= pow2(63) as int * pow2(63) as int) by (nonlinear_arith)
                    requires
                        -(pow2(63) as int) <= ai <= pow2(63) as int,
                        -(pow2(63) as int) <= bi <= pow2(63) as int,
                ;
            }
            let p = ai * bi;
            if in_range_exec(p, width, signed) {
                let v = encode_exec(p, width);
                let wire = cs.allocate_witness(v);
                cs.add_constraint();
                Ok(wire)
            } else {
                Err(ExpressionError::overflow(span))
            }
        } else {
            proof {
                lemma_pow2_adds(64, 64);
                assert(x as int * y < pow2(64) as int * pow2(64) as int) by (nonlinear_arith)
                    requires
                        0 <= x < pow2(64),
                        0 <= y < pow2(64),
                ;
            }
            let p = (x as u128) * (y as u128);
            let m = pow2_u128(width);
            if p < m {
                proof {
                    lemma_encode_small(x as int * y as int, w_n);
                }
                let v = p as u64;
                let wire = cs.allocate_witness(v);
                cs.add_constraint();
                Ok(wire)
            } else {
                Err(ExpressionError::overflow(span))
            }
        }
    } else {
        let m = pow2_u128(width);
        let v128 = mul_mod(x as u128, y as u128, m);
        let v = v128 as u64;
        let wire = cs.allocate_witness(v);
        cs.add_constraint();
        if let OverflowPolicy::Constrained = pol {
            cs.add_constraint();
        }
        Ok(wire)
    }
}

/// Integer division gadget: truncated division; a zero divisor is rejected
/// with a distinct error, never wired as a wrong value.
pub fn integer_div(
    cs: &mut ConstraintSystem,
    a_wire: usize,
    b_wire: usize,
    width: u32,
    signed: bool,
    span: Span,
) -> (r: Result<usize, ExpressionError>)
    requires
        1 <= width <= 64,
        a_wire < old(cs).wire_values().len(),
        b_wire < old(cs).wire_values().len(),
        in_width(old(cs).wire_values()[a_wire as int] as nat, width as nat),
        in_width(old(cs).wire_values()[b_wire as int] as nat, width as nat),
        old(cs).constraint_count() + 2 <= u64::MAX,
    ensures
        ({
            let x = old(cs).wire_values()[a_wire as int] as nat;
            let y = old(cs).wire_values()[b_wire as int] as nat;
            match int_div_sem(old(cs).policy(), width as nat, signed, x, y) {
                ArithOutcome::Val(v) => r matches Ok(wr) && gadget_ok(
                    *old(cs),
                    *final(cs),
                    wr,
                    v,
                    flat_cost(old(cs).policy()),
                ) && in_width(v, width as nat),
                ArithOutcome::Overflow => r matches Err(e) && is_overflow_err(e, span)
                    && gadget_rejected(*old(cs), *final(cs)),
                ArithOutcome::DivisionByZero => r matches Err(e) && is_div_zero_err(e, span)
                    && gadget_rejected(*old(cs), *final(cs)),
            }
        }),
{
    let x = cs.wire_value(a_wire);
    let y = cs.wire_value(b_wire);
    let pol = cs.overflow_policy();
    let ghost w_n = width as nat;
    proof {
        lemma_as_int_bounds(x as nat, w_n, signed);
        lemma_as_int_bounds(y as nat, w_n, signed);
        lemma_pow2_split(w_n);
        lemma_pow2_pos(w_n);
    }
    if y == 0 {
        return Err(ExpressionError::division_by_zero(span));
    }
    let neg_x = is_negative_exec(x, width, signed);
    let neg_y = is_negative_exec(y, width, signed);
    let mx = magnitude_exec(x, width, signed);
    let my = magnitude_exec(y, width, signed);
    let qm = mx / my;
    proof {
        vstd::arithmetic::div_mod::lemma_div_nonincreasing(mx as int, my as int);
    }
    let q: i128 = if neg_x != neg_y {
        -(qm as i128)
    } else {
        qm as i128
    };
    let ghost ax = as_int(x as nat, w_n, signed);
    let ghost ay = as_int(y as nat, w_n, signed);
    proof {
        assert(q == tdiv(ax, ay));
        lemma_encode_in_width(tdiv(ax, ay), w_n);
        lemma_val_fits(encode(tdiv(ax, ay), w_n), w_n);
    }
    if let OverflowPolicy::Checked = pol {
        if !in_range_exec(q, width, signed) {
            return Err(ExpressionError::overflow(span));
        }
    }
    let v = encode_exec(q, width);
    let wire = cs.allocate_witness(v);
    cs.add_constraint();
    if let OverflowPolicy::Constrained = pol {
        cs.add_constraint();
    }
    Ok(wire)
}

/// Integer modulus gadget: the remainder of truncated division; a zero
/// divisor is rejected with a distinct error.
pub fn integer_mod(
    cs: &mut ConstraintSystem,
    a_wire: usize,
    b_wire: usize,
    width: u32,
    signed: bool,
    span: Span,
) -> (r: Result<usize, ExpressionError>)
    requires
        1 <= width <= 64,
        a_wire < old(cs).wire_values().len(),
        b_wire < old(cs).wire_values().len(),
        in_width(old(cs).wire_values()[a_wire as int] as nat, width as nat),
        in_width(old(cs).wire_values()[b_wire as int] as nat, width as nat),
        old(cs).constraint_count() + 2 <= u64::MAX,
    ensures
        ({
            let x = old(cs).wire_values()[a_wire as int] as nat;
            let y = old(cs).wire_values()[b_wire as int] as nat;
            match int_mod_sem(old(cs).policy(), width as nat, signed, x, y) {
                ArithOutcome::Val(v) => r matches Ok(wr) && gadget_ok(
                    *old(cs),
                    *final(cs),
                    wr,
                    v,
                    flat_cost(old(cs).policy()),
                ) && in_width(v, width as nat),
                ArithOutcome::Overflow => false,
                ArithOutcome::DivisionByZero => r matches Err(e) && is_div_zero_err(e, span)
                    && gadget_rejected(*old(cs), *final(cs)),
            }
        }),
{
    let x = cs.wire_value(a_wire);
    let y = cs.wire_value(b_wire);
    let pol = cs.overflow_policy();
    let ghost w_n = width as nat;
    proof {
        lemma_as_int_bounds(x as nat, w_n, signed);
        lemma_as_int_bounds(y as nat, w_n, signed);
        lemma_pow2_split(w_n);
        lemma_pow2_pos(w_n);
    }
    if y == 0 {
        return Err(ExpressionError::division_by_zero(span));
    }
    let neg_x = is_negative_exec(x, width, signed);
    let mx = magnitude_exec(x, width, signed);
    let my = magnitude_exec(y, width, signed);
    let rm = mx % my;
    proof {
        lemma_mod_bound(mx as int, my as int);
    }
    let rem: i128 = if neg_x {
        -(rm as i128)
    } else {
        rm as i128
    };
    let ghost ax = as_int(x as nat, w_n, signed);
    let ghost ay = as_int(y as nat, w_n, signed);
    proof {
        assert(rem == trem(ax, ay));
        lemma_encode_in_width(trem(ax, ay), w_n);
        lemma_val_fits(encode(trem(ax, ay), w_n), w_n);
    }
    let v = encode_exec(rem, width);
    let wire = cs.allocate_witness(v);
    cs.add_constraint();
    if let OverflowPolicy::Constrained = pol {
        cs.add_constraint();
    }
    Ok(wire)
}

/// Representability of a power, reduced to a magnitude cap: the reading's
/// power fits the width exactly when the magnitude's power stays under the
/// cap the sign and parity select.
proof fn lemma_pow_range_cap(x: nat, w: nat, signed: bool, e: nat)
    requires
        1 <= w <= 64,
        in_width(x, w),
    ensures
        ({
            let ax = as_int(x, w, signed);
            let mg = iabs(ax);
            let cap: int = if ax < 0 && e % 2 == 1 {
                pow2((w - 1) as nat) as int
            } else if signed {
                pow2((w - 1) as nat) - 1
            } else {
                pow2(w) - 1
            };
            in_range(pow(ax, e), w, signed) == (pow(mg as int, e) <= cap)
        }),
{
    let ax = as_int(x, w, signed);
    let mg = iabs(ax);
    lemma_as_int_bounds(x, w, signed);
    lemma_pow2_split(w);
    lemma_pow2_pos((w - 1) as nat);
    crate::arith::lemma_pow_nonneg(mg as int, e);
    if ax < 0 {
        lemma_pow_neg(mg as int, e);
        vstd::arithmetic::power::lemma_pow_positive(mg as int, e);
    }
}

/// Integer exponentiation gadget: square-and-multiply over the base's
/// width, the exponent wire read as an unsigned magnitude, the result
/// keeping the base's width and signedness. The constraints appended grow
/// with the exponent's bit length, not its magnitude.
pub fn integer_pow(
    cs: &mut ConstraintSystem,
    base_wire: usize,
    exp_wire: usize,
    width: u32,
    signed: bool,
    span: Span,
) -> (r: Result<usize, ExpressionError>)
    requires
        1 <= width <= 64,
        base_wire < old(cs).wire_values().len(),
        exp_wire < old(cs).wire_values().len(),
        in_width(old(cs).wire_values()[base_wire as int] as nat, width as nat),
        old(cs).constraint_count() + 130 <= u64::MAX,
    ensures
        ({
            let x = old(cs).wire_values()[base_wire as int] as nat;
            let e = old(cs).wire_values()[exp_wire as int] as nat;
            match int_pow_sem(old(cs).policy(), width as nat, signed, x, e) {
                ArithOutcome::Val(v) => r matches Ok(wr) && gadget_ok(
                    *old(cs),
                    *final(cs),
                    wr,
                    v,
                    pow_gadget_cost(old(cs).policy(), e),
                ) && in_width(v, width as nat),
                ArithOutcome::Overflow => r matches Err(e) && is_overflow_err(e, span)
                    && gadget_rejected(*old(cs), *final(cs)),
                ArithOutcome::DivisionByZero => false,
            }
        }),
{
    let x = cs.wire_value(base_wire);
    let e = cs.wire_value(exp_wire);
    let pol = cs.overflow_policy();
    let ghost w_n = width as nat;
    proof {
        lemma_as_int_bounds(x as nat, w_n, signed);
        lemma_pow2_split(w_n);
        lemma_pow2_pos(w_n);
        lemma2_to64();
        lemma_pow_cost_le_bitlen(e as nat);
        lemma_bitlen_le(e as nat, 64);
        if width < 64 {
            vstd::arithmetic::power2::lemma_pow2_strictly_increases(w_n, 64);
        }
        if width - 1 < 63 {
            vstd::arithmetic::power2::lemma_pow2_strictly_increases((w_n - 1) as nat, 63);
        }
        vstd::arithmetic::power2::lemma2_to64_rest();
    }
    if let OverflowPolicy::Checked = pol {
        let neg = is_negative_exec(x, width, signed);
        let mg = magnitude_exec(x, width, signed);
        let odd = e % 2 == 1;
        let cap: u128 = if neg && odd {
            pow2_u128(width - 1)
        } else if signed {
            pow2_u128(width - 1) - 1
        } else {
            pow2_u128(width) - 1
        };
        proof {
            lemma_pow_range_cap(x as nat, w_n, signed, e as nat);
        }
        match pow_capped(mg as u128, e, cap) {
            Option::None => Err(ExpressionError::overflow(span)),
            Option::Some(_) => {
                let m = pow2_u128(width);
                let v128 = pow_mod(cs, x as u128, e, m);
                let v = v128 as u64;
                let wire = cs.allocate_witness(v);
                Ok(wire)
            },
        }
    } else {
        let m = pow2_u128(width);
        let v128 = pow_mod(cs, x as u128, e, m);
        let v = v128 as u64;
        if let OverflowPolicy::Constrained = pol {
            cs.add_constraint();
        }
        let wire = cs.allocate_witness(v);
        Ok(wire)
    }
}

/// Boolean conjunction semantics over 0/1 wire values.
pub open spec fn bool_and_sem(x: nat, y: nat) -> nat {
    if x == 1 && y == 1 {
        1
    } else {
        0
    }
}

/// Boolean disjunction semantics.
pub open spec fn bool_or_sem(x: nat, y: nat) -> nat {
    if x == 1 || y == 1 {
        1
    } else {
        0
    }
}

/// Boolean exclusive-or semantics.
pub open spec fn bool_xor_sem(x: nat, y: nat) -> nat {
    if (x == 1) != (y == 1) {
        1
    } else {
        0
    }
}

/// Appends the constraints of one square-and-multiply pass over `e` without
/// touching any wire: the cost model of a scalar multiplication realized by
/// group doubling and addition.
fn count_scalar_constraints(cs: &mut ConstraintSystem, e: u64)
    requires
        old(cs).constraint_count() + pow_cost(e as nat) <= u64::MAX,
    ensures
        final(cs).wire_values() == old(cs).wire_values(),
        old(cs).same_config(*final(cs)),
        final(cs).constraint_count() == old(cs).constraint_count() + pow_cost(e as nat),
{
    let ghost c0 = old(cs).constraint_count();
    let mut exp: u64 = e;
    while exp > 0
        invariant
            cs.constraint_count() + pow_cost(exp as nat) == c0 + pow_cost(e as nat),
            c0 + pow_cost(e as nat) <= u64::MAX,
            cs.wire_values() == old(cs).wire_values(),
            old(cs).same_config(*cs),
        decreases exp,
    {
        let ghost exp0 = exp as nat;
        proof {
            assert(pow_cost(exp0) == (if exp0 % 2 == 1 {
                1nat
            } else {
                0nat
            }) + (if exp0 / 2 > 0 {
                1nat + pow_cost(exp0 / 2)
            } else {
                0nat
            }));
        }
        if exp % 2 == 1 {
            cs.add_constraint();
        }
        exp = exp / 2;
        if exp > 0 {
            cs.add_constraint();
        }
    }
}

/// Field addition gadget, modulo the handle's prime.
pub fn field_add(cs: &mut ConstraintSystem, a_wire: usize, b_wire: usize) -> (w: usize)
    requires
        old(cs).wf(),
        a_wire < old(cs).wire_values().len(),
        b_wire < old(cs).wire_values().len(),
        old(cs).wire_values()[a_wire as int] < old(cs).field_modulus(),
        old(cs).wire_values()[b_wire as int] < old(cs).field_modulus(),
        old(cs).constraint_count() + 1 <= u64::MAX,
    ensures
        ({
            let x = old(cs).wire_values()[a_wire as int] as nat;
            let y = old(cs).wire_values()[b_wire as int] as nat;
            let v = field_add_sem(old(cs).field_modulus(), x, y);
            gadget_ok(*old(cs), *final(cs), w, v, 1) && v < old(cs).field_modulus()
        }),
{
    let x = cs.wire_value(a_wire);
    let y = cs.wire_value(b_wire);
    let p = cs.field_modulus_value();
    proof {
        lemma2_to64();
    }
    let v = add_mod_c(x as u128, y as u128, p as u128) as u64;
    let wire = cs.allocate_witness(v);
    cs.add_constraint();
    wire
}

/// Field subtraction gadget.
pub fn field_sub(cs: &mut ConstraintSystem, a_wire: usize, b_wire: usize) -> (w: usize)
    requires
        old(cs).wf(),
        a_wire < old(cs).wire_values().len(),
        b_wire < old(cs).wire_values().len(),
        old(cs).wire_values()[a_wire as int] < old(cs).field_modulus(),
        old(cs).wire_values()[b_wire as int] < old(cs).field_modulus(),
        old(cs).constraint_count() + 1 <= u64::MAX,
    ensures
        ({
            let x = old(cs).wire_values()[a_wire as int] as nat;
            let y = old(cs).wire_values()[b_wire as int] as nat;
            let v = field_sub_sem(old(cs).field_modulus(), x, y);
            gadget_ok(*old(cs), *final(cs), w, v, 1) && v < old(cs).field_modulus()
        }),
{
    let x = cs.wire_value(a_wire);
    let y = cs.wire_value(b_wire);
    let p = cs.field_modulus_value();
    proof {
        lemma2_to64();
    }
    let v = sub_mod_c(x as u128, y as u128, p as u128) as u64;
    let wire = cs.allocate_witness(v);
    cs.add_constraint();
    wire
}

/// Field multiplication gadget.
pub fn field_mul(cs: &mut ConstraintSystem, a_wire: usize, b_wire: usize) -> (w: usize)
    requires
        old(cs).wf(),
        a_wire < old(cs).wire_values().len(),
        b_wire < old(cs).wire_values().len(),
        old(cs).wire_values()[a_wire as int] < old(cs).field_modulus(),
        old(cs).wire_values()[b_wire as int] < old(cs).field_modulus(),
        old(cs).constraint_count() + 1 <= u64::MAX,
    ensures
        ({
            let x = old(cs).wire_values()[a_wire as int] as nat;
            let y = old(cs).wire_values()[b_wire as int] as nat;
            let v = field_mul_sem(old(cs).field_modulus(), x, y);
            gadget_ok(*old(cs), *final(cs), w, v, 1) && v < old(cs).field_modulus()
        }),
{
    let x = cs.wire_value(a_wire);
    let y = cs.wire_value(b_wire);
    let p = cs.field_modulus_value();
    proof {
        lemma2_to64();
    }
    let v = mul_mod(x as u128, y as u128, p as u128) as u64;
    let wire = cs.allocate_witness(v);
    cs.add_constraint();
    wire
}

/// Field exponentiation gadget: square-and-multiply over the field, the
/// exponent wire read as an unsigned magnitude.
pub fn field_pow(cs: &mut ConstraintSystem, base_wire: usize, exp_wire: usize) -> (w: usize)
    requires
        old(cs).wf(),
        base_wire < old(cs).wire_values().len(),
        exp_wire < old(cs).wire_values().len(),
        old(cs).wire_values()[base_wire as int] < old(cs).field_modulus(),
        old(cs).constraint_count() + 130 <= u64::MAX,
    ensures
        ({
            let x = old(cs).wire_values()[base_wire as int] as nat;
            let e = old(cs).wire_values()[exp_wire as int] as nat;
            let v = field_pow_sem(old(cs).field_modulus(), x, e);
            gadget_ok(*old(cs), *final(cs), w, v, pow_cost(e)) && v < old(cs).field_modulus()
        }),
{
    let x = cs.wire_value(base_wire);
    let e = cs.wire_value(exp_wire);
    let p = cs.field_modulus_value();
    proof {
        lemma2_to64();
        lemma_pow_cost_le_bitlen(e as nat);
        lemma_bitlen_le(e as nat, 64);
    }
    let v = pow_mod(cs, x as u128, e, p as u128) as u64;
    let wire = cs.allocate_witness(v);
    wire
}

/// Group addition gadget, in the cyclic group of the handle's order.
pub fn group_add(cs: &mut ConstraintSystem, a_wire: usize, b_wire: usize) -> (w: usize)
    requires
        old(cs).wf(),
        a_wire < old(cs).wire_values().len(),
        b_wire < old(cs).wire_values().len(),
        old(cs).wire_values()[a_wire as int] < old(cs).group_order(),
        old(cs).wire_values()[b_wire as int] < old(cs).group_order(),
        old(cs).constraint_count() + 1 <= u64::MAX,
    ensures
        ({
            let x = old(cs).wire_values()[a_wire as int] as nat;
            let y = old(cs).wire_values()[b_wire as int] as nat;
            let v = group_add_sem(old(cs).group_order(), x, y);
            gadget_ok(*old(cs), *final(cs), w, v, 1) && v < old(cs).group_order()
        }),
{
    let x = cs.wire_value(a_wire);
    let y = cs.wire_value(b_wire);
    let n = cs.group_order_value();
    proof {
        lemma2_to64();
    }
    let v = add_mod_c(x as u128, y as u128, n as u128) as u64;
    let wire = cs.allocate_witness(v);
    cs.add_constraint();
    wire
}

/// Group subtraction gadget.
pub fn group_sub(cs: &mut ConstraintSystem, a_wire: usize, b_wire: usize) -> (w: usize)
    requires
        old(cs).wf(),
        a_wire < old(cs).wire_values().len(),
        b_wire < old(cs).wire_values().len(),
        old(cs).wire_values()[a_wire as int] < old(cs).group_order(),
        old(cs).wire_values()[b_wire as int] < old(cs).group_order(),
        old(cs).constraint_count() + 1 <= u64::MAX,
    ensures
        ({
            let x = old(cs).wire_values()[a_wire as int] as nat;
            let y = old(cs).wire_values()[b_wire as int] as nat;
            let v = group_sub_sem(old(cs).group_order(), x, y);
            gadget_ok(*old(cs), *final(cs), w, v, 1) && v < old(cs).group_order()
        }),
{
    let x = cs.wire_value(a_wire);
    let y = cs.wire_value(b_wire);
    let n = cs.group_order_value();
    proof {
        lemma2_to64();
    }
    let v = sub_mod_c(x as u128, y as u128, n as u128) as u64;
    let wire = cs.allocate_witness(v);
    cs.add_constraint();
    wire
}

/// Group scalar-multiplication gadget: the double-and-add realization of the
/// `e`-fold sum, so its constraint count also follows the scalar's bit
/// length.
pub fn group_scalar_mul(cs: &mut ConstraintSystem, g_wire: usize, exp_wire: usize) -> (w: usize)
    requires
        old(cs).wf(),
        g_wire < old(cs).wire_values().len(),
        exp_wire < old(cs).wire_values().len(),
        old(cs).wire_values()[g_wire as int] < old(cs).group_order(),
        old(cs).constraint_count() + 130 <= u64::MAX,
    ensures
        ({
            let g = old(cs).wire_values()[g_wire as int] as nat;
            let e = old(cs).wire_values()[exp_wire as int] as nat;
            let v = group_scalar_sem(old(cs).group_order(), g, e);
            gadget_ok(*old(cs), *final(cs), w, v, pow_cost(e)) && v < old(cs).group_order()
        }),
{
    let g = cs.wire_value(g_wire);
    let e = cs.wire_value(exp_wire);
    let n = cs.group_order_value();
    proof {
        lemma2_to64();
        lemma_pow_cost_le_bitlen(e as nat);
        lemma_bitlen_le(e as nat, 64);
        lemma_mod_bound(e as int, n as int);
        vstd::arithmetic::div_mod::lemma_mul_mod_noop_right(g as int, e as int, n as int);
    }
    let em = ((e as u128) % (n as u128)) as u64;
    let v = mul_mod(g as u128, em as u128, n as u128) as u64;
    count_scalar_constraints(cs, e);
    let wire = cs.allocate_witness(v);
    wire
}

/// Boolean conjunction gadget.
pub fn boolean_and(cs: &mut ConstraintSystem, a_wire: usize, b_wire: usize) -> (w: usize)
    requires
        a_wire < old(cs).wire_values().len(),
        b_wire < old(cs).wire_values().len(),
        old(cs).wire_values()[a_wire as int] < 2,
        old(cs).wire_values()[b_wire as int] < 2,
        old(cs).constraint_count() + 1 <= u64::MAX,
    ensures
        ({
            let x = old(cs).wire_values()[a_wire as int] as nat;
            let y = old(cs).wire_values()[b_wire as int] as nat;
            let v = bool_and_sem(x, y);
            gadget_ok(*old(cs), *final(cs), w, v, 1) && v < 2
        }),
{
    let x = cs.wire_value(a_wire);
    let y = cs.wire_value(b_wire);
    proof {
        lemma2_to64();
    }
    let v: u64 = if x == 1 && y == 1 {
        1
    } else {
        0
    };
    let wire = cs.allocate_witness(v);
    cs.add_constraint();
    wire
}

/// Boolean disjunction gadget.
pub fn boolean_or(cs: &mut ConstraintSystem, a_wire: usize, b_wire: usize) -> (w: usize)
    requires
        a_wire < old(cs).wire_values().len(),
        b_wire < old(cs).wire_values().len(),
        old(cs).wire_values()[a_wire as int] < 2,
        old(cs).wire_values()[b_wire as int] < 2,
        old(cs).constraint_count() + 1 <= u64::MAX,
    ensures
        ({
            let x = old(cs).wire_values()[a_wire as int] as nat;
            let y = old(cs).wire_values()[b_wire as int] as nat;
            let v = bool_or_sem(x, y);
            gadget_ok(*old(cs), *final(cs), w, v, 1) && v < 2
        }),
{
    let x = cs.wire_value(a_wire);
    let y = cs.wire_value(b_wire);
    proof {
        lemma2_to64();
    }
    let v: u64 = if x == 1 || y == 1 {
        1
    } else {
        0
    };
    let wire = cs.allocate_witness(v);
    cs.add_constraint();
    wire
}

/// Boolean exclusive-or gadget.
pub fn boolean_xor(cs: &mut ConstraintSystem, a_wire: usize, b_wire: usize) -> (w: usize)
    requires
        a_wire < old(cs).wire_values().len(),
        b_wire < old(cs).wire_values().len(),
        old(cs).wire_values()[a_wire as int] < 2,
        old(cs).wire_values()[b_wire as int] < 2,
        old(cs).constraint_count() + 1 <= u64::MAX,
    ensures
        ({
            let x = old(cs).wire_values()[a_wire as int] as nat;
            let y = old(cs).wire_values()[b_wire as int] as nat;
            let v = bool_xor_sem(x, y);
            gadget_ok(*old(cs), *final(cs), w, v, 1) && v < 2
        }),
{
    let x = cs.wire_value(a_wire);
    let y = cs.wire_value(b_wire);
    proof {
        lemma2_to64();
    }
    let v: u64 = if (x == 1) != (y == 1) {
        1
    } else {
        0
    };
    let wire = cs.allocate_witness(v);
    cs.add_constraint();
    wire
}

} // verus!
