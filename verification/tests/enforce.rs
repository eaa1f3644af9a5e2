use arith_enforce::cs::{ConstraintSystem, OverflowPolicy};
use arith_enforce::enforce::{
    enforce_add, enforce_div, enforce_mod, enforce_mul, enforce_op, enforce_pow, enforce_sub,
    Operator,
};
use arith_enforce::error::ExpressionError;
use arith_enforce::span::Span;
use arith_enforce::value::Value;

fn wrap_cs() -> ConstraintSystem {
    ConstraintSystem::new(97, 101, OverflowPolicy::Wrap)
}

fn sp() -> Span {
    Span::new(3, 7)
}

fn int_result(cs: &ConstraintSystem, r: Result<Value, ExpressionError>) -> (u32, bool, u64) {
    match r {
        Ok(Value::Integer {
            width,
            signed,
            wire,
        }) => (width, signed, cs.wire_value(wire)),
        other => panic!("expected an integer result, got {:?}", other.is_ok()),
    }
}

#[test]
fn pow_8bit_concrete_scenario() {
    let mut cs = wrap_cs();
    let a = Value::new_integer(&mut cs, 8, false, 3);
    let b = Value::new_integer(&mut cs, 8, false, 4);
    let before = cs.num_constraints();
    let r = enforce_pow(&mut cs, a, b, sp());
    let (w, s, v) = int_result(&cs, r);
    assert_eq!((w, s, v), (8, false, 81));
    // square-and-multiply on exponent 4: two squarings, one multiply
    assert_eq!(cs.num_constraints() - before, 3);
}

#[test]
fn pow_resolves_left_literal() {
    let mut cs = wrap_cs();
    let lit = Value::new_unresolved(String::from("2"));
    let e = Value::new_integer(&mut cs, 32, false, 10);
    let r = enforce_pow(&mut cs, lit, e, sp());
    let (w, s, v) = int_result(&cs, r);
    assert_eq!((w, s, v), (32, false, 1024));
}

#[test]
fn pow_boolean_base_rejected() {
    let mut cs = wrap_cs();
    let b = Value::new_boolean(&mut cs, true);
    let e = Value::new_integer(&mut cs, 8, false, 2);
    match enforce_pow(&mut cs, b, e, sp()) {
        Err(ExpressionError::IncompatibleTypes { message, span }) => {
            assert_eq!(message, "true ** 2");
            assert_eq!(span, sp());
        }
        _ => panic!("expected an incompatible-types error"),
    }
}

#[test]
fn division_by_zero_is_distinct() {
    let mut cs = wrap_cs();
    let a = Value::new_integer(&mut cs, 8, false, 7);
    let z = Value::new_integer(&mut cs, 8, false, 0);
    match enforce_div(&mut cs, a, z, sp()) {
        Err(ExpressionError::DivisionByZero { message, span }) => {
            assert_eq!(message, "division by zero");
            assert_eq!(span, sp());
        }
        _ => panic!("expected a division-by-zero error"),
    }
}

#[test]
fn modulus_by_zero_is_distinct() {
    let mut cs = wrap_cs();
    let a = Value::new_integer(&mut cs, 8, true, 7);
    let z = Value::new_integer(&mut cs, 8, true, 0);
    assert!(matches!(
        enforce_mod(&mut cs, a, z, sp()),
        Err(ExpressionError::DivisionByZero { .. })
    ));
}

#[test]
fn integer_boolean_rejected_for_every_operator() {
    let ops = [
        (Operator::Add, "3 + true"),
        (Operator::Sub, "3 - true"),
        (Operator::Mul, "3 * true"),
        (Operator::Div, "3 / true"),
        (Operator::Mod, "3 % true"),
        (Operator::Pow, "3 ** true"),
    ];
    for (op, expected) in ops {
        let mut cs = wrap_cs();
        let a = Value::new_integer(&mut cs, 8, false, 3);
        let b = Value::new_boolean(&mut cs, true);
        match enforce_op(&mut cs, op, a, b, sp()) {
            Err(ExpressionError::IncompatibleTypes { message, .. }) => {
                assert_eq!(message, expected);
            }
            _ => panic!("expected an incompatible-types error"),
        }
    }
}

#[test]
fn same_type_integers_close_under_every_operator() {
    let cases = [
        (Operator::Add, 13u64),
        (Operator::Sub, 7),
        (Operator::Mul, 30),
        (Operator::Div, 3),
        (Operator::Mod, 1),
        (Operator::Pow, 232), // 10^3 mod 256
    ];
    for (op, expected) in cases {
        let mut cs = wrap_cs();
        let a = Value::new_integer(&mut cs, 8, false, 10);
        let b = Value::new_integer(&mut cs, 8, false, 3);
        let r = enforce_op(&mut cs, op, a, b, sp());
        let (w, s, v) = int_result(&cs, r);
        assert_eq!((w, s), (8, false));
        assert_eq!(v, expected);
    }
}

#[test]
fn wrap_pow_reduces_modulo_width() {
    let mut cs = wrap_cs();
    let a = Value::new_integer(&mut cs, 8, false, 200);
    let b = Value::new_integer(&mut cs, 8, false, 2);
    let r = enforce_pow(&mut cs, a, b, sp());
    let (_, _, v) = int_result(&cs, r);
    assert_eq!(v, 40000 % 256);
}

#[test]
fn resolution_is_side_symmetric_for_addition() {
    let mut cs = wrap_cs();
    let a = Value::new_integer(&mut cs, 8, false, 2);
    let r1 = enforce_add(&mut cs, Value::new_unresolved(String::from("5")), a, sp());
    let (_, _, v1) = int_result(&cs, r1);

    let b = Value::new_integer(&mut cs, 8, false, 2);
    let r2 = enforce_add(&mut cs, b, Value::new_unresolved(String::from("5")), sp());
    let (_, _, v2) = int_result(&cs, r2);
    assert_eq!(v1, 7);
    assert_eq!(v1, v2);
}

#[test]
fn both_unresolved_is_ambiguous() {
    let mut cs = wrap_cs();
    let l = Value::new_unresolved(String::from("2"));
    let r = Value::new_unresolved(String::from("3"));
    match enforce_pow(&mut cs, l, r, sp()) {
        Err(ExpressionError::IncompatibleTypes { message, .. }) => {
            assert_eq!(message, "2 ** 3");
        }
        _ => panic!("expected an incompatible-types error"),
    }
}

#[test]
fn checked_policy_reports_overflow() {
    let mut cs = ConstraintSystem::new(97, 101, OverflowPolicy::Checked);
    let a = Value::new_integer(&mut cs, 8, false, 200);
    let b = Value::new_integer(&mut cs, 8, false, 100);
    match enforce_add(&mut cs, a, b, sp()) {
        Err(ExpressionError::Overflow { message, .. }) => {
            assert_eq!(message, "arithmetic overflow");
        }
        _ => panic!("expected an overflow error"),
    }
    let c = Value::new_integer(&mut cs, 8, false, 3);
    let d = Value::new_integer(&mut cs, 8, false, 4);
    let r = enforce_add(&mut cs, c, d, sp());
    let (_, _, v) = int_result(&cs, r);
    assert_eq!(v, 7);
}

#[test]
fn checked_pow_reports_overflow() {
    let mut cs = ConstraintSystem::new(97, 101, OverflowPolicy::Checked);
    let a = Value::new_integer(&mut cs, 8, false, 2);
    let b = Value::new_integer(&mut cs, 8, false, 8);
    assert!(matches!(
        enforce_pow(&mut cs, a, b, sp()),
        Err(ExpressionError::Overflow { .. })
    ));
    let c = Value::new_integer(&mut cs, 8, false, 2);
    let d = Value::new_integer(&mut cs, 8, false, 7);
    let r = enforce_pow(&mut cs, c, d, sp());
    let (_, _, v) = int_result(&cs, r);
    assert_eq!(v, 128);
}

#[test]
fn constrained_policy_wraps_and_adds_a_constraint() {
    let mut wrapping = wrap_cs();
    let a = Value::new_integer(&mut wrapping, 8, false, 200);
    let b = Value::new_integer(&mut wrapping, 8, false, 100);
    let before = wrapping.num_constraints();
    let r = enforce_add(&mut wrapping, a, b, sp());
    let (_, _, v) = int_result(&wrapping, r);
    assert_eq!(v, 44);
    let wrap_delta = wrapping.num_constraints() - before;

    let mut cs = ConstraintSystem::new(97, 101, OverflowPolicy::Constrained);
    let a = Value::new_integer(&mut cs, 8, false, 200);
    let b = Value::new_integer(&mut cs, 8, false, 100);
    let before = cs.num_constraints();
    let r = enforce_add(&mut cs, a, b, sp());
    let (_, _, v) = int_result(&cs, r);
    assert_eq!(v, 44); // same witness value
    assert_eq!(cs.num_constraints() - before, wrap_delta + 1);
}

#[test]
fn unsigned_subtraction_wraps() {
    let mut cs = wrap_cs();
    let a = Value::new_integer(&mut cs, 8, false, 3);
    let b = Value::new_integer(&mut cs, 8, false, 5);
    let r = enforce_sub(&mut cs, a, b, sp());
    let (_, _, v) = int_result(&cs, r);
    assert_eq!(v, 254);
}

#[test]
fn signed_arithmetic_wraps_in_twos_complement() {
    let mut cs = wrap_cs();
    // bits 253 read as -3 in signed 8-bit
    let a = Value::new_integer(&mut cs, 8, true, 253);
    let b = Value::new_integer(&mut cs, 8, true, 2);
    let r = enforce_add(&mut cs, a, b, sp());
    let (_, _, v) = int_result(&cs, r);
    assert_eq!(v, 255); // -1
}

#[test]
fn signed_division_truncates_toward_zero() {
    let mut cs = wrap_cs();
    // -7 / 2 == -3 (truncated), encoded as 253
    let a = Value::new_integer(&mut cs, 8, true, 249);
    let b = Value::new_integer(&mut cs, 8, true, 2);
    let r = enforce_div(&mut cs, a, b, sp());
    let (_, _, v) = int_result(&cs, r);
    assert_eq!(v, 253);
    // -7 % 2 == -1, encoded as 255
    let c = Value::new_integer(&mut cs, 8, true, 249);
    let d = Value::new_integer(&mut cs, 8, true, 2);
    let r = enforce_mod(&mut cs, c, d, sp());
    let (_, _, v) = int_result(&cs, r);
    assert_eq!(v, 255);
}

#[test]
fn mismatched_widths_are_incompatible() {
    let mut cs = wrap_cs();
    let a = Value::new_integer(&mut cs, 8, false, 3);
    let b = Value::new_integer(&mut cs, 16, false, 4);
    assert!(matches!(
        enforce_add(&mut cs, a, b, sp()),
        Err(ExpressionError::IncompatibleTypes { .. })
    ));
}

#[test]
fn field_operations() {
    let mut cs = wrap_cs();
    let a = Value::new_field(&mut cs, 50);
    let b = Value::new_field(&mut cs, 60);
    match enforce_add(&mut cs, a, b, sp()) {
        Ok(Value::Field { wire }) => assert_eq!(cs.wire_value(wire), 13),
        _ => panic!("expected a field result"),
    }
    let a = Value::new_field(&mut cs, 50);
    let b = Value::new_field(&mut cs, 60);
    match enforce_sub(&mut cs, a, b, sp()) {
        Ok(Value::Field { wire }) => assert_eq!(cs.wire_value(wire), 87),
        _ => panic!("expected a field result"),
    }
    let a = Value::new_field(&mut cs, 50);
    let b = Value::new_field(&mut cs, 60);
    match enforce_mul(&mut cs, a, b, sp()) {
        Ok(Value::Field { wire }) => assert_eq!(cs.wire_value(wire), 3000 % 97),
        _ => panic!("expected a field result"),
    }
}

#[test]
fn field_pow_by_integer_exponent() {
    let mut cs = wrap_cs();
    let a = Value::new_field(&mut cs, 2);
    let e = Value::new_integer(&mut cs, 32, false, 10);
    match enforce_pow(&mut cs, a, e, sp()) {
        Ok(Value::Field { wire }) => assert_eq!(cs.wire_value(wire), 1024 % 97),
        _ => panic!("expected a field result"),
    }
}

#[test]
fn field_division_is_unsupported() {
    let mut cs = wrap_cs();
    let a = Value::new_field(&mut cs, 50);
    let b = Value::new_field(&mut cs, 60);
    match enforce_div(&mut cs, a, b, sp()) {
        Err(ExpressionError::IncompatibleTypes { message, .. }) => {
            assert_eq!(message, "50 / 60");
        }
        _ => panic!("expected an incompatible-types error"),
    }
}

#[test]
fn group_operations() {
    let mut cs = wrap_cs();
    let a = Value::new_group(&mut cs, 40);
    let b = Value::new_group(&mut cs, 70);
    match enforce_add(&mut cs, a, b, sp()) {
        Ok(Value::Group { wire }) => assert_eq!(cs.wire_value(wire), 9),
        _ => panic!("expected a group result"),
    }
    let g = Value::new_group(&mut cs, 5);
    let e = Value::new_integer(&mut cs, 32, false, 20);
    match enforce_pow(&mut cs, g, e, sp()) {
        Ok(Value::Group { wire }) => assert_eq!(cs.wire_value(wire), 100),
        _ => panic!("expected a group result"),
    }
}

#[test]
fn pow_constraint_count_follows_bit_length() {
    let mut cs = wrap_cs();
    let a = Value::new_integer(&mut cs, 8, false, 1);
    let e = Value::new_integer(&mut cs, 32, false, 2);
    let before = cs.num_constraints();
    enforce_pow(&mut cs, a, e, sp()).unwrap();
    let small = cs.num_constraints() - before;

    let a = Value::new_integer(&mut cs, 8, false, 1);
    let e = Value::new_integer(&mut cs, 32, false, 1_000_000);
    let before = cs.num_constraints();
    enforce_pow(&mut cs, a, e, sp()).unwrap();
    let large = cs.num_constraints() - before;

    // exponent grew by a factor of half a million; constraints by a small
    // constant factor of the bit length
    assert!(small >= 1);
    assert!(large <= 2 * 20 + 2);
}

#[test]
fn unresolved_literal_out_of_range_fails_to_parse() {
    let mut cs = wrap_cs();
    let a = Value::new_integer(&mut cs, 8, false, 1);
    let lit = Value::new_unresolved(String::from("300"));
    match enforce_add(&mut cs, lit, a, sp()) {
        Err(ExpressionError::LiteralParse { message, .. }) => {
            assert_eq!(message, "300: invalid literal for the operand type");
        }
        _ => panic!("expected a literal-parse error"),
    }
}

#[test]
fn unresolved_literal_bad_text_fails_to_parse() {
    let mut cs = wrap_cs();
    let a = Value::new_integer(&mut cs, 8, false, 1);
    let lit = Value::new_unresolved(String::from("12a"));
    assert!(matches!(
        enforce_add(&mut cs, lit, a, sp()),
        Err(ExpressionError::LiteralParse { .. })
    ));
}

#[test]
fn negative_literal_resolves_against_signed_sibling() {
    let mut cs = wrap_cs();
    let a = Value::new_integer(&mut cs, 8, true, 2);
    let lit = Value::new_unresolved(String::from("-5"));
    let r = enforce_add(&mut cs, lit, a, sp());
    let (_, signed, v) = int_result(&cs, r);
    assert!(signed);
    assert_eq!(v, 253); // -3
}

#[test]
fn negative_literal_rejected_by_unsigned_sibling() {
    let mut cs = wrap_cs();
    let a = Value::new_integer(&mut cs, 8, false, 2);
    let lit = Value::new_unresolved(String::from("-5"));
    assert!(matches!(
        enforce_add(&mut cs, lit, a, sp()),
        Err(ExpressionError::LiteralParse { .. })
    ));
}

#[test]
fn width_64_wrapping_multiplication() {
    let mut cs = wrap_cs();
    let a = Value::new_integer(&mut cs, 64, false, u64::MAX);
    let b = Value::new_integer(&mut cs, 64, false, 2);
    let r = enforce_mul(&mut cs, a, b, sp());
    let (_, _, v) = int_result(&cs, r);
    assert_eq!(v, u64::MAX - 1);
}
