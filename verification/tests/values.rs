use arith_enforce::cs::{ConstraintSystem, OverflowPolicy};
use arith_enforce::error::ExpressionError;
use arith_enforce::gadgets::{boolean_and, boolean_or, boolean_xor};
use arith_enforce::resolve::resolve;
use arith_enforce::span::Span;
use arith_enforce::value::Value;

fn wrap_cs() -> ConstraintSystem {
    ConstraintSystem::new(97, 101, OverflowPolicy::Wrap)
}

fn sp() -> Span {
    Span::new(1, 2)
}

#[test]
fn display_forms() {
    let mut cs = wrap_cs();
    let i = Value::new_integer(&mut cs, 8, false, 42);
    assert_eq!(i.to_display(&cs), "42");
    let n = Value::new_integer(&mut cs, 8, true, 253);
    assert_eq!(n.to_display(&cs), "-3");
    let f = Value::new_field(&mut cs, 90);
    assert_eq!(f.to_display(&cs), "90");
    let g = Value::new_group(&mut cs, 0);
    assert_eq!(g.to_display(&cs), "0");
    let t = Value::new_boolean(&mut cs, true);
    assert_eq!(t.to_display(&cs), "true");
    let u = Value::new_boolean(&mut cs, false);
    assert_eq!(u.to_display(&cs), "false");
    let lit = Value::new_unresolved(String::from("1234567890123456789012"));
    assert_eq!(lit.to_display(&cs), "1234567890123456789012");
}

#[test]
fn display_array() {
    let mut cs = wrap_cs();
    let a = Value::new_integer(&mut cs, 8, false, 1);
    let b = Value::new_integer(&mut cs, 8, false, 2);
    let c = Value::new_integer(&mut cs, 8, false, 3);
    let arr = Value::Array {
        elements: vec![a, b, c],
    };
    assert_eq!(arr.to_display(&cs), "[1, 2, 3]");
    let empty = Value::Array { elements: vec![] };
    assert_eq!(empty.to_display(&cs), "[]");
}

#[test]
fn resolution_is_idempotent_in_value() {
    let mut cs = wrap_cs();
    let sibling = Value::new_integer(&mut cs, 16, false, 9);
    let r1 = resolve(&mut cs, "1000", &sibling, sp()).unwrap();
    let r2 = resolve(&mut cs, "1000", &sibling, sp()).unwrap();
    match (r1, r2) {
        (
            Value::Integer {
                width: w1,
                signed: s1,
                wire: a,
            },
            Value::Integer {
                width: w2,
                signed: s2,
                wire: b,
            },
        ) => {
            assert_eq!((w1, s1), (16, false));
            assert_eq!((w2, s2), (16, false));
            assert_ne!(a, b); // wires differ
            assert_eq!(cs.wire_value(a), cs.wire_value(b)); // numbers agree
            assert_eq!(cs.wire_value(a), 1000);
        }
        _ => panic!("expected integer resolutions"),
    }
}

#[test]
fn resolution_against_field_reduces_modulo_p() {
    let mut cs = wrap_cs();
    let sibling = Value::new_field(&mut cs, 1);
    match resolve(&mut cs, "100", &sibling, sp()).unwrap() {
        Value::Field { wire } => assert_eq!(cs.wire_value(wire), 3),
        _ => panic!("expected a field value"),
    }
    let sibling = Value::new_field(&mut cs, 1);
    match resolve(&mut cs, "-1", &sibling, sp()).unwrap() {
        Value::Field { wire } => assert_eq!(cs.wire_value(wire), 96),
        _ => panic!("expected a field value"),
    }
}

#[test]
fn resolution_against_group_reduces_modulo_order() {
    let mut cs = wrap_cs();
    let sibling = Value::new_group(&mut cs, 1);
    match resolve(&mut cs, "102", &sibling, sp()).unwrap() {
        Value::Group { wire } => assert_eq!(cs.wire_value(wire), 1),
        _ => panic!("expected a group value"),
    }
}

#[test]
fn resolution_against_boolean_keywords() {
    let mut cs = wrap_cs();
    let sibling = Value::new_boolean(&mut cs, false);
    match resolve(&mut cs, "true", &sibling, sp()).unwrap() {
        Value::Boolean { wire } => assert_eq!(cs.wire_value(wire), 1),
        _ => panic!("expected a boolean value"),
    }
    let sibling = Value::new_boolean(&mut cs, false);
    match resolve(&mut cs, "false", &sibling, sp()).unwrap() {
        Value::Boolean { wire } => assert_eq!(cs.wire_value(wire), 0),
        _ => panic!("expected a boolean value"),
    }
    let sibling = Value::new_boolean(&mut cs, false);
    assert!(matches!(
        resolve(&mut cs, "1", &sibling, sp()),
        Err(ExpressionError::LiteralParse { .. })
    ));
}

#[test]
fn resolution_against_array_fails() {
    let mut cs = wrap_cs();
    let e = Value::new_integer(&mut cs, 8, false, 1);
    let sibling = Value::Array { elements: vec![e] };
    assert!(matches!(
        resolve(&mut cs, "3", &sibling, sp()),
        Err(ExpressionError::LiteralParse { .. })
    ));
}

#[test]
fn resolution_rejects_empty_and_lone_minus() {
    let mut cs = wrap_cs();
    let sibling = Value::new_integer(&mut cs, 8, false, 1);
    assert!(matches!(
        resolve(&mut cs, "", &sibling, sp()),
        Err(ExpressionError::LiteralParse { .. })
    ));
    let sibling = Value::new_integer(&mut cs, 8, true, 1);
    assert!(matches!(
        resolve(&mut cs, "-", &sibling, sp()),
        Err(ExpressionError::LiteralParse { .. })
    ));
}

#[test]
fn resolution_failure_leaves_constraint_system_untouched() {
    let mut cs = wrap_cs();
    let sibling = Value::new_integer(&mut cs, 8, false, 1);
    let wires = cs.num_wires();
    let constraints = cs.num_constraints();
    assert!(resolve(&mut cs, "999", &sibling, sp()).is_err());
    assert_eq!(cs.num_wires(), wires);
    assert_eq!(cs.num_constraints(), constraints);
}

#[test]
fn boolean_gadgets() {
    let mut cs = wrap_cs();
    let (ta, tb) = match (
        Value::new_boolean(&mut cs, true),
        Value::new_boolean(&mut cs, false),
    ) {
        (Value::Boolean { wire: a }, Value::Boolean { wire: b }) => (a, b),
        _ => unreachable!(),
    };
    let w = boolean_and(&mut cs, ta, tb);
    assert_eq!(cs.wire_value(w), 0);
    let w = boolean_or(&mut cs, ta, tb);
    assert_eq!(cs.wire_value(w), 1);
    let w = boolean_xor(&mut cs, ta, tb);
    assert_eq!(cs.wire_value(w), 1);
    let w = boolean_xor(&mut cs, ta, ta);
    assert_eq!(cs.wire_value(w), 0);
}

#[test]
fn constraint_system_bookkeeping() {
    let mut cs = wrap_cs();
    assert_eq!(cs.num_wires(), 0);
    assert_eq!(cs.num_constraints(), 0);
    assert_eq!(cs.field_modulus_value(), 97);
    assert_eq!(cs.group_order_value(), 101);
    assert_eq!(cs.overflow_policy(), OverflowPolicy::Wrap);
    let w = cs.allocate_witness(5);
    assert_eq!(w, 0);
    assert_eq!(cs.wire_value(0), 5);
    cs.add_constraint();
    assert_eq!(cs.num_constraints(), 1);
    assert_eq!(cs.num_wires(), 1);
}

#[test]
fn error_accessors() {
    let e = ExpressionError::division_by_zero(Span::new(4, 9));
    assert_eq!(e.span_of(), Span::new(4, 9));
    assert_eq!(e.message_of().as_str(), "division by zero");
    let e = ExpressionError::overflow(Span::new(0, 1));
    assert_eq!(e.message_of().as_str(), "arithmetic overflow");
}
