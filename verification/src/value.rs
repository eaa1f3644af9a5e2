//! The value model: a closed set of tagged variants flowing through every
//! operator. Concrete variants carry a wire already allocated in the
//! constraint system; `Unresolved` carries the text of a numeric literal
//! whose type a sibling operand fixes later.

use vstd::prelude::*;

verus! {

use crate::arith::{as_int, iabs, in_width, lemma_as_int_bounds, magnitude_exec, is_negative_exec};
use crate::cs::ConstraintSystem;
use vstd::string::{StrSliceExecFns, StringExecFns};

/// A value of the language, as the enforcement engine sees it.
pub enum Value {
    /// A fixed-width integer wired into the constraint system.
    Integer { width: u32, signed: bool, wire: usize },
    /// A native prime-field element.
    Field { wire: usize },
    /// An element of the cyclic group over the same field.
    Group { wire: usize },
    /// A boolean wire (0 or 1).
    Boolean { wire: usize },
    /// A homogeneous aggregate: every element has one concrete type.
    Array { elements: Vec<Value> },
    /// A numeric literal whose target type is not yet fixed. A successful
    /// enforcement call never returns it.
    Unresolved { text: String },
}

impl Value {
    /// Everything but an unresolved literal is concrete.
    pub open spec fn is_concrete(self) -> bool {
        !(self matches Value::Unresolved { .. })
    }

    /// Two values carry the same concrete type.
    pub open spec fn same_type(self, other: Value) -> bool
        decreases self,
    {
        match (self, other) {
            (
                Value::Integer { width: w1, signed: s1, .. },
                Value::Integer { width: w2, signed: s2, .. },
            ) => w1 == w2 && s1 == s2,
            (Value::Field { .. }, Value::Field { .. }) => true,
            (Value::Group { .. }, Value::Group { .. }) => true,
            (Value::Boolean { .. }, Value::Boolean { .. }) => true,
            (Value::Array { elements: e1 }, Value::Array { elements: e2 }) => e1@.len()
                == e2@.len() && (forall|i: int|
                0 <= i < e1@.len() ==> (#[trigger] e1@[i]).same_type(e2@[i])),
            _ => false,
        }
    }

    /// Well-formedness against a constraint system: each wire is allocated
    /// and its assigned value lies in the variant's range; array elements
    /// are concrete, valid and of one type.
    pub open spec fn valid(self, cs: ConstraintSystem) -> bool
        decreases self,
    {
        match self {
            Value::Integer { width, signed, wire } => {
                &&& 1 <= width <= 64
                &&& wire < cs.wire_values().len()
                &&& in_width(cs.wire_values()[wire as int] as nat, width as nat)
            },
            Value::Field { wire } => wire < cs.wire_values().len() && cs.wire_values()[wire as int]
                < cs.field_modulus(),
            Value::Group { wire } => wire < cs.wire_values().len() && cs.wire_values()[wire as int]
                < cs.group_order(),
            Value::Boolean { wire } => wire < cs.wire_values().len() && cs.wire_values()[wire as int]
                < 2,
            Value::Array { elements } => {
                &&& (forall|i: int|
                    0 <= i < elements@.len() ==> (#[trigger] elements@[i]).valid(cs))
                &&& (forall|i: int|
                    0 <= i < elements@.len() ==> (#[trigger] elements@[i]).is_concrete())
                &&& (forall|i: int|
                    0 <= i < elements@.len() ==> (#[trigger] elements@[i]).same_type(
                        elements@[0],
                    ))
            },
            Value::Unresolved { .. } => true,
        }
    }
}

/// A value that is the integer of the given width, signedness and bit
/// pattern under `cs`.
pub open spec fn is_int_value(v: Value, cs: ConstraintSystem, w: u32, s: bool, bits: nat) -> bool {
    v matches Value::Integer { width, signed, wire } && width == w && signed == s && wire
        < cs.wire_values().len() && cs.wire_values()[wire as int] as nat == bits
}

/// A value that is the field element `x` under `cs`.
pub open spec fn is_field_value(v: Value, cs: ConstraintSystem, x: nat) -> bool {
    v matches Value::Field { wire } && wire < cs.wire_values().len() && cs.wire_values()[wire as int]
        as nat == x
}

/// A value that is the group element `x` under `cs`.
pub open spec fn is_group_value(v: Value, cs: ConstraintSystem, x: nat) -> bool {
    v matches Value::Group { wire } && wire < cs.wire_values().len() && cs.wire_values()[wire as int]
        as nat == x
}

/// A value that is the boolean `b` under `cs`.
pub open spec fn is_bool_value(v: Value, cs: ConstraintSystem, b: bool) -> bool {
    v matches Value::Boolean { wire } && wire < cs.wire_values().len()
        && cs.wire_values()[wire as int] as nat == (if b {
        1nat
    } else {
        0nat
    })
}

/// The decimal character of one digit.
pub open spec fn dec_digit(d: nat) -> char {
    if d == 0 {
        '0'
    } else if d == 1 {
        '1'
    } else if d == 2 {
        '2'
    } else if d == 3 {
        '3'
    } else if d == 4 {
        '4'
    } else if d == 5 {
        '5'
    } else if d == 6 {
        '6'
    } else if d == 7 {
        '7'
    } else if d == 8 {
        '8'
    } else {
        '9'
    }
}

/// The decimal rendering of a natural number, without leading zeros (except
/// for zero itself).
pub open spec fn dec_str(n: nat) -> Seq<char>
    decreases n,
{
    if n < 10 {
        seq![dec_digit(n)]
    } else {
        dec_str(n / 10).push(dec_digit(n % 10))
    }
}

/// The decimal rendering of an integer, with a leading minus sign when
/// negative.
pub open spec fn int_str(i: int) -> Seq<char> {
    if i < 0 {
        seq!['-'] + dec_str(iabs(i))
    } else {
        dec_str(i as nat)
    }
}

impl Value {
    /// The display form of a value: integers and field/group elements in
    /// decimal, booleans as `true`/`false`, arrays bracketed and
    /// comma-separated, an unresolved literal as its own text. Error
    /// messages embed this form.
    pub open spec fn render(self, cs: ConstraintSystem) -> Seq<char>
        decreases self,
    {
        match self {
            Value::Integer { width, signed, wire } => int_str(
                as_int(cs.wire_values()[wire as int] as nat, width as nat, signed),
            ),
            Value::Field { wire } => dec_str(cs.wire_values()[wire as int] as nat),
            Value::Group { wire } => dec_str(cs.wire_values()[wire as int] as nat),
            Value::Boolean { wire } => if cs.wire_values()[wire as int] == 1 {
                "true"@
            } else {
                "false"@
            },
            Value::Array { elements } => seq!['['] + render_items(elements@, cs) + seq![']'],
            Value::Unresolved { text } => text@,
        }
    }
}

/// The display form of a list of values, comma-separated.
pub open spec fn render_items(elems: Seq<Value>, cs: ConstraintSystem) -> Seq<char>
    decreases elems,
{
    if elems.len() == 0 {
        Seq::empty()
    } else if elems.len() == 1 {
        elems[0].render(cs)
    } else {
        elems[0].render(cs) + ", "@ + render_items(elems.drop_first(), cs)
    }
}

/// Validity survives growing the constraint system: enforcement only
/// appends wires, so earlier values stay well-formed.
pub proof fn lemma_valid_extended(v: Value, a: ConstraintSystem, b: ConstraintSystem)
    requires
        v.valid(a),
        a.extended_by(b),
    ensures
        v.valid(b),
    decreases v,
{
    assert forall|i: int| 0 <= i < a.wire_values().len() implies a.wire_values()[i]
        == b.wire_values()[i] by {
        assert(a.wire_values() =~= b.wire_values().subrange(0, a.wire_values().len() as int));
    }
    match v {
        Value::Array { elements } => {
            assert forall|i: int| 0 <= i < elements@.len() implies (#[trigger] elements@[i]).valid(
                b,
            ) by {
                assert(elements@[i].valid(a));
                lemma_valid_extended(elements@[i], a, b);
            }
        },
        _ => {},
    }
}

fn digit_str(d: u64) -> (s: &'static str)
    requires
        d < 10,
    ensures
        s@ == seq![dec_digit(d as nat)],
{
    proof {
        reveal_strlit("0");
        reveal_strlit("1");
        reveal_strlit("2");
        reveal_strlit("3");
        reveal_strlit("4");
        reveal_strlit("5");
        reveal_strlit("6");
        reveal_strlit("7");
        reveal_strlit("8");
        reveal_strlit("9");
    }
    let s: &'static str = if d == 0 {
        "0"
    } else if d == 1 {
        "1"
    } else if d == 2 {
        "2"
    } else if d == 3 {
        "3"
    } else if d == 4 {
        "4"
    } else if d == 5 {
        "5"
    } else if d == 6 {
        "6"
    } else if d == 7 {
        "7"
    } else if d == 8 {
        "8"
    } else {
        "9"
    };
    proof {
        assert(s@ =~= seq![dec_digit(d as nat)]);
    }
    s
}

/// Appends the decimal rendering of `n`.
pub fn push_dec(out: &mut String, n: u64)
    ensures
        final(out)@ == old(out)@ + dec_str(n as nat),
    decreases n,
{
    if n >= 10 {
        push_dec(out, n / 10);
    }
    let s = digit_str(n % 10);
    out.append(s);
    proof {
        assert(out@ =~= old(out)@ + dec_str(n as nat));
    }
}

impl Value {
    /// Renders the value for diagnostics, exactly as `render` declares.
    pub fn to_display(&self, cs: &ConstraintSystem) -> (s: String)
        requires
            self.valid(*cs),
        ensures
            s@ == self.render(*cs),
        decreases *self, 0nat,
    {
        match self {
            Value::Integer { width, signed, wire } => {
                let bits = cs.wire_value(*wire);
                let neg = is_negative_exec(bits, *width, *signed);
                let mg = magnitude_exec(bits, *width, *signed);
                proof {
                    lemma_as_int_bounds(bits as nat, *width as nat, *signed);
                }
                let mut out = String::new();
                if neg {
                    out.append("-");
                }
                push_dec(&mut out, mg);
                proof {
                    reveal_strlit("-");
                    assert(out@ =~= self.render(*cs));
                }
                out
            },
            Value::Field { wire } => {
                let mut out = String::new();
                push_dec(&mut out, cs.wire_value(*wire));
                proof {
                    assert(out@ =~= self.render(*cs));
                }
                out
            },
            Value::Group { wire } => {
                let mut out = String::new();
                push_dec(&mut out, cs.wire_value(*wire));
                proof {
                    assert(out@ =~= self.render(*cs));
                }
                out
            },
            Value::Boolean { wire } => {
                if cs.wire_value(*wire) == 1 {
                    String::from_str("true")
                } else {
                    String::from_str("false")
                }
            },
            Value::Array { elements } => {
                let mut out = String::from_str("[");
                let items = render_slice(elements, 0, cs);
                out.append(items.as_str());
                out.append("]");
                proof {
                    reveal_strlit("[");
                    reveal_strlit("]");
                    assert(elements@.subrange(0, elements@.len() as int) =~= elements@);
                    assert(out@ =~= self.render(*cs));
                }
                out
            },
            Value::Unresolved { text } => text.clone(),
        }
    }
}

/// Renders the elements of `elements` from `start` on, comma-separated.
fn render_slice(elements: &Vec<Value>, start: usize, cs: &ConstraintSystem) -> (s: String)
    requires
        start <= elements@.len(),
        forall|i: int| 0 <= i < elements@.len() ==> (#[trigger] elements@[i]).valid(*cs),
    ensures
        s@ == render_items(elements@.subrange(start as int, elements@.len() as int), *cs),
    decreases elements@, (elements@.len() - start) as nat,
{
    let ghost whole = elements@.subrange(start as int, elements@.len() as int);
    if start >= elements.len() {
        proof {
            assert(whole =~= Seq::<Value>::empty());
        }
        String::new()
    } else {
        let head = elements[start].to_display(cs);
        if start + 1 == elements.len() {
            proof {
                assert(whole.len() == 1 && whole[0] == elements@[start as int]);
            }
            head
        } else {
            let mut out = head;
            out.append(", ");
            let rest = render_slice(elements, start + 1, cs);
            out.append(rest.as_str());
            proof {
                reveal_strlit(", ");
                assert(whole.drop_first() =~= elements@.subrange(
                    start + 1,
                    elements@.len() as int,
                ));
                assert(out@ =~= render_items(whole, *cs));
            }
            out
        }
    }
}

impl Value {
    /// Allocates a fresh integer of the given width, signedness and bit
    /// pattern.
    pub fn new_integer(cs: &mut ConstraintSystem, width: u32, signed: bool, bits: u64) -> (v:
        Value)
        requires
            1 <= width <= 64,
            in_width(bits as nat, width as nat),
        ensures
            v.valid(*final(cs)),
            crate::value::is_int_value(v, *final(cs), width, signed, bits as nat),
            final(cs).wire_values() == old(cs).wire_values().push(bits),
            final(cs).constraint_count() == old(cs).constraint_count(),
            old(cs).extended_by(*final(cs)),
    {
        let wire = cs.allocate_witness(bits);
        Value::Integer { width, signed, wire }
    }

    /// Allocates a fresh field element.
    pub fn new_field(cs: &mut ConstraintSystem, x: u64) -> (v: Value)
        requires
            x < old(cs).field_modulus(),
        ensures
            v.valid(*final(cs)),
            crate::value::is_field_value(v, *final(cs), x as nat),
            final(cs).wire_values() == old(cs).wire_values().push(x),
            final(cs).constraint_count() == old(cs).constraint_count(),
            old(cs).extended_by(*final(cs)),
    {
        let wire = cs.allocate_witness(x);
        Value::Field { wire }
    }

    /// Allocates a fresh group element.
    pub fn new_group(cs: &mut ConstraintSystem, x: u64) -> (v: Value)
        requires
            x < old(cs).group_order(),
        ensures
            v.valid(*final(cs)),
            crate::value::is_group_value(v, *final(cs), x as nat),
            final(cs).wire_values() == old(cs).wire_values().push(x),
            final(cs).constraint_count() == old(cs).constraint_count(),
            old(cs).extended_by(*final(cs)),
    {
        let wire = cs.allocate_witness(x);
        Value::Group { wire }
    }

    /// Allocates a fresh boolean.
    pub fn new_boolean(cs: &mut ConstraintSystem, b: bool) -> (v: Value)
        ensures
            v.valid(*final(cs)),
            crate::value::is_bool_value(v, *final(cs), b),
            final(cs).wire_values() == old(cs).wire_values().push(
                if b {
                    1u64
                } else {
                    0u64
                },
            ),
            final(cs).constraint_count() == old(cs).constraint_count(),
            old(cs).extended_by(*final(cs)),
    {
        let wire = cs.allocate_witness(
            if b {
                1
            } else {
                0
            },
        );
        Value::Boolean { wire }
    }

    /// An unresolved literal carrying its source text.
    pub fn new_unresolved(text: String) -> (v: Value)
        ensures
            v matches Value::Unresolved { text: t } && t == text,
    {
        Value::Unresolved { text }
    }
}

} // verus!
