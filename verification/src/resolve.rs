//! Literal resolution: reinterpreting the text of an unresolved numeric
//! literal under the concrete type of a sibling operand, allocating the
//! resulting value in the constraint system. This is the only way an
//! `Unresolved` value becomes concrete.

use vstd::prelude::*;

verus! {

use crate::arith::{
    encode,
    encode_exec,
    in_range,
    in_range_exec,
    lemma_encode_in_width,
};
use crate::cs::ConstraintSystem;
use crate::error::ExpressionError;
use crate::span::Span;
use crate::value::{
    is_bool_value,
    is_field_value,
    is_group_value,
    is_int_value,
    Value,
};
use vstd::arithmetic::div_mod::{
    lemma_add_mod_noop,
    lemma_fundamental_div_mod,
    lemma_fundamental_div_mod_converse_mod,
    lemma_mod_bound,
    lemma_mul_mod_noop_left,
    lemma_small_mod,
};
use vstd::arithmetic::power2::{lemma2_to64, lemma_pow2_strictly_increases, pow2};
use vstd::string::{StrSliceExecFns, StringExecFns};

/// A decimal digit character.
pub open spec fn is_dec_digit(c: char) -> bool {
    48 <= c as int <= 57
}

/// The numeric value of a digit character.
pub open spec fn digit_val(c: char) -> nat {
    (c as int - 48) as nat
}

/// Every character of `s` is a decimal digit.
pub open spec fn all_digits(s: Seq<char>) -> bool {
    forall|i: int| 0 <= i < s.len() ==> is_dec_digit(#[trigger] s[i])
}

/// The number a digit string denotes.
pub open spec fn dec_val(s: Seq<char>) -> nat
    decreases s.len(),
{
    if s.len() == 0 {
        0
    } else {
        dec_val(s.drop_last()) * 10 + digit_val(s.last())
    }
}

/// The shape of an integer literal: an optional minus sign, then at least
/// one digit.
pub open spec fn is_int_literal(s: Seq<char>) -> bool {
    if s.len() > 0 && s[0] == '-' {
        s.len() > 1 && all_digits(s.skip(1))
    } else {
        s.len() > 0 && all_digits(s)
    }
}

/// The magnitude an integer literal denotes.
pub open spec fn lit_mag(s: Seq<char>) -> nat {
    if s.len() > 0 && s[0] == '-' {
        dec_val(s.skip(1))
    } else {
        dec_val(s)
    }
}

/// The signed number an integer literal denotes.
pub open spec fn lit_val(s: Seq<char>) -> int {
    if s.len() > 0 && s[0] == '-' {
        -(lit_mag(s) as int)
    } else {
        lit_mag(s) as int
    }
}

/// What resolving a literal yields, at the semantic level: the concrete
/// type fixed by the sibling and the represented number. Wire identity is
/// deliberately absent, which is what makes resolution idempotent.
pub enum Resolved {
    RInt { width: u32, signed: bool, bits: nat },
    RField { value: nat },
    RGroup { value: nat },
    RBool { value: bool },
}

/// The result of resolving `text` against the concrete type of `sibling`,
/// under field modulus `p` and group order `n`; `None` when the text is not
/// representable in that type.
pub open spec fn resolution(text: Seq<char>, sibling: Value, p: nat, n: nat) -> Option<Resolved> {
    match sibling {
        Value::Integer { width, signed, .. } => if is_int_literal(text) && in_range(
            lit_val(text),
            width as nat,
            signed,
        ) {
            Some(
                Resolved::RInt {
                    width,
                    signed,
                    bits: encode(lit_val(text), width as nat),
                },
            )
        } else {
            None
        },
        Value::Field { .. } => if is_int_literal(text) {
            Some(Resolved::RField { value: (lit_val(text) % (p as int)) as nat })
        } else {
            None
        },
        Value::Group { .. } => if is_int_literal(text) {
            Some(Resolved::RGroup { value: (lit_val(text) % (n as int)) as nat })
        } else {
            None
        },
        Value::Boolean { .. } => if text == "true"@ {
            Some(Resolved::RBool { value: true })
        } else if text == "false"@ {
            Some(Resolved::RBool { value: false })
        } else {
            None
        },
        _ => None,
    }
}

/// A freshly resolved value carries exactly the semantic content of the
/// resolution.
pub open spec fn resolved_matches(v: Value, cs: ConstraintSystem, m: Resolved) -> bool {
    match m {
        Resolved::RInt { width, signed, bits } => is_int_value(v, cs, width, signed, bits),
        Resolved::RField { value } => is_field_value(v, cs, value),
        Resolved::RGroup { value } => is_group_value(v, cs, value),
        Resolved::RBool { value } => is_bool_value(v, cs, value),
    }
}

/// The message of a literal-parse failure.
pub open spec fn literal_parse_message(text: Seq<char>) -> Seq<char> {
    text + ": invalid literal for the operand type"@
}

/// A literal-parse error over `text`, reported at `sp`.
pub open spec fn is_literal_parse_err(e: ExpressionError, text: Seq<char>, sp: Span) -> bool {
    e matches ExpressionError::LiteralParse { message, span } && message@ == literal_parse_message(
        text,
    ) && span == sp
}

/// Checks that `s` holds only digits from position `start` on, and at least
/// one.
fn check_digits(s: &str, start: usize) -> (b: bool)
    requires
        start <= s@.len(),
    ensures
        b == (s@.len() > start && all_digits(s@.skip(start as int))),
{
    let len = s.unicode_len();
    if len <= start {
        return false;
    }
    let mut i: usize = start;
    while i < len
        invariant
            start <= i <= len,
            len == s@.len(),
            forall|j: int| start <= j < i ==> is_dec_digit(#[trigger] s@[j]),
        decreases len - i,
    {
        let c = s.get_char(i);
        let cu = c as u32;
        if cu < 48 || cu > 57 {
            proof {
                assert(s@.skip(start as int)[i - start as int] == s@[i as int]);
            }
            return false;
        }
        i = i + 1;
    }
    proof {
        assert forall|k: int| 0 <= k < s@.skip(start as int).len() implies is_dec_digit(
            #[trigger] s@.skip(start as int)[k],
        ) by {
            assert(s@.skip(start as int)[k] == s@[k + start]);
        }
    }
    true
}

/// The exact value of the digit string from `start` on, or `None` when it
/// exceeds `u64::MAX`.
fn dec_value_capped(s: &str, start: usize) -> (v: Option<u64>)
    requires
        start < s@.len(),
        all_digits(s@.skip(start as int)),
    ensures
        match v {
            Some(x) => x as nat == dec_val(s@.skip(start as int)),
            None => dec_val(s@.skip(start as int)) > u64::MAX,
        },
{
    let len = s.unicode_len();
    let mut acc: u128 = 0;
    let mut big: bool = false;
    let mut i: usize = start;
    proof {
        assert(s@.subrange(start as int, start as int) =~= Seq::<char>::empty());
    }
    while i < len
        invariant
            start <= i <= len,
            len == s@.len(),
            all_digits(s@.skip(start as int)),
            !big ==> acc as nat == dec_val(s@.subrange(start as int, i as int)) && acc
                <= u64::MAX,
            big ==> dec_val(s@.subrange(start as int, i as int)) > u64::MAX,
        decreases len - i,
    {
        let c = s.get_char(i);
        proof {
            assert(s@.skip(start as int)[i - start as int] == s@[i as int]);
        }
        let d = (c as u32) - 48;
        let ghost pre = s@.subrange(start as int, i as int);
        let ghost cur = s@.subrange(start as int, i + 1 as int);
        proof {
            assert(cur.drop_last() =~= pre);
            assert(cur.last() == s@[i as int]);
        }
        if big {
            proof {
                assert(dec_val(cur) == dec_val(pre) * 10 + digit_val(s@[i as int]));
                assert(dec_val(pre) * 10 >= dec_val(pre)) by (nonlinear_arith)
                    requires
                        dec_val(pre) >= 0,
                ;
            }
        } else {
            acc = acc * 10 + (d as u128);
            if acc > u64::MAX as u128 {
                big = true;
            }
        }
        i = i + 1;
    }
    proof {
        assert(s@.subrange(start as int, len as int) =~= s@.skip(start as int));
    }
    if big {
        None
    } else {
        Some(acc as u64)
    }
}

/// The value of the digit string from `start` on, reduced modulo `m`.
fn dec_value_mod(s: &str, start: usize, m: u64) -> (v: u64)
    requires
        start < s@.len(),
        all_digits(s@.skip(start as int)),
        m >= 1,
    ensures
        v as nat == dec_val(s@.skip(start as int)) % (m as nat),
        v < m,
{
    let len = s.unicode_len();
    let mut acc: u64 = 0;
    let mut i: usize = start;
    proof {
        assert(s@.subrange(start as int, start as int) =~= Seq::<char>::empty());
        lemma_small_mod(0, m as nat);
    }
    while i < len
        invariant
            start <= i <= len,
            len == s@.len(),
            all_digits(s@.skip(start as int)),
            m >= 1,
            acc as nat == dec_val(s@.subrange(start as int, i as int)) % (m as nat),
            acc < m,
        decreases len - i,
    {
        let c = s.get_char(i);
        proof {
            assert(s@.skip(start as int)[i - start as int] == s@[i as int]);
        }
        let d = ((c as u32) - 48) as u64;
        let ghost pre = s@.subrange(start as int, i as int);
        let ghost cur = s@.subrange(start as int, i + 1 as int);
        proof {
            assert(cur.drop_last() =~= pre);
            assert(cur.last() == s@[i as int]);
            let dv = dec_val(pre) as int;
            let mi = m as int;
            lemma_mul_mod_noop_left(dv, 10, mi);
            lemma_add_mod_noop(dv * 10, digit_val(s@[i as int]) as int, mi);
            lemma_add_mod_noop((dv % mi) * 10, digit_val(s@[i as int]) as int, mi);
            lemma_mod_bound((acc as int * 10 + d) % mi, mi);
        }
        acc = ((acc as u128 * 10 + d as u128) % (m as u128)) as u64;
        i = i + 1;
    }
    proof {
        assert(s@.subrange(start as int, len as int) =~= s@.skip(start as int));
    }
    acc
}

/// The Euclidean remainder of a negated magnitude.
proof fn lemma_neg_mod(x: nat, m: nat)
    requires
        m >= 1,
    ensures
        (-(x as int)) % (m as int) == if x % m == 0 {
            0int
        } else {
            m - (x % m)
        },
{
    let xi = x as int;
    let mi = m as int;
    lemma_fundamental_div_mod(xi, mi);
    lemma_mod_bound(xi, mi);
    let q = xi / mi;
    let r = xi % mi;
    assert((-q) * mi == -(q * mi)) by (nonlinear_arith);
    assert((-q - 1) * mi == -(q * mi) - mi) by (nonlinear_arith);
    if r == 0 {
        lemma_fundamental_div_mod_converse_mod(-xi, mi, -q, 0);
    } else {
        lemma_fundamental_div_mod_converse_mod(-xi, mi, -q - 1, mi - r);
    }
}

/// Compares `s` to the keyword `true`.
fn is_true_literal(s: &str) -> (b: bool)
    ensures
        b == (s@ == "true"@),
{
    proof {
        reveal_strlit("true");
    }
    if s.unicode_len() != 4 {
        return false;
    }
    if s.get_char(0) == 't' && s.get_char(1) == 'r' && s.get_char(2) == 'u' && s.get_char(3)
        == 'e' {
        proof {
            assert(s@ =~= "true"@);
        }
        true
    } else {
        false
    }
}

/// Compares `s` to the keyword `false`.
fn is_false_literal(s: &str) -> (b: bool)
    ensures
        b == (s@ == "false"@),
{
    proof {
        reveal_strlit("false");
    }
    if s.unicode_len() != 5 {
        return false;
    }
    if s.get_char(0) == 'f' && s.get_char(1) == 'a' && s.get_char(2) == 'l' && s.get_char(3) == 's'
        && s.get_char(4) == 'e' {
        proof {
            assert(s@ =~= "false"@);
        }
        true
    } else {
        false
    }
}

fn literal_parse_error(text: &str, span: Span) -> (e: ExpressionError)
    ensures
        is_literal_parse_err(e, text@, span),
{
    let mut message = String::from_str(text);
    message.append(": invalid literal for the operand type");
    ExpressionError::literal_parse(message, span)
}

/// Resolves the text of an unresolved literal against the concrete type of
/// `sibling`, allocating the new value's wire; fails with a literal-parse
/// error exactly when `resolution` is `None`. Given the same text and
/// sibling type it always allocates the same represented number, though
/// wire identities differ.
pub fn resolve(cs: &mut ConstraintSystem, text: &str, sibling: &Value, span: Span) -> (r: Result<
    Value,
    ExpressionError,
>)
    requires
        old(cs).wf(),
        sibling.is_concrete(),
        sibling.valid(*old(cs)),
    ensures
        old(cs).extended_by(*final(cs)),
        final(cs).constraint_count() == old(cs).constraint_count(),
        match resolution(text@, *sibling, old(cs).field_modulus(), old(cs).group_order()) {
            Some(m) => r matches Ok(v) && v.valid(*final(cs)) && v.is_concrete()
                && resolved_matches(v, *final(cs), m) && final(cs).wire_values().len() == old(
                cs,
            ).wire_values().len() + 1,
            None => r matches Err(e) && is_literal_parse_err(e, text@, span) && *final(cs) == *old(
                cs,
            ),
        },
{
    match sibling {
        Value::Integer { width, signed, .. } => {
            let w = *width;
            let sg = *signed;
            let len = s_len(text);
            if len == 0 {
                return Err(literal_parse_error(text, span));
            }
            let neg = text.get_char(0) == '-';
            let digs: usize = if neg {
                1
            } else {
                0
            };
            proof {
                if !neg {
                    assert(s_skip_zero(text@) =~= text@);
                }
            }
            if !check_digits(text, digs) {
                return Err(literal_parse_error(text, span));
            }
            proof {
                assert(is_int_literal(text@));
            }
            match dec_value_capped(text, digs) {
                Option::None => {
                    proof {
                        lemma2_to64();
                        if (w as nat) < 64 {
                            lemma_pow2_strictly_increases(w as nat, 64);
                        }
                        crate::arith::lemma_pow2_split(w as nat);
                    }
                    Err(literal_parse_error(text, span))
                },
                Option::Some(mag) => {
                    let v_i: i128 = if neg {
                        -(mag as i128)
                    } else {
                        mag as i128
                    };
                    proof {
                        assert(v_i == lit_val(text@));
                    }
                    if in_range_exec(v_i, w, sg) {
                        proof {
                            crate::arith::lemma_pow2_split(w as nat);
                        }
                        let bits = encode_exec(v_i, w);
                        proof {
                            lemma_encode_in_width(lit_val(text@), w as nat);
                        }
                        let v = Value::new_integer(cs, w, sg, bits);
                        Ok(v)
                    } else {
                        Err(literal_parse_error(text, span))
                    }
                },
            }
        },
        Value::Field { .. } => {
            let p = cs.field_modulus_value();
            resolve_modular(cs, text, span, p, true)
        },
        Value::Group { .. } => {
            let n = cs.group_order_value();
            resolve_modular(cs, text, span, n, false)
        },
        Value::Boolean { .. } => {
            if is_true_literal(text) {
                Ok(Value::new_boolean(cs, true))
            } else if is_false_literal(text) {
                Ok(Value::new_boolean(cs, false))
            } else {
                Err(literal_parse_error(text, span))
            }
        },
        _ => Err(literal_parse_error(text, span)),
    }
}

/// Length of a string, in characters.
fn s_len(s: &str) -> (n: usize)
    ensures
        n == s@.len(),
{
    s.unicode_len()
}

/// Ghost view of skipping zero characters.
spec fn s_skip_zero(s: Seq<char>) -> Seq<char> {
    s.skip(0)
}

/// Shared resolution path for the two modular types: parses the literal and
/// reduces it modulo `m`, allocating a field element when `as_field` holds
/// and a group element otherwise.
fn resolve_modular(cs: &mut ConstraintSystem, text: &str, span: Span, m: u64, as_field: bool) -> (r:
    Result<Value, ExpressionError>)
    requires
        old(cs).wf(),
        m >= 2,
        as_field ==> m == old(cs).field_modulus(),
        !as_field ==> m == old(cs).group_order(),
    ensures
        old(cs).extended_by(*final(cs)),
        final(cs).constraint_count() == old(cs).constraint_count(),
        if is_int_literal(text@) {
            ({
                let value = (lit_val(text@) % (m as int)) as nat;
                &&& r matches Ok(v)
                &&& v.valid(*final(cs))
                &&& v.is_concrete()
                &&& (if as_field {
                    is_field_value(r->Ok_0, *final(cs), value)
                } else {
                    is_group_value(r->Ok_0, *final(cs), value)
                })
                &&& final(cs).wire_values().len() == old(cs).wire_values().len() + 1
            })
        } else {
            r matches Err(e) && is_literal_parse_err(e, text@, span) && *final(cs) == *old(cs)
        },
{
    let len = s_len(text);
    if len == 0 {
        return Err(literal_parse_error(text, span));
    }
    let neg = text.get_char(0) == '-';
    let digs: usize = if neg {
        1
    } else {
        0
    };
    proof {
        if !neg {
            assert(s_skip_zero(text@) =~= text@);
        }
    }
    if !check_digits(text, digs) {
        return Err(literal_parse_error(text, span));
    }
    proof {
        assert(is_int_literal(text@));
    }
    let raw = dec_value_mod(text, digs, m);
    let value: u64 = if neg {
        proof {
            lemma_neg_mod(lit_mag(text@), m as nat);
        }
        if raw == 0 {
            0
        } else {
            m - raw
        }
    } else {
        raw
    };
    proof {
        assert(value as int == lit_val(text@) % (m as int));
    }
    if as_field {
        Ok(Value::new_field(cs, value))
    } else {
        Ok(Value::new_group(cs, value))
    }
}

} // verus!
