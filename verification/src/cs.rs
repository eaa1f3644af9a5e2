//! A model of the rank-1 constraint system handle the enforcement engine
//! writes into: allocated witness wires with their assigned values, a count
//! of appended constraints, and the per-compilation-unit configuration
//! (field modulus, group order, integer overflow policy).

use vstd::prelude::*;

verus! {

/// The rule governing integer arithmetic that exceeds its declared width.
/// One policy is configured per compilation unit and consumed uniformly by
/// every integer gadget.
#[derive(Clone, Copy, Debug, PartialEq, Eq, Structural)]
pub enum OverflowPolicy {
    /// Silently reduce modulo `2^width`.
    Wrap,
    /// Fail compilation on statically provable overflow.
    Checked,
    /// Emit one extra constraint per gadget forcing the proof to be
    /// unsatisfiable if overflow occurs at witness time; the witness value
    /// itself is the reduced one.
    Constrained,
}

/// The constraint system handle. It is owned by the compilation driver and
/// passed by exclusive mutable reference into every enforcement call; the
/// engine only allocates wires and appends constraints, never removes or
/// rewrites either.
pub struct ConstraintSystem {
    wires: Vec<u64>,
    constraints: u64,
    field_modulus: u64,
    group_order: u64,
    policy: OverflowPolicy,
}

impl ConstraintSystem {
    /// The witness assignment: the value of every allocated wire, in
    /// allocation order.
    pub closed spec fn wire_values(self) -> Seq<u64> {
        self.wires@
    }

    /// How many constraints have been appended so far.
    pub closed spec fn constraint_count(self) -> nat {
        self.constraints as nat
    }

    /// The prime-field modulus all field wires live under.
    pub closed spec fn field_modulus(self) -> nat {
        self.field_modulus as nat
    }

    /// The order of the (cyclic) group all group wires live under.
    pub closed spec fn group_order(self) -> nat {
        self.group_order as nat
    }

    /// The configured integer overflow policy.
    pub closed spec fn policy(self) -> OverflowPolicy {
        self.policy
    }

    /// Well-formedness of the handle's configuration.
    pub open spec fn wf(self) -> bool {
        &&& self.field_modulus() >= 2
        &&& self.group_order() >= 2
    }

    /// The configuration (moduli and policy) of `other` is the same as
    /// `self`'s. Enforcement calls never change the configuration.
    pub open spec fn same_config(self, other: ConstraintSystem) -> bool {
        &&& other.field_modulus() == self.field_modulus()
        &&& other.group_order() == self.group_order()
        &&& other.policy() == self.policy()
    }

    /// `other` is `self` grown monotonically: every wire already allocated
    /// keeps its value, nothing is removed, and the configuration stands.
    pub open spec fn extended_by(self, other: ConstraintSystem) -> bool {
        &&& self.same_config(other)
        &&& self.wire_values().is_prefix_of(other.wire_values())
        &&& self.constraint_count() <= other.constraint_count()
    }

    pub fn new(field_modulus: u64, group_order: u64, policy: OverflowPolicy) -> (cs:
        ConstraintSystem)
        requires
            field_modulus >= 2,
            group_order >= 2,
        ensures
            cs.wire_values() == Seq::<u64>::empty(),
            cs.constraint_count() == 0,
            cs.field_modulus() == field_modulus,
            cs.group_order() == group_order,
            cs.policy() == policy,
            cs.wf(),
    {
        let cs = ConstraintSystem { wires: Vec::new(), constraints: 0, field_modulus, group_order, policy };
        proof {
            assert(cs.wire_values() =~= Seq::<u64>::empty());
        }
        cs
    }

    /// Allocate a fresh witness wire carrying `value`; returns its index.
    pub fn allocate_witness(&mut self, value: u64) -> (w: usize)
        ensures
            w == old(self).wire_values().len(),
            final(self).wire_values() == old(self).wire_values().push(value),
            final(self).constraint_count() == old(self).constraint_count(),
            old(self).same_config(*final(self)),
            old(self).extended_by(*final(self)),
    {
        let w = self.wires.len();
        self.wires.push(value);
        w
    }

    /// Append one constraint over already-allocated wires. The model keeps
    /// only the count; the engine never reads constraints back.
    pub fn add_constraint(&mut self)
        requires
            old(self).constraint_count() < u64::MAX,
        ensures
            final(self).wire_values() == old(self).wire_values(),
            final(self).constraint_count() == old(self).constraint_count() + 1,
            old(self).same_config(*final(self)),
            old(self).extended_by(*final(self)),
    {
        self.constraints = self.constraints + 1;
    }

    pub fn num_wires(&self) -> (n: usize)
        ensures
            n == self.wire_values().len(),
    {
        self.wires.len()
    }

    pub fn num_constraints(&self) -> (n: u64)
        ensures
            n == self.constraint_count(),
    {
        self.constraints
    }

    /// Read back the witness value assigned to wire `w`.
    pub fn wire_value(&self, w: usize) -> (v: u64)
        requires
            w < self.wire_values().len(),
        ensures
            v == self.wire_values()[w as int],
    {
        self.wires[w]
    }

    pub fn field_modulus_value(&self) -> (m: u64)
        ensures
            m == self.field_modulus(),
    {
        self.field_modulus
    }

    pub fn group_order_value(&self) -> (m: u64)
        ensures
            m == self.group_order(),
    {
        self.group_order
    }

    pub fn overflow_policy(&self) -> (p: OverflowPolicy)
        ensures
            p == self.policy(),
    {
        self.policy
    }
}

} // verus!
