//! Built-in gates: the leaves of every circuit.
use vstd::prelude::*;

verus! {

/// The boolean function computed by a built-in gate.
#[derive(Clone, Copy, Debug, PartialEq, Eq, Structural)]
pub enum Gate {
    Nand,
    Not,
    And,
    Or,
    Xor,
}

/// Number of inputs of a gate.
pub open spec fn arity(g: Gate) -> nat {
    match g {
        Gate::Not => 1,
        _ => 2,
    }
}

/// Output of a gate on inputs `a` and `b` (a one-input gate reads `a`).
pub open spec fn gate_value(g: Gate, a: bool, b: bool) -> bool {
    match g {
        Gate::Nand => !(a && b),
        Gate::Not => !a,
        Gate::And => a && b,
        Gate::Or => a || b,
        Gate::Xor => a != b,
    }
}

impl Gate {
    pub fn apply(&self, a: bool, b: bool) -> (r: bool)
        ensures
            r == gate_value(*self, a, b),
    {
        match self {
            Gate::Nand => !(a && b),
            Gate::Not => !a,
            Gate::And => a && b,
            Gate::Or => a || b,
            Gate::Xor => a != b,
        }
    }

    pub fn input_count(&self) -> (r: usize)
        ensures
            r == arity(*self),
    {
        match self {
            Gate::Not => 1,
            _ => 2,
        }
    }
}

/// A built-in chip: a gate with named ports.
#[derive(Clone, Debug, PartialEq)]
pub struct Primitive {
    pub name: u32,
    pub gate: Gate,
    pub ins: Vec<u32>,
    pub outs: Vec<u32>,
}

impl Primitive {
    /// Ports are pairwise distinct, one per gate input, and one output.
    pub open spec fn wf(&self) -> bool {
        &&& self.ins@.len() == arity(self.gate)
        &&& self.outs@.len() == 1
        &&& (self.ins@ + self.outs@).no_duplicates()
    }

    /// Tells whether `wf` holds of this primitive.
    pub fn is_wf(&self) -> (r: bool)
        ensures
            r == self.wf(),
    {
        if self.ins.len() != self.gate.input_count() || self.outs.len() != 1 {
            return false;
        }
        let ghost all = self.ins@ + self.outs@;
        let n = self.ins.len() + 1;
        let mut j: usize = 0;
        while j < n
            invariant
                n == all.len(),
                all == self.ins@ + self.outs@,
                self.outs@.len() == 1,
                j <= n,
                forall|a: int, b: int| 0 <= a < b < j ==> all[a] != all[b],
            decreases n - j,
        {
            let x = if j < self.ins.len() { self.ins[j] } else { self.outs[0] };
            proof {
                assert(x == all[j as int]);
            }
            let mut i: usize = 0;
            while i < j
                invariant
                    n == all.len(),
                    all == self.ins@ + self.outs@,
                    self.outs@.len() == 1,
                    i <= j < n,
                    x == all[j as int],
                    forall|a: int| 0 <= a < i ==> all[a] != all[j as int],
                decreases j - i,
            {
                let y = if i < self.ins.len() { self.ins[i] } else { self.outs[0] };
                proof {
                    assert(y == all[i as int]);
                }
                if y == x {
                    proof {
                        assert(all[i as int] == all[j as int]);
                    }
                    return false;
                }
                i = i + 1;
            }
            j = j + 1;
        }
        true
    }

    /// The output assignment of this primitive for the input assignment `m`.
    pub open spec fn result(&self, m: Map<u32, bool>) -> Map<u32, bool> {
        map![self.outs@[0] => gate_value(
            self.gate,
            m[self.ins@[0]],
            m[self.ins@[self.ins@.len() - 1]],
        )]
    }

    /// A two-input gate with ports `a`, `b` and output `out`.
    pub fn binary(name: u32, gate: Gate, a: u32, b: u32, out: u32) -> (r: Primitive)
        requires
            arity(gate) == 2,
            a != b,
            a != out,
            b != out,
        ensures
            r.wf(),
            r.name == name,
            r.gate == gate,
            r.ins@ == seq![a, b],
            r.outs@ == seq![out],
    {
        let r = Primitive { name, gate, ins: vec![a, b], outs: vec![out] };
        proof {
            assert(r.ins@ + r.outs@ =~= seq![a, b, out]);
        }
        r
    }

    /// A one-input gate with port `a` and output `out`.
    pub fn unary(name: u32, gate: Gate, a: u32, out: u32) -> (r: Primitive)
        requires
            arity(gate) == 1,
            a != out,
        ensures
            r.wf(),
            r.name == name,
            r.gate == gate,
            r.ins@ == seq![a],
            r.outs@ == seq![out],
    {
        let r = Primitive { name, gate, ins: vec![a], outs: vec![out] };
        proof {
            assert(r.ins@ + r.outs@ =~= seq![a, out]);
        }
        r
    }
}

} // verus!
