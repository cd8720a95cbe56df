//! Chip declarations as the parser produces them: parts unordered, references
//! unchecked.
use vstd::prelude::*;
use crate::interpreter::{Callee, ports, wires};
use crate::primitive::Primitive;

verus! {

/// One instantiation of a chip or primitive; `name_map` maps each callee port
/// to a wire of the enclosing chip.
#[derive(Clone, Debug)]
pub struct Part {
    pub chip_name: u32,
    pub name_map: Vec<(u32, u32)>,
}

/// A chip declaration.
#[derive(Clone, Debug)]
pub struct Chip {
    pub name: u32,
    pub ins: Vec<u32>,
    pub outs: Vec<u32>,
    /// In declaration order.
    pub parts: Vec<Part>,
}

/// A set of chip declarations.
#[derive(Clone, Debug)]
pub struct Program {
    pub chips: Vec<Chip>,
}

/// Index of the first primitive at or after `i` named `name`.
pub open spec fn first_prim(prims: Seq<Primitive>, name: u32, i: int) -> Option<usize>
    decreases prims.len() - i,
{
    if i < 0 || i >= prims.len() {
        None
    } else if prims[i].name == name {
        Some(i as usize)
    } else {
        first_prim(prims, name, i + 1)
    }
}

/// Index of the first chip at or after `i` named `name`.
pub open spec fn first_chip(chips: Seq<Chip>, name: u32, i: int) -> Option<usize>
    decreases chips.len() - i,
{
    if i < 0 || i >= chips.len() {
        None
    } else if chips[i].name == name {
        Some(i as usize)
    } else {
        first_chip(chips, name, i + 1)
    }
}

/// What `name` refers to: a primitive first, else a declared chip (by its
/// index among the declarations).
pub open spec fn resolve(prims: Seq<Primitive>, chips: Seq<Chip>, name: u32) -> Option<Callee> {
    match first_prim(prims, name, 0) {
        Some(i) => Some(Callee::Prim(i)),
        None => match first_chip(chips, name, 0) {
            Some(j) => Some(Callee::Chip(j)),
            None => None,
        },
    }
}

/// Input ports of a resolved callee.
pub open spec fn decl_ins(prims: Seq<Primitive>, chips: Seq<Chip>, c: Callee) -> Seq<u32> {
    match c {
        Callee::Prim(i) => prims[i as int].ins@,
        Callee::Chip(j) => chips[j as int].ins@,
    }
}

/// Output ports of a resolved callee.
pub open spec fn decl_outs(prims: Seq<Primitive>, chips: Seq<Chip>, c: Callee) -> Seq<u32> {
    match c {
        Callee::Prim(i) => prims[i as int].outs@,
        Callee::Chip(j) => chips[j as int].outs@,
    }
}

/// The connections of `pairs` whose port is in `keep`, in order.
pub open spec fn select(pairs: Seq<(u32, u32)>, keep: Set<u32>) -> Seq<(u32, u32)>
    decreases pairs.len(),
{
    if pairs.len() == 0 {
        Seq::empty()
    } else if keep.contains(pairs.last().0) {
        select(pairs.drop_last(), keep).push(pairs.last())
    } else {
        select(pairs.drop_last(), keep)
    }
}

/// The connections of `pairs` whose port is not in `skip`, in order.
pub open spec fn reject(pairs: Seq<(u32, u32)>, skip: Set<u32>) -> Seq<(u32, u32)>
    decreases pairs.len(),
{
    if pairs.len() == 0 {
        Seq::empty()
    } else if !skip.contains(pairs.last().0) {
        reject(pairs.drop_last(), skip).push(pairs.last())
    } else {
        reject(pairs.drop_last(), skip)
    }
}

/// The ports named by `pairs`, in order.
pub open spec fn keys(pairs: Seq<(u32, u32)>) -> Seq<u32> {
    pairs.map_values(|p: (u32, u32)| p.0)
}

/// A view of a whole declaration set together with the primitives it may use.
pub struct Decls {
    pub prims: Seq<Primitive>,
    pub chips: Seq<Chip>,
}

impl Decls {
    pub open spec fn part(&self, d: int, q: int) -> Part {
        self.chips[d].parts@[q]
    }

    /// What part `q` of chip `d` instantiates.
    pub open spec fn callee(&self, d: int, q: int) -> Option<Callee> {
        resolve(self.prims, self.chips, self.part(d, q).chip_name)
    }

    /// The connections of part `q` of chip `d` that feed its callee.
    pub open spec fn inputs(&self, d: int, q: int) -> Seq<(u32, u32)> {
        select(
            self.part(d, q).name_map@,
            decl_ins(self.prims, self.chips, self.callee(d, q).unwrap()).to_set(),
        )
    }

    /// The connections of part `q` of chip `d` that receive its callee's results.
    pub open spec fn outputs(&self, d: int, q: int) -> Seq<(u32, u32)> {
        reject(
            self.part(d, q).name_map@,
            decl_ins(self.prims, self.chips, self.callee(d, q).unwrap()).to_set(),
        )
    }

    /// Part `k` of chip `d` reads a wire that part `h` writes.
    pub open spec fn part_dep(&self, d: int, k: int, h: int) -> bool {
        exists|w: u32| wires(self.inputs(d, k)).contains(w) && wires(self.outputs(d, h)).contains(w)
    }

    /// For each part of chip `d`, the parts it depends on.
    pub open spec fn part_deps(&self, d: int) -> Seq<Set<usize>> {
        Seq::new(
            self.chips[d].parts@.len(),
            |k: int|
                Set::new(|h: usize| h < self.chips[d].parts@.len() && self.part_dep(d, k, h as int)),
        )
    }

    /// For each chip, the declared chips that its parts instantiate.
    pub open spec fn chip_deps(&self) -> Seq<Set<usize>> {
        Seq::new(
            self.chips.len(),
            |d: int|
                Set::new(
                    |j: usize|
                        exists|q: int|
                            0 <= q < self.chips[d].parts@.len() && self.callee(d, q) == Some(
                                Callee::Chip(j),
                            ),
                ),
        )
    }
}

} // verus!
