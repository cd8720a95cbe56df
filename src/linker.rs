//! Checking chip declarations and compiling them into an evaluable program.
use vstd::prelude::*;
use crate::ast::{self, Decls, decl_ins, decl_outs, first_chip, first_prim, keys, reject, resolve, select};
use crate::interpreter::{Callee, ports, wires};
use crate::primitive::Primitive;
use crate::topo::{dep_sets, waits_on_itself, is_cycle, is_order, lemma_order_covers, order_of, placed_before, topo_sort};
use crate::interpreter::{Chip, Part, Program};

verus! {

/// The connections of `pairs` name each of `ins` and `outs` exactly once and
/// nothing else.
pub open spec fn arity_matches(pairs: Seq<(u32, u32)>, ins: Seq<u32>, outs: Seq<u32>) -> bool {
    &&& keys(pairs).no_duplicates()
    &&& keys(pairs).to_set() == ins.to_set().union(outs.to_set())
}

pub proof fn lemma_wires_index(s: Seq<(u32, u32)>, w: u32)
    ensures
        wires(s).contains(w) <==> exists|i: int| 0 <= i < s.len() && s[i].1 == w,
    decreases s.len(),
{
    if s.len() > 0 {
        lemma_wires_index(s.drop_last(), w);
        if wires(s.drop_last()).contains(w) {
            let i = choose|i: int| 0 <= i < s.drop_last().len() && s.drop_last()[i].1 == w;
            assert(s[i].1 == w);
        }
        if exists|i: int| 0 <= i < s.len() && s[i].1 == w {
            let i = choose|i: int| 0 <= i < s.len() && s[i].1 == w;
            if i < s.len() - 1 {
                assert(s.drop_last()[i].1 == w);
            }
        }
    }
}

pub proof fn lemma_ports_keys(s: Seq<(u32, u32)>)
    ensures
        ports(s) == keys(s).to_set(),
    decreases s.len(),
{
    if s.len() > 0 {
        lemma_ports_keys(s.drop_last());
        assert(keys(s) =~= keys(s.drop_last()).push(s.last().0));
        keys(s.drop_last()).lemma_push_to_set_commute(s.last().0);
    } else {
        assert(keys(s).to_set() =~= Set::empty());
    }
}

proof fn lemma_select_ports(s: Seq<(u32, u32)>, keep: Set<u32>)
    ensures
        ports(select(s, keep)) == ports(s).intersect(keep),
        ports(reject(s, keep)) == ports(s).difference(keep),
        wires(select(s, keep)).subset_of(wires(s)),
        wires(reject(s, keep)).subset_of(wires(s)),
    decreases s.len(),
{
    if s.len() > 0 {
        let dl = s.drop_last();
        let x = s.last();
        lemma_select_ports(dl, keep);
        if keep.contains(x.0) {
            assert(select(s, keep).drop_last() =~= select(dl, keep));
            assert(reject(s, keep) == reject(dl, keep));
        } else {
            assert(reject(s, keep).drop_last() =~= reject(dl, keep));
            assert(select(s, keep) == select(dl, keep));
        }
        assert(ports(select(s, keep)) =~= ports(s).intersect(keep));
        assert(ports(reject(s, keep)) =~= ports(s).difference(keep));
    } else {
        assert(ports(s).intersect(keep) =~= Set::empty());
        assert(ports(s).difference(keep) =~= Set::empty());
    }
}

/// Why a set of declarations does not compile.
#[derive(Clone, Debug, PartialEq)]
pub enum CompileError {
    /// A port is declared twice among a chip's inputs or among its outputs.
    DuplicatePort { chip: u32, port: u32 },
    /// A port is declared both as an input and as an output of a chip.
    PortNameCollision { chip: u32, port: u32 },
    /// Two chips are declared with the same name.
    DuplicateChip { chip: u32 },
    /// A part names neither a primitive nor a declared chip.
    UnknownChip { chip: u32, name: u32 },
    /// A part does not connect exactly the ports of what it instantiates:
    /// `missing` are ports it leaves out, `extra` names it connects that are
    /// not ports of the callee.
    PortArityMismatch { chip: u32, part: usize, missing: Vec<u32>, extra: Vec<u32> },
    /// Two connections write the same wire.
    MultipleDrivers { chip: u32, wire: u32 },
    /// A part writes one of the chip's own inputs.
    InputShadowed { chip: u32, wire: u32 },
    /// A wire is read but neither an input of the chip nor written by a part.
    UndrivenWire { chip: u32, wire: u32 },
    /// The parts of a chip depend on each other in a cycle; `parts` are the
    /// parts that could not be ordered.
    CombinationalCycle { chip: u32, parts: Vec<usize> },
    /// Chips instantiate each other in a cycle; `chip` is one that could not
    /// be ordered.
    RecursiveChipDefinition { chip: u32 },
}

/// `missing` holds the ports of `ins` and `outs` that `pairs` leaves out, and
/// `extra` the names that `pairs` connects that are neither.
pub open spec fn arity_diff(
    pairs: Seq<(u32, u32)>,
    ins: Seq<u32>,
    outs: Seq<u32>,
    missing: Seq<u32>,
    extra: Seq<u32>,
) -> bool {
    &&& forall|x: u32|
        missing.contains(x) <==> ((ins.contains(x) || outs.contains(x)) && !keys(pairs).contains(x))
    &&& forall|x: u32|
        extra.contains(x) <==> (keys(pairs).contains(x) && !ins.contains(x) && !outs.contains(x))
}

proof fn lemma_push_contains(s: Seq<u32>, x: u32, y: u32)
    ensures
        s.push(x).contains(y) <==> (s.contains(y) || y == x),
{
    if s.contains(y) {
        let j = choose|j: int| 0 <= j < s.len() && s[j] == y;
        assert(s.push(x)[j] == y);
    }
    if y == x {
        assert(s.push(x)[s.len() as int] == y);
    }
    if s.push(x).contains(y) && y != x {
        let j = choose|j: int| 0 <= j < s.push(x).len() && s.push(x)[j] == y;
        assert(s[j] == y);
    }
}

/// Appends to `r` the names of `xs` that `pairs` does not connect.
fn push_unconnected(xs: &Vec<u32>, pairs: &Vec<(u32, u32)>, r: &mut Vec<u32>)
    ensures
        forall|x: u32|
            #[trigger] final(r)@.contains(x) <==> (old(r)@.contains(x) || (xs@.contains(x) && !keys(
                pairs@,
            ).contains(x))),
{
    let ghost start = r@;
    let mut i: usize = 0;
    while i < xs.len()
        invariant
            i <= xs@.len(),
            forall|x: u32|
                #[trigger] r@.contains(x) <==> (start.contains(x) || (xs@.take(i as int).contains(x) && !keys(
                    pairs@,
                ).contains(x))),
        decreases xs@.len() - i,
    {
        let x = xs[i];
        let ghost t0 = xs@.take(i as int);
        let ghost before = r@;
        let connected = key_in(pairs, x);
        if !connected {
            r.push(x);
        }
        i = i + 1;
        proof {
            assert(xs@.take(i as int) =~= t0.push(x));
            assert forall|y: u32|
                #[trigger] r@.contains(y) <==> (start.contains(y) || (xs@.take(i as int).contains(y)
                    && !keys(pairs@).contains(y))) by {
                lemma_push_contains(t0, x, y);
                lemma_push_contains(before, x, y);
                assert(before.contains(y) <==> (start.contains(y) || (t0.contains(y) && !keys(
                    pairs@,
                ).contains(y))));
                if !connected {
                    assert(r@ == before.push(x));
                } else {
                    assert(r@ == before);
                }
            }
        }
    }
    proof {
        assert(xs@.take(i as int) =~= xs@);
    }
}

/// The ports of `ins` and `outs` that `pairs` does not connect.
fn missing_ports(pairs: &Vec<(u32, u32)>, ins: &Vec<u32>, outs: &Vec<u32>) -> (r: Vec<u32>)
    ensures
        forall|x: u32|
            r@.contains(x) <==> ((ins@.contains(x) || outs@.contains(x)) && !keys(pairs@).contains(x)),
{
    let mut r: Vec<u32> = Vec::new();
    let ghost empty = r@;
    push_unconnected(ins, pairs, &mut r);
    let ghost mid = r@;
    push_unconnected(outs, pairs, &mut r);
    proof {
        assert forall|x: u32|
            r@.contains(x) <==> ((ins@.contains(x) || outs@.contains(x)) && !keys(pairs@).contains(
                x,
            )) by {
            assert(!empty.contains(x));
            assert(r@.contains(x) <==> (mid.contains(x) || (outs@.contains(x) && !keys(pairs@).contains(x))));
            assert(mid.contains(x) <==> (empty.contains(x) || (ins@.contains(x) && !keys(pairs@).contains(x))));
        }
    }
    r
}

/// The names that `pairs` connects that are neither in `ins` nor in `outs`.
fn extra_names(pairs: &Vec<(u32, u32)>, ins: &Vec<u32>, outs: &Vec<u32>) -> (r: Vec<u32>)
    ensures
        forall|x: u32|
            r@.contains(x) <==> (keys(pairs@).contains(x) && !ins@.contains(x) && !outs@.contains(x)),
{
    let mut r: Vec<u32> = Vec::new();
    let mut i: usize = 0;
    while i < pairs.len()
        invariant
            i <= pairs@.len(),
            forall|x: u32|
                r@.contains(x) <==> (keys(pairs@).take(i as int).contains(x) && !ins@.contains(x)
                    && !outs@.contains(x)),
        decreases pairs@.len() - i,
    {
        let x = pairs[i].0;
        let ghost ks = keys(pairs@);
        let ghost t0 = ks.take(i as int);
        let ghost before = r@;
        proof {
            assert(ks.take(i + 1) =~= t0.push(x));
        }
        if !contains_id(ins, x) && !contains_id(outs, x) {
            r.push(x);
        }
        proof {
            assert forall|y: u32|
                r@.contains(y) <==> (ks.take(i + 1).contains(y) && !ins@.contains(y)
                    && !outs@.contains(y)) by {
                lemma_push_contains(t0, x, y);
                lemma_push_contains(before, x, y);
            }
        }
        i = i + 1;
    }
    proof {
        assert(keys(pairs@).take(i as int) =~= keys(pairs@));
    }
    r
}

/// Whether some connection of `pairs` names port `x`.
fn key_in(pairs: &Vec<(u32, u32)>, x: u32) -> (r: bool)
    ensures
        r == keys(pairs@).contains(x),
{
    let mut i: usize = 0;
    while i < pairs.len()
        invariant
            i <= pairs@.len(),
            forall|h: int| 0 <= h < i ==> pairs@[h].0 != x,
        decreases pairs@.len() - i,
    {
        if pairs[i].0 == x {
            proof {
                assert(keys(pairs@)[i as int] == x);
            }
            return true;
        }
        i = i + 1;
    }
    false
}

/// `x` occurs at two positions of `s`.
pub open spec fn repeated(s: Seq<u32>, x: u32) -> bool {
    exists|i: int, j: int| 0 <= i < j < s.len() && s[i] == x && s[j] == x
}

fn contains_id(v: &Vec<u32>, x: u32) -> (r: bool)
    ensures
        r == v@.contains(x),
{
    let mut i: usize = 0;
    while i < v.len()
        invariant
            i <= v@.len(),
            forall|h: int| 0 <= h < i ==> v@[h] != x,
        decreases v@.len() - i,
    {
        if v[i] == x {
            return true;
        }
        i = i + 1;
    }
    false
}

/// A value that occurs twice in `v`, if any.
fn find_repeat(v: &Vec<u32>) -> (r: Option<u32>)
    ensures
        r is None <==> v@.no_duplicates(),
        r matches Some(x) ==> repeated(v@, x),
{
    let mut j: usize = 0;
    while j < v.len()
        invariant
            j <= v@.len(),
            forall|a: int, b: int| 0 <= a < b < j ==> v@[a] != v@[b],
        decreases v@.len() - j,
    {
        let mut i: usize = 0;
        while i < j
            invariant
                i <= j < v@.len(),
                forall|a: int| 0 <= a < i ==> v@[a] != v@[j as int],
            decreases j - i,
        {
            if v[i] == v[j] {
                return Some(v[j]);
            }
            i = i + 1;
        }
        j = j + 1;
    }
    None
}

fn first_prim_exec(prims: &Vec<Primitive>, name: u32) -> (r: Option<usize>)
    ensures
        r == first_prim(prims@, name, 0),
{
    let mut i: usize = 0;
    while i < prims.len()
        invariant
            i <= prims@.len(),
            first_prim(prims@, name, 0) == first_prim(prims@, name, i as int),
        decreases prims@.len() - i,
    {
        if prims[i].name == name {
            return Some(i);
        }
        i = i + 1;
    }
    None
}

fn first_chip_exec(chips: &Vec<ast::Chip>, name: u32) -> (r: Option<usize>)
    ensures
        r == first_chip(chips@, name, 0),
{
    let mut i: usize = 0;
    while i < chips.len()
        invariant
            i <= chips@.len(),
            first_chip(chips@, name, 0) == first_chip(chips@, name, i as int),
        decreases chips@.len() - i,
    {
        if chips[i].name == name {
            return Some(i);
        }
        i = i + 1;
    }
    None
}

proof fn lemma_first_prim(prims: Seq<Primitive>, name: u32, i: int)
    requires
        0 <= i,
        prims.len() <= usize::MAX,
    ensures
        first_prim(prims, name, i) matches Some(r) ==> i <= r < prims.len() && prims[r as int].name
            == name,
    decreases prims.len() - i,
{
    if i < prims.len() {
        lemma_first_prim(prims, name, i + 1);
    }
}

proof fn lemma_first_chip(chips: Seq<ast::Chip>, name: u32, i: int)
    requires
        0 <= i,
        chips.len() <= usize::MAX,
    ensures
        first_chip(chips, name, i) matches Some(r) ==> i <= r < chips.len() && chips[r as int].name
            == name,
    decreases chips.len() - i,
{
    if i < chips.len() {
        lemma_first_chip(chips, name, i + 1);
    }
}

/// Resolves a part's reference: primitives first, then declared chips.
fn resolve_exec(prims: &Vec<Primitive>, chips: &Vec<ast::Chip>, name: u32) -> (r: Option<Callee>)
    ensures
        r == resolve(prims@, chips@, name),
        r matches Some(Callee::Prim(i)) ==> i < prims@.len(),
        r matches Some(Callee::Chip(j)) ==> j < chips@.len(),
{
    // reading the lengths tells the proofs that they fit in a usize
    let _np = prims.len();
    let _nc = chips.len();
    proof {
        lemma_first_prim(prims@, name, 0);
        lemma_first_chip(chips@, name, 0);
    }
    match first_prim_exec(prims, name) {
        Some(i) => Some(Callee::Prim(i)),
        None => match first_chip_exec(chips, name) {
            Some(j) => Some(Callee::Chip(j)),
            None => None,
        },
    }
}

/// Splits `pairs` into the connections whose port is in `ins` and the others.
fn split(pairs: &Vec<(u32, u32)>, ins: &Vec<u32>) -> (r: (Vec<(u32, u32)>, Vec<(u32, u32)>))
    ensures
        r.0@ == select(pairs@, ins@.to_set()),
        r.1@ == reject(pairs@, ins@.to_set()),
{
    let mut a: Vec<(u32, u32)> = Vec::new();
    let mut b: Vec<(u32, u32)> = Vec::new();
    let mut i: usize = 0;
    while i < pairs.len()
        invariant
            i <= pairs@.len(),
            a@ == select(pairs@.take(i as int), ins@.to_set()),
            b@ == reject(pairs@.take(i as int), ins@.to_set()),
        decreases pairs@.len() - i,
    {
        let pr = pairs[i];
        proof {
            assert(pairs@.take(i + 1).drop_last() =~= pairs@.take(i as int));
        }
        if contains_id(ins, pr.0) {
            a.push(pr);
        } else {
            b.push(pr);
        }
        i = i + 1;
    }
    proof {
        assert(pairs@.take(i as int) =~= pairs@);
    }
    (a, b)
}

/// Whether `pairs` connects each of `ins` and `outs` exactly once.
fn arity_ok(pairs: &Vec<(u32, u32)>, ins: &Vec<u32>, outs: &Vec<u32>) -> (r: bool)
    ensures
        r == arity_matches(pairs@, ins@, outs@),
{
    let mut ks: Vec<u32> = Vec::new();
    let mut i: usize = 0;
    while i < pairs.len()
        invariant
            i <= pairs@.len(),
            ks@ == keys(pairs@.take(i as int)),
        decreases pairs@.len() - i,
    {
        ks.push(pairs[i].0);
        proof {
            assert(keys(pairs@.take(i + 1)) =~= keys(pairs@.take(i as int)).push(pairs@[i as int].0));
        }
        i = i + 1;
    }
    proof {
        assert(pairs@.take(i as int) =~= pairs@);
        assert(ks@ == keys(pairs@));
    }
    if find_repeat(&ks).is_some() {
        return false;
    }
    let ghost want = ins@.to_set().union(outs@.to_set());
    let mut t: usize = 0;
    while t < ks.len()
        invariant
            t <= ks@.len(),
            forall|h: int| 0 <= h < t ==> want.contains(#[trigger] ks@[h]),
            want == ins@.to_set().union(outs@.to_set()),
            ks@ == keys(pairs@),
            ks@.no_duplicates(),
        decreases ks@.len() - t,
    {
        if !contains_id(ins, ks[t]) && !contains_id(outs, ks[t]) {
            proof {
                assert(ks@.contains(ks@[t as int]));
                assert(ks@.to_set().contains(ks@[t as int]));
                assert(!want.contains(ks@[t as int]));
            }
            return false;
        }
        t = t + 1;
    }
    let mut u: usize = 0;
    while u < ins.len()
        invariant
            u <= ins@.len(),
            forall|h: int| 0 <= h < u ==> ks@.contains(#[trigger] ins@[h]),
            forall|h: int| 0 <= h < ks@.len() ==> want.contains(#[trigger] ks@[h]),
            want == ins@.to_set().union(outs@.to_set()),
            ks@ == keys(pairs@),
            ks@.no_duplicates(),
        decreases ins@.len() - u,
    {
        if !contains_id(&ks, ins[u]) {
            proof {
                assert(ins@.contains(ins@[u as int]));
                assert(want.contains(ins@[u as int]));
                assert(!ks@.to_set().contains(ins@[u as int]));
            }
            return false;
        }
        u = u + 1;
    }
    let mut v: usize = 0;
    while v < outs.len()
        invariant
            v <= outs@.len(),
            forall|h: int| 0 <= h < v ==> ks@.contains(#[trigger] outs@[h]),
            forall|h: int| 0 <= h < ins@.len() ==> ks@.contains(#[trigger] ins@[h]),
            forall|h: int| 0 <= h < ks@.len() ==> want.contains(#[trigger] ks@[h]),
            want == ins@.to_set().union(outs@.to_set()),
            ks@ == keys(pairs@),
            ks@.no_duplicates(),
        decreases outs@.len() - v,
    {
        if !contains_id(&ks, outs[v]) {
            proof {
                assert(outs@.contains(outs@[v as int]));
                assert(want.contains(outs@[v as int]));
                assert(!ks@.to_set().contains(outs@[v as int]));
            }
            return false;
        }
        v = v + 1;
    }
    proof {
        assert(ks@.to_set() =~= want) by {
            assert forall|x: u32| ks@.to_set().contains(x) implies want.contains(x) by {
                let h = choose|h: int| 0 <= h < ks@.len() && ks@[h] == x;
            }
            assert forall|x: u32| want.contains(x) implies ks@.to_set().contains(x) by {
                if ins@.to_set().contains(x) {
                    let h = choose|h: int| 0 <= h < ins@.len() && ins@[h] == x;
                } else {
                    let h = choose|h: int| 0 <= h < outs@.len() && outs@[h] == x;
                }
            }
        }
    }
    true
}

/// Whether some connection of `pairs` names wire `w`.
fn wire_in(pairs: &Vec<(u32, u32)>, w: u32) -> (r: bool)
    ensures
        r == wires(pairs@).contains(w),
{
    proof {
        lemma_wires_index(pairs@, w);
    }
    let mut i: usize = 0;
    while i < pairs.len()
        invariant
            i <= pairs@.len(),
            forall|h: int| 0 <= h < i ==> pairs@[h].1 != w,
        decreases pairs@.len() - i,
    {
        if pairs[i].1 == w {
            proof {
                assert(pairs@[i as int].1 == w);
                lemma_wires_index(pairs@, w);
            }
            return true;
        }
        i = i + 1;
    }
    false
}

/// Whether `a` and `b` name a common wire.
fn shares_wire(a: &Vec<(u32, u32)>, b: &Vec<(u32, u32)>) -> (r: bool)
    ensures
        r == exists|w: u32| wires(a@).contains(w) && wires(b@).contains(w),
{
    let mut i: usize = 0;
    while i < a.len()
        invariant
            i <= a@.len(),
            forall|h: int| 0 <= h < i ==> !wires(b@).contains(#[trigger] a@[h].1),
        decreases a@.len() - i,
    {
        if wire_in(b, a[i].1) {
            proof {
                lemma_wires_index(a@, a@[i as int].1);
            }
            return true;
        }
        i = i + 1;
    }
    proof {
        assert forall|w: u32| !(wires(a@).contains(w) && wires(b@).contains(w)) by {
            lemma_wires_index(a@, w);
        }
    }
    false
}


/// The wires named by `s`, in order.
pub open spec fn wire_list(s: Seq<(u32, u32)>) -> Seq<u32> {
    s.map_values(|p: (u32, u32)| p.1)
}

pub proof fn lemma_wire_list(s: Seq<(u32, u32)>, w: u32)
    ensures
        wire_list(s).contains(w) <==> wires(s).contains(w),
{
    lemma_wires_index(s, w);
    if wires(s).contains(w) {
        let i = choose|i: int| 0 <= i < s.len() && s[i].1 == w;
        assert(wire_list(s)[i] == w);
    }
}

impl Decls {
    /// The inputs and outputs of chip `d` are each listed once, and no port
    /// is both.
    pub open spec fn ports_ok(&self, d: int) -> bool {
        &&& self.chips[d].ins@.no_duplicates()
        &&& self.chips[d].outs@.no_duplicates()
        &&& self.chips[d].ins@.to_set().disjoint(self.chips[d].outs@.to_set())
    }

    /// No two chips share a name.
    pub open spec fn names_unique(&self) -> bool {
        forall|a: int, b: int|
            0 <= a < b < self.chips.len() ==> self.chips[a].name != self.chips[b].name
    }

    /// Part `q` of chip `d` names something known and connects exactly its ports.
    pub open spec fn part_ok(&self, d: int, q: int) -> bool {
        &&& self.callee(d, q) is Some
        &&& arity_matches(
            self.part(d, q).name_map@,
            decl_ins(self.prims, self.chips, self.callee(d, q).unwrap()),
            decl_outs(self.prims, self.chips, self.callee(d, q).unwrap()),
        )
    }

    /// The wires written by the first `h` parts of chip `d`, in order.
    pub open spec fn writes_upto(&self, d: int, h: int) -> Seq<u32>
        decreases h,
    {
        if h <= 0 {
            Seq::empty()
        } else {
            self.writes_upto(d, h - 1) + wire_list(self.outputs(d, h - 1))
        }
    }

    /// Every wire written by a part of chip `d`, once per connection.
    pub open spec fn all_writes(&self, d: int) -> Seq<u32> {
        self.writes_upto(d, self.chips[d].parts@.len() as int)
    }

    /// Wire `w` of chip `d` is an input of the chip or written by a part.
    pub open spec fn driven(&self, d: int, w: u32) -> bool {
        self.chips[d].ins@.contains(w) || self.all_writes(d).contains(w)
    }

    /// Wire `w` is read in chip `d`: by a part, or as an output of the chip.
    pub open spec fn read(&self, d: int, w: u32) -> bool {
        ||| self.chips[d].outs@.contains(w)
        ||| exists|k: int| 0 <= k < self.chips[d].parts@.len() && wires(self.inputs(d, k)).contains(w)
    }

    /// Each wire of chip `d` has at most one writer, which is not an input of
    /// the chip, and every wire read is driven.
    pub open spec fn wiring_ok(&self, d: int) -> bool {
        &&& self.all_writes(d).no_duplicates()
        &&& forall|w: u32| self.all_writes(d).contains(w) ==> !self.chips[d].ins@.contains(w)
        &&& forall|w: u32| self.read(d, w) ==> self.driven(d, w)
    }

    /// Chip `d` passes every check of its own.
    pub open spec fn chip_ok(&self, d: int) -> bool {
        &&& self.ports_ok(d)
        &&& forall|q: int| 0 <= q < self.chips[d].parts@.len() ==> #[trigger] self.part_ok(d, q)
        &&& self.wiring_ok(d)
    }

    /// What a compile error claims of the declarations.
    pub open spec fn error_holds(&self, e: CompileError) -> bool {
        match e {
            CompileError::DuplicatePort { chip, port } => exists|d: int|
                0 <= d < self.chips.len() && self.chips[d].name == chip && (repeated(
                    self.chips[d].ins@,
                    port,
                ) || repeated(self.chips[d].outs@, port)),
            CompileError::PortNameCollision { chip, port } => exists|d: int|
                0 <= d < self.chips.len() && self.chips[d].name == chip
                    && self.chips[d].ins@.contains(port) && self.chips[d].outs@.contains(port),
            CompileError::DuplicateChip { chip } => exists|a: int, b: int|
                0 <= a < b < self.chips.len() && self.chips[a].name == chip && self.chips[b].name
                    == chip,
            CompileError::UnknownChip { chip, name } => exists|d: int, q: int|
                0 <= d < self.chips.len() && self.chips[d].name == chip && 0 <= q
                    < self.chips[d].parts@.len() && self.part(d, q).chip_name == name
                    && self.callee(d, q) is None && forall|h: int|
                    0 <= h < q ==> #[trigger] self.part_ok(d, h),
            CompileError::PortArityMismatch { chip, part, missing, extra } => exists|d: int|
                0 <= d < self.chips.len() && (#[trigger] self.chips[d]).name == chip && part
                    < self.chips[d].parts@.len() && !self.part_ok(d, part as int) && self.callee(
                    d,
                    part as int,
                ) is Some && arity_diff(
                    self.part(d, part as int).name_map@,
                    decl_ins(self.prims, self.chips, self.callee(d, part as int).unwrap()),
                    decl_outs(self.prims, self.chips, self.callee(d, part as int).unwrap()),
                    missing@,
                    extra@,
                ),
            CompileError::MultipleDrivers { chip, wire } => exists|d: int|
                0 <= d < self.chips.len() && self.chips[d].name == chip && self.chip_parts_ok(d)
                    && repeated(self.all_writes(d), wire),
            CompileError::InputShadowed { chip, wire } => exists|d: int|
                0 <= d < self.chips.len() && self.chips[d].name == chip && self.chip_parts_ok(d)
                    && self.all_writes(d).no_duplicates()
                    && self.all_writes(d).contains(wire) && self.chips[d].ins@.contains(wire),
            CompileError::UndrivenWire { chip, wire } => exists|d: int|
                0 <= d < self.chips.len() && self.chips[d].name == chip && self.chip_parts_ok(d)
                    && self.all_writes(d).no_duplicates() && (forall|w: u32|
                    self.all_writes(d).contains(w) ==> !self.chips[d].ins@.contains(w))
                    && self.read(d, wire) && !self.driven(d, wire),
            CompileError::CombinationalCycle { chip, parts } => exists|d: int|
                0 <= d < self.chips.len() && self.chips[d].name == chip && self.chip_parts_ok(d)
                    && self.wiring_ok(d) && order_of(self.chip_deps()) is Some
                    && (forall|o: Seq<usize>| !is_order(self.part_deps(d), o)) && waits_on_itself(
                    self.part_deps(d),
                    parts@,
                ),
            CompileError::RecursiveChipDefinition { chip } => {
                &&& self.all_parts_ok()
                &&& forall|o: Seq<usize>| !is_order(self.chip_deps(), o)
                &&& exists|rest: Seq<usize>|
                    waits_on_itself(self.chip_deps(), rest) && self.chips[rest[0] as int].name == chip
            },
        }
    }

    /// Every part of chip `d` passes its checks.
    pub open spec fn chip_parts_ok(&self, d: int) -> bool {
        forall|q: int| 0 <= q < self.chips[d].parts@.len() ==> #[trigger] self.part_ok(d, q)
    }

    /// Every part of every chip passes its checks.
    pub open spec fn all_parts_ok(&self) -> bool {
        forall|d: int| 0 <= d < self.chips.len() ==> #[trigger] self.chip_parts_ok(d)
    }
}

/// The parts of one chip, resolved and split into the connections that feed
/// the callee and those that receive from it.
struct Linked {
    callees: Vec<Callee>,
    inputs: Vec<Vec<(u32, u32)>>,
    outputs: Vec<Vec<(u32, u32)>>,
}

impl Linked {
    spec fn matches(&self, dc: Decls, d: int) -> bool {
        let n = dc.chips[d].parts@.len();
        &&& self.callees@.len() == n
        &&& self.inputs@.len() == n
        &&& self.outputs@.len() == n
        &&& dc.chip_parts_ok(d)
        &&& forall|q: int|
            #![trigger self.callees@[q]]
            #![trigger self.inputs@[q]]
            #![trigger self.outputs@[q]]
            0 <= q < n ==> {
                &&& dc.callee(d, q) == Some(self.callees@[q])
                &&& self.inputs@[q]@ == dc.inputs(d, q)
                &&& self.outputs@[q]@ == dc.outputs(d, q)
                &&& dc.part_ok(d, q)
                &&& match self.callees@[q] {
                    Callee::Prim(i) => i < dc.prims.len(),
                    Callee::Chip(j) => j < dc.chips.len(),
                }
            }
    }
}

/// Resolves and splits the parts of chip `d`, then checks its wiring.
fn link_chip(decls: &ast::Program, prims: &Vec<Primitive>, d: usize) -> (r: Result<Linked, CompileError>)
    requires
        d < decls.chips@.len(),
    ensures
        match r {
            Ok(l) => l.matches(Decls { prims: prims@, chips: decls.chips@ }, d as int) && (Decls {
                prims: prims@,
                chips: decls.chips@,
            }).wiring_ok(d as int),
            Err(e) => (Decls { prims: prims@, chips: decls.chips@ }).error_holds(e),
        },
        r matches Err(e) ==> !(e is CombinationalCycle),
{
    let ghost dc = Decls { prims: prims@, chips: decls.chips@ };
    let chip = &decls.chips[d];
    let n = chip.parts.len();
    let mut l = Linked { callees: Vec::new(), inputs: Vec::new(), outputs: Vec::new() };
    let mut q: usize = 0;
    while q < n
        invariant
            dc == (Decls { prims: prims@, chips: decls.chips@ }),
            d < dc.chips.len(),
            *chip == dc.chips[d as int],
            n == chip.parts@.len(),
            q <= n,
            l.callees@.len() == q,
            forall|h: int| 0 <= h < q ==> #[trigger] dc.part_ok(d as int, h),
            l.inputs@.len() == q,
            l.outputs@.len() == q,
            forall|h: int|
                0 <= h < q ==> {
                    &&& dc.callee(d as int, h) == Some(#[trigger] l.callees@[h])
                    &&& l.inputs@[h]@ == dc.inputs(d as int, h)
                    &&& l.outputs@[h]@ == dc.outputs(d as int, h)
                    &&& dc.part_ok(d as int, h)
                    &&& match l.callees@[h] {
                        Callee::Prim(i) => i < dc.prims.len(),
                        Callee::Chip(j) => j < dc.chips.len(),
                    }
                },
        decreases n - q,
    {
        let part = &chip.parts[q];
        let c = match resolve_exec(prims, &decls.chips, part.chip_name) {
            Some(c) => c,
            None => {
                proof {
                    assert(*part == dc.part(d as int, q as int));
                    assert(dc.callee(d as int, q as int) is None);
                }
                return Err(CompileError::UnknownChip { chip: chip.name, name: part.chip_name });
            },
        };
        let (cins, couts) = match c {
            Callee::Prim(i) => (&prims[i].ins, &prims[i].outs),
            Callee::Chip(j) => (&decls.chips[j].ins, &decls.chips[j].outs),
        };
        if !arity_ok(&part.name_map, cins, couts) {
            let missing = missing_ports(&part.name_map, cins, couts);
            let extra = extra_names(&part.name_map, cins, couts);
            proof {
                assert(*part == dc.part(d as int, q as int));
                assert(!dc.part_ok(d as int, q as int));
                assert(0 <= d < dc.chips.len() && dc.chips[d as int].name == chip.name && q
                    < dc.chips[d as int].parts@.len() && !dc.part_ok(d as int, q as int));
            }
            return Err(CompileError::PortArityMismatch { chip: chip.name, part: q, missing, extra });
        }
        let (a, b) = split(&part.name_map, cins);
        proof {
            assert(*part == dc.part(d as int, q as int));
            assert(dc.part_ok(d as int, q as int));
        }
        l.callees.push(c);
        l.inputs.push(a);
        l.outputs.push(b);
        q = q + 1;
    }
    proof {
        assert(dc.chip_parts_ok(d as int));
    }
    // every wire written, once per connection
    let mut written: Vec<u32> = Vec::new();
    let mut h: usize = 0;
    while h < n
        invariant
            dc == (Decls { prims: prims@, chips: decls.chips@ }),
            d < dc.chips.len(),
            *chip == dc.chips[d as int],
            n == chip.parts@.len(),
            l.matches(dc, d as int),
            h <= n,
            written@ == dc.writes_upto(d as int, h as int),
        decreases n - h,
    {
        let outs = &l.outputs[h];
        let mut t: usize = 0;
        while t < outs.len()
            invariant
                h < n,
                dc == (Decls { prims: prims@, chips: decls.chips@ }),
                d < dc.chips.len(),
                n == dc.chips[d as int].parts@.len(),
                l.matches(dc, d as int),
                *outs == l.outputs@[h as int],
                t <= outs@.len(),
                written@ == dc.writes_upto(d as int, h as int) + wire_list(outs@).take(t as int),
            decreases outs@.len() - t,
        {
            written.push(outs[t].1);
            proof {
                assert(wire_list(outs@).take(t + 1) =~= wire_list(outs@).take(t as int).push(
                    outs@[t as int].1,
                ));
            }
            t = t + 1;
        }
        proof {
            assert(wire_list(outs@).take(t as int) =~= wire_list(outs@));
            assert(outs@ == dc.outputs(d as int, h as int));
        }
        h = h + 1;
    }
    proof {
        assert(written@ == dc.all_writes(d as int));
    }
    match find_repeat(&written) {
        Some(w) => {
            proof {
                assert(dc.chip_parts_ok(d as int));
            }
            return Err(CompileError::MultipleDrivers { chip: chip.name, wire: w });
        },
        None => {},
    }
    let mut s: usize = 0;
    while s < written.len()
        invariant
            s <= written@.len(),
            forall|i: int| 0 <= i < s ==> !chip.ins@.contains(#[trigger] written@[i]),
            dc == (Decls { prims: prims@, chips: decls.chips@ }),
            d < dc.chips.len(),
            *chip == dc.chips[d as int],
            n == chip.parts@.len(),
            l.matches(dc, d as int),
            written@ == dc.all_writes(d as int),
            written@.no_duplicates(),
        decreases written@.len() - s,
    {
        if contains_id(&chip.ins, written[s]) {
            proof {
                assert(written@.contains(written@[s as int]));
                assert(dc.chip_parts_ok(d as int));
            }
            return Err(CompileError::InputShadowed { chip: chip.name, wire: written[s] });
        }
        s = s + 1;
    }
    // every wire read is driven
    let mut k: usize = 0;
    while k < n
        invariant
            dc == (Decls { prims: prims@, chips: decls.chips@ }),
            d < dc.chips.len(),
            *chip == dc.chips[d as int],
            n == chip.parts@.len(),
            l.matches(dc, d as int),
            written@ == dc.all_writes(d as int),
            k <= n,
            forall|kk: int, w: u32|
                0 <= kk < k && wires(dc.inputs(d as int, kk)).contains(w) ==> dc.driven(d as int, w),
            written@.no_duplicates(),
            forall|i: int| 0 <= i < written@.len() ==> !chip.ins@.contains(#[trigger] written@[i]),
        decreases n - k,
    {
        let ins_k = &l.inputs[k];
        let mut t: usize = 0;
        while t < ins_k.len()
            invariant
                k < n,
                dc == (Decls { prims: prims@, chips: decls.chips@ }),
                d < dc.chips.len(),
                n == chip.parts@.len(),
                l.matches(dc, d as int),
                *ins_k == l.inputs@[k as int],
                written@ == dc.all_writes(d as int),
                *chip == dc.chips[d as int],
                t <= ins_k@.len(),
                forall|i: int| 0 <= i < t ==> dc.driven(d as int, #[trigger] ins_k@[i].1),
                written@.no_duplicates(),
                forall|i: int| 0 <= i < written@.len() ==> !chip.ins@.contains(#[trigger] written@[i]),
            decreases ins_k@.len() - t,
        {
            let w = ins_k[t].1;
            if !contains_id(&chip.ins, w) && !contains_id(&written, w) {
                proof {
                    lemma_wires_index(ins_k@, w);
                    assert(ins_k@[t as int].1 == w);
                    assert(dc.read(d as int, w));
                    assert(dc.chip_parts_ok(d as int));
                    assert forall|x: u32| dc.all_writes(d as int).contains(x) implies !dc.chips[d as int].ins@.contains(x) by {
                        let i = choose|i: int| 0 <= i < written@.len() && written@[i] == x;
                    }
                }
                return Err(CompileError::UndrivenWire { chip: chip.name, wire: w });
            }
            t = t + 1;
        }
        proof {
            assert forall|w: u32| wires(dc.inputs(d as int, k as int)).contains(w) implies dc.driven(
                d as int,
                w,
            ) by {
                lemma_wires_index(ins_k@, w);
            }
        }
        k = k + 1;
    }
    let mut o: usize = 0;
    while o < chip.outs.len()
        invariant
            o <= chip.outs@.len(),
            written@ == dc.all_writes(d as int),
            *chip == dc.chips[d as int],
            forall|i: int| 0 <= i < o ==> dc.driven(d as int, #[trigger] chip.outs@[i]),
            dc == (Decls { prims: prims@, chips: decls.chips@ }),
            d < dc.chips.len(),
            n == chip.parts@.len(),
            l.matches(dc, d as int),
            forall|kk: int, w: u32|
                0 <= kk < n && wires(dc.inputs(d as int, kk)).contains(w) ==> dc.driven(d as int, w),
            written@.no_duplicates(),
            forall|i: int| 0 <= i < written@.len() ==> !chip.ins@.contains(#[trigger] written@[i]),
        decreases chip.outs@.len() - o,
    {
        let w = chip.outs[o];
        if !contains_id(&chip.ins, w) && !contains_id(&written, w) {
            proof {
                assert(chip.outs@.contains(w));
                assert(dc.read(d as int, w));
                assert(dc.chip_parts_ok(d as int));
                assert forall|x: u32| dc.all_writes(d as int).contains(x) implies !dc.chips[d as int].ins@.contains(x) by {
                    let i = choose|i: int| 0 <= i < written@.len() && written@[i] == x;
                }
            }
            return Err(CompileError::UndrivenWire { chip: chip.name, wire: w });
        }
        o = o + 1;
    }
    proof {
        assert forall|w: u32| dc.read(d as int, w) implies dc.driven(d as int, w) by {
            if chip.outs@.contains(w) {
                let i = choose|i: int| 0 <= i < chip.outs@.len() && chip.outs@[i] == w;
            }
        }
        assert forall|w: u32| dc.all_writes(d as int).contains(w) implies !dc.chips[d as int].ins@.contains(w) by {
            let i = choose|i: int| 0 <= i < written@.len() && written@[i] == w;
        }
    }
    Ok(l)
}


impl Decls {
    /// Everything that compiling checks holds of the declarations.
    pub open spec fn valid(&self) -> bool {
        &&& self.names_unique()
        &&& forall|d: int| 0 <= d < self.chips.len() ==> #[trigger] self.chip_ok(d)
        &&& order_of(self.chip_deps()) is Some
        &&& forall|d: int|
            0 <= d < self.chips.len() ==> (#[trigger] order_of(self.part_deps(d))) is Some
    }

    /// The execution order of the parts of chip `d`.
    pub open spec fn part_order(&self, d: int) -> Seq<usize> {
        order_of(self.part_deps(d)).unwrap()
    }
}

/// A compiled callee stands for a resolved declaration callee, where
/// `corder[c]` is the declaration index of compiled chip `c`.
pub open spec fn callee_matches(c: Callee, dcal: Option<Callee>, corder: Seq<usize>) -> bool {
    match (c, dcal) {
        (Callee::Prim(a), Some(Callee::Prim(b))) => a == b,
        (Callee::Chip(a), Some(Callee::Chip(b))) => a < corder.len() && corder[a as int] == b,
        _ => false,
    }
}

/// Compiled chip `ci` is declaration `corder[ci]` with its parts in their
/// execution order.
pub open spec fn chip_built(chips: Seq<Chip>, dc: Decls, corder: Seq<usize>, ci: int) -> bool {
    let d = corder[ci] as int;
    let porder = dc.part_order(d);
    let chip = chips[ci];
    &&& chip.name == dc.chips[d].name
    &&& chip.ins@ == dc.chips[d].ins@
    &&& chip.outs@ == dc.chips[d].outs@
    &&& chip.parts@.len() == porder.len()
    &&& forall|k: int|
        0 <= k < porder.len() ==> {
            &&& (#[trigger] chip.parts@[k]).inputs@ == dc.inputs(d, porder[k] as int)
            &&& chip.parts@[k].outputs@ == dc.outputs(d, porder[k] as int)
            &&& callee_matches(chip.parts@[k].callee, dc.callee(d, porder[k] as int), corder)
        }
}

/// `p` is what compiling the declarations `dc` gives.
pub open spec fn compiled_from(p: Program, dc: Decls) -> bool {
    &&& order_of(dc.chip_deps()) is Some
    &&& is_order(dc.chip_deps(), order_of(dc.chip_deps()).unwrap())
    &&& p.prims@ == dc.prims
    &&& p.chips@.len() == dc.chips.len()
    &&& forall|ci: int|
        0 <= ci < p.chips@.len() ==> #[trigger] chip_built(p.chips@, dc, order_of(dc.chip_deps()).unwrap(), ci)
}

fn copy_ids(v: &Vec<u32>) -> (r: Vec<u32>)
    ensures
        r@ == v@,
{
    let mut r: Vec<u32> = Vec::new();
    let mut i: usize = 0;
    while i < v.len()
        invariant
            i <= v@.len(),
            r@ == v@.take(i as int),
        decreases v@.len() - i,
    {
        r.push(v[i]);
        proof {
            assert(v@.take(i + 1) =~= v@.take(i as int).push(v@[i as int]));
        }
        i = i + 1;
    }
    proof {
        assert(v@.take(i as int) =~= v@);
    }
    r
}

fn copy_pairs(v: &Vec<(u32, u32)>) -> (r: Vec<(u32, u32)>)
    ensures
        r@ == v@,
{
    let mut r: Vec<(u32, u32)> = Vec::new();
    let mut i: usize = 0;
    while i < v.len()
        invariant
            i <= v@.len(),
            r@ == v@.take(i as int),
        decreases v@.len() - i,
    {
        r.push(v[i]);
        proof {
            assert(v@.take(i + 1) =~= v@.take(i as int).push(v@[i as int]));
        }
        i = i + 1;
    }
    proof {
        assert(v@.take(i as int) =~= v@);
    }
    r
}

/// Checks that chip names are unique and each chip's ports are well declared.
fn check_ports(decls: &ast::Program, prims: &Vec<Primitive>) -> (r: Result<(), CompileError>)
    ensures
        match r {
            Ok(_) => (Decls { prims: prims@, chips: decls.chips@ }).names_unique() && forall|d: int|
                0 <= d < decls.chips@.len() ==> #[trigger] (Decls {
                    prims: prims@,
                    chips: decls.chips@,
                }).ports_ok(d),
            Err(e) => (Decls { prims: prims@, chips: decls.chips@ }).error_holds(e),
        },
        r matches Err(e) ==> !(e is CombinationalCycle),
{
    let ghost dc = Decls { prims: prims@, chips: decls.chips@ };
    let n = decls.chips.len();
    let mut d: usize = 0;
    while d < n
        invariant
            dc == (Decls { prims: prims@, chips: decls.chips@ }),
            n == dc.chips.len(),
            d <= n,
            forall|a: int, b: int| 0 <= a < b < d ==> dc.chips[a].name != dc.chips[b].name,
            forall|e: int| 0 <= e < d ==> #[trigger] dc.ports_ok(e),
        decreases n - d,
    {
        let chip = &decls.chips[d];
        let mut a: usize = 0;
        while a < d
            invariant
                d < n,
                n == dc.chips.len(),
                dc == (Decls { prims: prims@, chips: decls.chips@ }),
                *chip == dc.chips[d as int],
                a <= d,
                forall|x: int| 0 <= x < a ==> dc.chips[x].name != chip.name,
            decreases d - a,
        {
            if decls.chips[a].name == chip.name {
                proof {
                    assert(dc.chips[a as int].name == chip.name);
                }
                return Err(CompileError::DuplicateChip { chip: chip.name });
            }
            a = a + 1;
        }
        match find_repeat(&chip.ins) {
            Some(x) => {
                return Err(CompileError::DuplicatePort { chip: chip.name, port: x });
            },
            None => {},
        }
        match find_repeat(&chip.outs) {
            Some(x) => {
                return Err(CompileError::DuplicatePort { chip: chip.name, port: x });
            },
            None => {},
        }
        let mut i: usize = 0;
        while i < chip.ins.len()
            invariant
                i <= chip.ins@.len(),
                forall|x: int| 0 <= x < i ==> !chip.outs@.contains(#[trigger] chip.ins@[x]),
                d < n,
                n == dc.chips.len(),
                dc == (Decls { prims: prims@, chips: decls.chips@ }),
                *chip == dc.chips[d as int],
            decreases chip.ins@.len() - i,
        {
            if contains_id(&chip.outs, chip.ins[i]) {
                proof {
                    assert(chip.ins@.contains(chip.ins@[i as int]));
                }
                return Err(CompileError::PortNameCollision { chip: chip.name, port: chip.ins[i] });
            }
            i = i + 1;
        }
        proof {
            assert forall|x: u32| chip.ins@.to_set().contains(x) implies !chip.outs@.to_set().contains(x) by {
                let h = choose|h: int| 0 <= h < chip.ins@.len() && chip.ins@[h] == x;
            }
            assert(dc.ports_ok(d as int));
        }
        d = d + 1;
    }
    Ok(())
}


/// For each declared chip, the declared chips that its parts instantiate.
fn chip_dep_lists(links: &Vec<Linked>, decls: &ast::Program, prims: &Vec<Primitive>) -> (r: Vec<Vec<usize>>)
    requires
        links@.len() == decls.chips@.len(),
        forall|d: int|
            0 <= d < links@.len() ==> (#[trigger] links@[d]).matches(
                Decls { prims: prims@, chips: decls.chips@ },
                d,
            ),
    ensures
        dep_sets(r@) == (Decls { prims: prims@, chips: decls.chips@ }).chip_deps(),
        r@.len() == decls.chips@.len(),
        forall|j: int, t: int|
            0 <= j < r@.len() && 0 <= t < r@[j]@.len() ==> (#[trigger] r@[j]@[t] as int) < r@.len(),
{
    let ghost dc = Decls { prims: prims@, chips: decls.chips@ };
    let mut r: Vec<Vec<usize>> = Vec::new();
    let mut d: usize = 0;
    while d < links.len()
        invariant
            dc == (Decls { prims: prims@, chips: decls.chips@ }),
            links@.len() == dc.chips.len(),
            forall|e: int| 0 <= e < links@.len() ==> (#[trigger] links@[e]).matches(dc, e),
            d <= links@.len(),
            r@.len() == d,
            forall|e: int| 0 <= e < d ==> (#[trigger] r@[e])@.to_set() == dc.chip_deps()[e],
            forall|e: int, t: int|
                0 <= e < d && 0 <= t < r@[e]@.len() ==> (#[trigger] r@[e]@[t] as int) < links@.len(),
        decreases links@.len() - d,
    {
        let l = &links[d];
        proof {
            assert(l.matches(dc, d as int));
        }
        let mut v: Vec<usize> = Vec::new();
        let mut q: usize = 0;
        while q < l.callees.len()
            invariant
                l.matches(dc, d as int),
                d < dc.chips.len(),
                q <= l.callees@.len(),
                forall|x: usize|
                    v@.contains(x) <==> exists|qq: int|
                        0 <= qq < q && l.callees@[qq] == Callee::Chip(x),
                forall|t: int| 0 <= t < v@.len() ==> (#[trigger] v@[t] as int) < dc.chips.len(),
            decreases l.callees@.len() - q,
        {
            match l.callees[q] {
                Callee::Chip(j) => {
                    let ghost old_v = v@;
                    v.push(j);
                    proof {
                        assert forall|x: usize|
                            v@.contains(x) <==> exists|qq: int|
                                0 <= qq < q + 1 && l.callees@[qq] == Callee::Chip(x) by {
                            if v@.contains(x) && x != j {
                                let i = choose|i: int| 0 <= i < v@.len() && v@[i] == x;
                                assert(old_v[i] == x);
                                assert(old_v.contains(x));
                            }
                            if x == j {
                                assert(v@[old_v.len() as int] == x);
                                assert(l.callees@[q as int] == Callee::Chip(x));
                            }
                            if exists|qq: int| 0 <= qq < q + 1 && l.callees@[qq] == Callee::Chip(x) {
                                let qq = choose|qq: int| 0 <= qq < q + 1 && l.callees@[qq] == Callee::Chip(x);
                                if qq < q {
                                    assert(old_v.contains(x));
                                    let i = choose|i: int| 0 <= i < old_v.len() && old_v[i] == x;
                                    assert(v@[i] == x);
                                }
                            }
                        }
                    }
                },
                Callee::Prim(_) => {},
            }
            q = q + 1;
        }
        proof {
            assert(v@.to_set() =~= dc.chip_deps()[d as int]) by {
                assert forall|x: usize| v@.to_set().contains(x) <==> dc.chip_deps()[d as int].contains(x) by {
                    if v@.to_set().contains(x) {
                        let qq = choose|qq: int| 0 <= qq < q && l.callees@[qq] == Callee::Chip(x);
                        assert(dc.callee(d as int, qq) == Some(Callee::Chip(x)));
                    }
                    if dc.chip_deps()[d as int].contains(x) {
                        let qq = choose|qq: int|
                            0 <= qq < dc.chips[d as int].parts@.len() && dc.callee(d as int, qq) == Some(
                                Callee::Chip(x),
                            );
                        assert(l.callees@[qq] == Callee::Chip(x));
                    }
                }
            }
        }
        r.push(v);
        d = d + 1;
    }
    proof {
        assert(dep_sets(r@) =~= dc.chip_deps());
    }
    r
}

/// For each part of chip `d`, the parts that write a wire it reads.
fn part_dep_lists(l: &Linked, decls: &ast::Program, prims: &Vec<Primitive>, d: usize) -> (r: Vec<Vec<usize>>)
    requires
        d < decls.chips@.len(),
        l.matches(Decls { prims: prims@, chips: decls.chips@ }, d as int),
    ensures
        dep_sets(r@) == (Decls { prims: prims@, chips: decls.chips@ }).part_deps(d as int),
        forall|j: int, t: int|
            0 <= j < r@.len() && 0 <= t < r@[j]@.len() ==> (#[trigger] r@[j]@[t] as int) < r@.len(),
{
    let ghost dc = Decls { prims: prims@, chips: decls.chips@ };
    let n = l.inputs.len();
    let mut r: Vec<Vec<usize>> = Vec::new();
    let mut k: usize = 0;
    while k < n
        invariant
            dc == (Decls { prims: prims@, chips: decls.chips@ }),
            d < dc.chips.len(),
            l.matches(dc, d as int),
            n == dc.chips[d as int].parts@.len(),
            k <= n,
            r@.len() == k,
            forall|e: int| 0 <= e < k ==> (#[trigger] r@[e])@.to_set() == dc.part_deps(d as int)[e],
            forall|e: int, t: int|
                0 <= e < k && 0 <= t < r@[e]@.len() ==> (#[trigger] r@[e]@[t] as int) < n,
        decreases n - k,
    {
        let mut v: Vec<usize> = Vec::new();
        let mut h: usize = 0;
        while h < n
            invariant
                dc == (Decls { prims: prims@, chips: decls.chips@ }),
                d < dc.chips.len(),
                l.matches(dc, d as int),
                n == dc.chips[d as int].parts@.len(),
                k < n,
                h <= n,
                forall|x: usize| v@.contains(x) <==> (x < h && dc.part_dep(d as int, k as int, x as int)),
                forall|t: int| 0 <= t < v@.len() ==> (#[trigger] v@[t] as int) < h,
            decreases n - h,
        {
            let ghost old_v = v@;
            proof {
                assert(l.inputs@[k as int]@ == dc.inputs(d as int, k as int));
                assert(l.outputs@[h as int]@ == dc.outputs(d as int, h as int));
            }
            if shares_wire(&l.inputs[k], &l.outputs[h]) {
                v.push(h);
                proof {
                    assert forall|x: usize|
                        v@.contains(x) <==> (x < h + 1 && dc.part_dep(d as int, k as int, x as int)) by {
                        if v@.contains(x) && x != h {
                            let i = choose|i: int| 0 <= i < v@.len() && v@[i] == x;
                            assert(old_v[i] == x);
                            assert(old_v.contains(x));
                        }
                        if x == h {
                            assert(v@[old_v.len() as int] == x);
                        }
                        if x < h && dc.part_dep(d as int, k as int, x as int) {
                            assert(old_v.contains(x));
                            let i = choose|i: int| 0 <= i < old_v.len() && old_v[i] == x;
                            assert(v@[i] == x);
                        }
                    }
                }
            }
            h = h + 1;
        }
        proof {
            assert(v@.to_set() =~= dc.part_deps(d as int)[k as int]);
        }
        r.push(v);
        k = k + 1;
    }
    proof {
        assert(dep_sets(r@) =~= dc.part_deps(d as int));
    }
    r
}

proof fn lemma_produced_has(p: Program, ci: int, k2: int, k: int, w: u32)
    requires
        0 <= k2 < k,
        wires(p.chips@[ci].parts@[k2].outputs@).contains(w),
    ensures
        p.produced(ci, k).contains(w),
    decreases k,
{
    if k2 < k - 1 {
        lemma_produced_has(p, ci, k2, k - 1, w);
    }
}

proof fn lemma_writes_upto(dc: Decls, d: int, h: int, w: u32)
    requires
        dc.writes_upto(d, h).contains(w),
    ensures
        exists|h2: int| 0 <= h2 < h && wires(dc.outputs(d, h2)).contains(w),
    decreases h,
{
    if h > 0 {
        let a = dc.writes_upto(d, h - 1);
        let b = wire_list(dc.outputs(d, h - 1));
        let i = choose|i: int| 0 <= i < (a + b).len() && (a + b)[i] == w;
        if i < a.len() {
            assert(a[i] == w);
            lemma_writes_upto(dc, d, h - 1, w);
        } else {
            assert(b[i - a.len()] == w);
            lemma_wire_list(dc.outputs(d, h - 1), w);
        }
    }
}

proof fn lemma_prim_disjoint(pr: Primitive)
    requires
        pr.wf(),
    ensures
        pr.ins@.to_set().disjoint(pr.outs@.to_set()),
{
    let s = pr.ins@ + pr.outs@;
    assert forall|x: u32| pr.ins@.to_set().contains(x) implies !pr.outs@.to_set().contains(x) by {
        let i = choose|i: int| 0 <= i < pr.ins@.len() && pr.ins@[i] == x;
        if pr.outs@.to_set().contains(x) {
            let j = choose|j: int| 0 <= j < pr.outs@.len() && pr.outs@[j] == x;
            assert(s[i] == s[pr.ins@.len() + j]);
        }
    }
}

/// What the well-formedness proof of a compiled program relies on.
spec fn wf_premises(p: Program, dc: Decls) -> bool {
    &&& compiled_from(p, dc)
    &&& dc.valid()
    &&& dc.prims.len() <= usize::MAX
    &&& dc.chips.len() <= usize::MAX
    &&& forall|d: int| 0 <= d < dc.chips.len() ==> (#[trigger] dc.chips[d]).parts@.len() <= usize::MAX
    &&& forall|i: int| 0 <= i < dc.prims.len() ==> (#[trigger] dc.prims[i]).wf()
    &&& is_order(dc.chip_deps(), order_of(dc.chip_deps()).unwrap())
    &&& forall|d: int| 0 <= d < dc.chips.len() ==> is_order(dc.part_deps(d), #[trigger] dc.part_order(d))
}

proof fn lemma_part_wf(p: Program, dc: Decls, ci: int, k: int)
    requires
        wf_premises(p, dc),
        0 <= ci < p.chips@.len(),
        0 <= k < p.chips@[ci].parts@.len(),
    ensures
        p.part_wf(ci, k),
{
    let corder = order_of(dc.chip_deps()).unwrap();
    assert(chip_built(p.chips@, dc, corder, ci));
    let d = corder[ci] as int;
    assert(0 <= d < dc.chips.len());
    assert(dc.chip_ok(d));
    let porder = dc.part_order(d);
    assert(is_order(dc.part_deps(d), porder));
    let q = porder[k] as int;
    assert(0 <= q < dc.chips[d].parts@.len());
    let part = p.chips@[ci].parts@[k];
    assert(dc.part_ok(d, q));
    let c0 = dc.callee(d, q).unwrap();
    lemma_first_prim(dc.prims, dc.part(d, q).chip_name, 0);
    lemma_first_chip(dc.chips, dc.part(d, q).chip_name, 0);
    let ins0 = decl_ins(dc.prims, dc.chips, c0);
    let outs0 = decl_outs(dc.prims, dc.chips, c0);
    let pairs = dc.part(d, q).name_map@;
    lemma_select_ports(pairs, ins0.to_set());
    lemma_ports_keys(pairs);
    match c0 {
        Callee::Prim(b) => {
            lemma_prim_disjoint(dc.prims[b as int]);
        },
        Callee::Chip(b) => {
            assert(dc.chip_ok(b as int));
            // the callee stands before this chip
            assert(dc.chip_deps()[d].contains(b));
            assert(placed_before(corder, ci, b));
            let h = choose|h: int| 0 <= h < ci && corder[h] == b;
            if let Callee::Chip(a) = part.callee {
                assert(corder[a as int] == b);
                assert(a as int == h);
                assert(chip_built(p.chips@, dc, corder, a as int));
            }
        },
    }
    assert(ports(part.inputs@) =~= p.callee_ins(part.callee).to_set());
    assert(ports(part.outputs@) =~= p.callee_outs(part.callee).to_set());
    assert forall|w: u32| wires(part.inputs@).contains(w) implies p.available(ci, k).contains(w) by {
        assert(dc.read(d, w));
        assert(dc.driven(d, w));
        if !dc.chips[d].ins@.contains(w) {
            lemma_writes_upto(dc, d, dc.chips[d].parts@.len() as int, w);
            let h = choose|h: int|
                0 <= h < dc.chips[d].parts@.len() && wires(dc.outputs(d, h)).contains(w);
            assert(dc.part_dep(d, q, h));
            assert(dc.part_deps(d)[q].contains(h as usize));
            assert(placed_before(porder, k, h as usize));
            let k2 = choose|k2: int| 0 <= k2 < k && porder[k2] == h as usize;
            assert(p.chips@[ci].parts@[k2].outputs@ == dc.outputs(d, h));
            lemma_produced_has(p, ci, k2, k, w);
        }
    }
}

proof fn lemma_chip_wf(p: Program, dc: Decls, ci: int)
    requires
        wf_premises(p, dc),
        0 <= ci < p.chips@.len(),
    ensures
        p.chip_wf(ci),
{
    let corder = order_of(dc.chip_deps()).unwrap();
    assert(chip_built(p.chips@, dc, corder, ci));
    let d = corder[ci] as int;
    assert(dc.chip_ok(d));
    let porder = dc.part_order(d);
    assert(is_order(dc.part_deps(d), porder));
    let n = p.chips@[ci].parts@.len() as int;
    assert forall|k: int| 0 <= k < n implies #[trigger] p.part_wf(ci, k) by {
        lemma_part_wf(p, dc, ci, k);
    }
    assert forall|w: u32| p.chips@[ci].outs@.to_set().contains(w) implies p.available(ci, n).contains(w) by {
        assert(dc.read(d, w));
        if !dc.chips[d].ins@.contains(w) {
            lemma_writes_upto(dc, d, dc.chips[d].parts@.len() as int, w);
            let h = choose|h: int|
                0 <= h < dc.chips[d].parts@.len() && wires(dc.outputs(d, h)).contains(w);
            lemma_order_covers(porder, n as nat, h as usize);
            let k2 = choose|k2: int| 0 <= k2 < porder.len() && porder[k2] == h as usize;
            assert(p.chips@[ci].parts@[k2].outputs@ == dc.outputs(d, h));
            lemma_produced_has(p, ci, k2, n, w);
        }
    }
}

proof fn lemma_compiled_wf(p: Program, dc: Decls)
    requires
        wf_premises(p, dc),
    ensures
        p.wf(),
{
    assert forall|ci: int| 0 <= ci < p.chips@.len() implies #[trigger] p.chip_wf(ci) by {
        lemma_chip_wf(p, dc, ci);
    }
}


/// No compile error is claimed of valid declarations.
proof fn lemma_error_invalid(dc: Decls, e: CompileError)
    requires
        dc.error_holds(e),
        dc.chips.len() <= usize::MAX,
        e is CombinationalCycle ==> forall|d: int|
            0 <= d < dc.chips.len() ==> (#[trigger] dc.chips[d]).parts@.len() <= usize::MAX,
    ensures
        !dc.valid(),
{
    if dc.valid() {
    match e {
        CompileError::DuplicatePort { chip, port } => {
            let d = choose|d: int|
                0 <= d < dc.chips.len() && dc.chips[d].name == chip && (repeated(
                    dc.chips[d].ins@,
                    port,
                ) || repeated(dc.chips[d].outs@, port));
            assert(dc.chip_ok(d));
        },
        CompileError::PortNameCollision { chip, port } => {
            let d = choose|d: int|
                0 <= d < dc.chips.len() && dc.chips[d].name == chip && dc.chips[d].ins@.contains(port)
                    && dc.chips[d].outs@.contains(port);
            assert(dc.chip_ok(d));
            assert(dc.chips[d].ins@.to_set().contains(port));
        },
        CompileError::DuplicateChip { chip } => {},
        CompileError::UnknownChip { chip, name } => {
            let (d, q) = choose|d: int, q: int|
                0 <= d < dc.chips.len() && dc.chips[d].name == chip && 0 <= q
                    < dc.chips[d].parts@.len() && dc.part(d, q).chip_name == name && dc.callee(
                    d,
                    q,
                ) is None;
            assert(dc.chip_ok(d));
            assert(dc.part_ok(d, q));
        },
        CompileError::PortArityMismatch { chip, part, .. } => {
            let d = choose|d: int|
                0 <= d < dc.chips.len() && (#[trigger] dc.chips[d]).name == chip && part
                    < dc.chips[d].parts@.len() && !dc.part_ok(d, part as int);
            assert(dc.chip_ok(d));
        },
        CompileError::MultipleDrivers { chip, wire } => {
            let d = choose|d: int|
                0 <= d < dc.chips.len() && dc.chips[d].name == chip && dc.chip_parts_ok(d)
                    && repeated(dc.all_writes(d), wire);
            assert(dc.chip_ok(d));
        },
        CompileError::InputShadowed { chip, wire } => {
            let d = choose|d: int|
                0 <= d < dc.chips.len() && dc.chips[d].name == chip && dc.chip_parts_ok(d)
                    && dc.all_writes(d).contains(wire) && dc.chips[d].ins@.contains(wire);
            assert(dc.chip_ok(d));
        },
        CompileError::UndrivenWire { chip, wire } => {
            let d = choose|d: int|
                0 <= d < dc.chips.len() && dc.chips[d].name == chip && dc.chip_parts_ok(d)
                    && dc.read(d, wire) && !dc.driven(d, wire);
            assert(dc.chip_ok(d));
        },
        CompileError::CombinationalCycle { chip, parts } => {
            let d = choose|d: int|
                0 <= d < dc.chips.len() && dc.chips[d].name == chip && dc.chip_parts_ok(d)
                    && (forall|o: Seq<usize>| !is_order(dc.part_deps(d), o)) && waits_on_itself(
                    dc.part_deps(d),
                    parts@,
                );
            assert(order_of(dc.part_deps(d)) is Some);
            assert(dc.chips[d].parts@.len() <= usize::MAX);
            crate::topo::lemma_order_is_order(dc.part_deps(d));
        },
        CompileError::RecursiveChipDefinition { .. } => {
            crate::topo::lemma_order_is_order(dc.chip_deps());
        },
    }
    }
}

impl Program {
    /// Checks a set of chip declarations against each other and against the
    /// primitives `prims`, and compiles them: chips are ordered so that each
    /// only instantiates chips before it, and the parts of each chip are put in
    /// an order in which every wire is written before it is read.
    pub fn compile(decls: &ast::Program, prims: Vec<Primitive>) -> (r: Result<Program, CompileError>)
        requires
            forall|i: int| 0 <= i < prims@.len() ==> (#[trigger] prims@[i]).wf(),
        ensures
            match r {
                Ok(p) => p.wf() && compiled_from(p, Decls { prims: prims@, chips: decls.chips@ }),
                Err(e) => (Decls { prims: prims@, chips: decls.chips@ }).error_holds(e),
            },
            r is Ok <==> (Decls { prims: prims@, chips: decls.chips@ }).valid(),
    {
        let ghost dc = Decls { prims: prims@, chips: decls.chips@ };
        let n = decls.chips.len();
        // reading the lengths tells the proofs that they fit in a usize
        let _np = prims.len();
        match check_ports(decls, &prims) {
            Ok(_) => {},
            Err(e) => {
                proof {
                    lemma_error_invalid(dc, e);
                }
                return Err(e);
            },
        }
        let mut links: Vec<Linked> = Vec::new();
        let mut d: usize = 0;
        while d < n
            invariant
                dc == (Decls { prims: prims@, chips: decls.chips@ }),
                n == dc.chips.len(),
                d <= n,
                links@.len() == d,
                forall|e: int| 0 <= e < d ==> (#[trigger] links@[e]).matches(dc, e),
                forall|e: int| 0 <= e < d ==> #[trigger] dc.wiring_ok(e),
                forall|e: int| 0 <= e < d ==> (#[trigger] dc.chips[e]).parts@.len() <= usize::MAX,
            decreases n - d,
        {
            let _parts = decls.chips[d].parts.len();
            match link_chip(decls, &prims, d) {
                Ok(l) => links.push(l),
                Err(e) => {
                    proof {
                        if dc.valid() {
                            lemma_error_invalid(dc, e);
                        }
                    }
                    return Err(e);
                },
            }
            d = d + 1;
        }
        proof {
            assert forall|e: int| 0 <= e < n implies #[trigger] dc.chip_ok(e) by {
                assert(links@[e].matches(dc, e));
                assert(dc.wiring_ok(e));
            }
        }
        let cdeps = chip_dep_lists(&links, decls, &prims);
        let corder = match topo_sort(&cdeps) {
            Ok(o) => o,
            Err(rest) => {
                let chip = decls.chips[rest[0]].name;
                proof {
                    assert forall|e: int| 0 <= e < n implies #[trigger] dc.chip_parts_ok(e) by {
                        assert(links@[e].matches(dc, e));
                    }
                    assert(waits_on_itself(dc.chip_deps(), rest@));
                }
                return Err(CompileError::RecursiveChipDefinition { chip });
            },
        };
        let mut porders: Vec<Vec<usize>> = Vec::new();
        let mut d: usize = 0;
        while d < n
            invariant
                dc == (Decls { prims: prims@, chips: decls.chips@ }),
                n == dc.chips.len(),
                d <= n,
                links@.len() == n,
                forall|e: int| 0 <= e < n ==> (#[trigger] links@[e]).matches(dc, e),
                forall|e: int| 0 <= e < n ==> #[trigger] dc.chip_ok(e),
                porders@.len() == d,
                forall|e: int|
                    0 <= e < d ==> order_of(dc.part_deps(e)) == Some((#[trigger] porders@[e])@),
                forall|e: int| 0 <= e < d ==> is_order(dc.part_deps(e), (#[trigger] porders@[e])@),
                forall|e: int| 0 <= e < n ==> (#[trigger] dc.chips[e]).parts@.len() <= usize::MAX,
                order_of(dc.chip_deps()) == Some(corder@),
            decreases n - d,
        {
            let pd = part_dep_lists(&links[d], decls, &prims, d);
            match topo_sort(&pd) {
                Ok(o) => porders.push(o),
                Err(rest) => {
                    let e = CompileError::CombinationalCycle { chip: decls.chips[d].name, parts: rest };
                    proof {
                        assert(links@[d as int].matches(dc, d as int));
                        assert(dc.chip_parts_ok(d as int));
                        assert(dc.chip_ok(d as int));
                        lemma_error_invalid(dc, e);
                    }
                    return Err(e);
                },
            }
            d = d + 1;
        }
        // position of each declared chip in the chip order
        let mut pos: Vec<usize> = Vec::new();
        let mut i: usize = 0;
        while i < n
            invariant
                i <= n,
                pos@.len() == i,
            decreases n - i,
        {
            pos.push(0);
            i = i + 1;
        }
        let mut ci: usize = 0;
        while ci < n
            invariant
                n == dc.chips.len(),
                dc == (Decls { prims: prims@, chips: decls.chips@ }),
                is_order(dc.chip_deps(), corder@),
                ci <= n,
                pos@.len() == n,
                forall|h: int| 0 <= h < ci ==> pos@[#[trigger] corder@[h] as int] == h,
            decreases n - ci,
        {
            proof {
                assert(corder@[ci as int] < n);
            }
            pos.set(corder[ci], ci);
            proof {
                assert forall|h: int| 0 <= h < ci + 1 implies pos@[#[trigger] corder@[h] as int] == h by {
                    if h < ci {
                        assert(corder@[h] != corder@[ci as int]);
                    }
                }
            }
            ci = ci + 1;
        }
        let mut chips: Vec<Chip> = Vec::new();
        let mut ci: usize = 0;
        while ci < n
            invariant
                n == dc.chips.len(),
                dc == (Decls { prims: prims@, chips: decls.chips@ }),
                is_order(dc.chip_deps(), corder@),
                order_of(dc.chip_deps()) == Some(corder@),
                forall|h: int| 0 <= h < n ==> pos@[#[trigger] corder@[h] as int] == h,
                pos@.len() == n,
                links@.len() == n,
                forall|e: int| 0 <= e < n ==> (#[trigger] links@[e]).matches(dc, e),
                porders@.len() == n,
                forall|e: int|
                    0 <= e < n ==> order_of(dc.part_deps(e)) == Some((#[trigger] porders@[e])@),
                forall|e: int| 0 <= e < n ==> is_order(dc.part_deps(e), (#[trigger] porders@[e])@),
                ci <= n,
                chips@.len() == ci,
                forall|h: int|
                    0 <= h < ci ==> #[trigger] chip_built(chips@, dc, corder@, h),
            decreases n - ci,
        {
            let dd = corder[ci];
            let porder = &porders[dd];
            let l = &links[dd];
            proof {
                assert(l.matches(dc, dd as int));
                assert(is_order(dc.part_deps(dd as int), porder@));
            }
            let mut parts: Vec<Part> = Vec::new();
            let mut k: usize = 0;
            while k < porder.len()
                invariant
                    n == dc.chips.len(),
                    dc == (Decls { prims: prims@, chips: decls.chips@ }),
                    dd < n,
                    l.matches(dc, dd as int),
                    is_order(dc.part_deps(dd as int), porder@),
                    order_of(dc.part_deps(dd as int)) == Some(porder@),
                    is_order(dc.chip_deps(), corder@),
                    forall|h: int| 0 <= h < n ==> pos@[#[trigger] corder@[h] as int] == h,
                    pos@.len() == n,
                    k <= porder@.len(),
                    parts@.len() == k,
                    forall|kk: int|
                        0 <= kk < k ==> {
                            &&& (#[trigger] parts@[kk]).inputs@ == dc.inputs(dd as int, porder@[kk] as int)
                            &&& parts@[kk].outputs@ == dc.outputs(dd as int, porder@[kk] as int)
                            &&& callee_matches(parts@[kk].callee, dc.callee(dd as int, porder@[kk] as int), corder@)
                        },
                decreases porder@.len() - k,
            {
                let q = porder[k];
                proof {
                    assert(porder@[k as int] < porder@.len());
                }
                let callee = match l.callees[q] {
                    Callee::Prim(a) => Callee::Prim(a),
                    Callee::Chip(j) => {
                        proof {
                            lemma_order_covers(corder@, n as nat, j);
                        }
                        Callee::Chip(pos[j])
                    },
                };
                parts.push(Part {
                    callee,
                    inputs: copy_pairs(&l.inputs[q]),
                    outputs: copy_pairs(&l.outputs[q]),
                });
                k = k + 1;
            }
            let chip = &decls.chips[dd];
            let ghost old_chips = chips@;
            chips.push(Chip {
                name: chip.name,
                ins: copy_ids(&chip.ins),
                outs: copy_ids(&chip.outs),
                parts,
            });
            proof {
                assert forall|h: int| 0 <= h < ci + 1 implies #[trigger] chip_built(chips@, dc, corder@, h) by {
                    if h < ci {
                        assert(chips@[h] == old_chips[h]);
                        assert(chip_built(old_chips, dc, corder@, h));
                    }
                }
            }
            ci = ci + 1;
        }
        let p = Program { prims, chips };
        proof {
            assert forall|e: int| 0 <= e < n implies (#[trigger] order_of(dc.part_deps(e))) is Some by {
                assert(order_of(dc.part_deps(e)) == Some(porders@[e]@));
            }
            assert forall|e: int| 0 <= e < n implies is_order(dc.part_deps(e), #[trigger] dc.part_order(e)) by {
                assert(order_of(dc.part_deps(e)) == Some(porders@[e]@));
                assert(is_order(dc.part_deps(e), porders@[e]@));
            }
            assert(compiled_from(p, dc));
            lemma_compiled_wf(p, dc);
        }
        Ok(p)
    }
}

/// Compiling the same declarations twice gives structurally identical
/// programs: the same chips in the same order, each with the same parts in the
/// same execution order.
pub proof fn lemma_compile_idempotent(p1: Program, p2: Program, dc: Decls)
    requires
        compiled_from(p1, dc),
        compiled_from(p2, dc),
    ensures
        p1.prims@ == p2.prims@,
        p1.model() == p2.model(),
{
    let corder = order_of(dc.chip_deps()).unwrap();
    assert forall|ci: int| 0 <= ci < p1.chips@.len() implies #[trigger] crate::interpreter::chip_model(
        p1.chips@[ci],
    ) == crate::interpreter::chip_model(p2.chips@[ci]) by {
        assert(chip_built(p1.chips@, dc, corder, ci));
        assert(chip_built(p2.chips@, dc, corder, ci));
        let c1 = p1.chips@[ci];
        let c2 = p2.chips@[ci];
        assert forall|k: int| 0 <= k < c1.parts@.len() implies crate::interpreter::part_model(
            #[trigger] c1.parts@[k],
        ) == crate::interpreter::part_model(c2.parts@[k]) by {
            assert(c2.parts@[k] == c2.parts@[k]);
            if let (Callee::Chip(a1), Callee::Chip(a2)) = (c1.parts@[k].callee, c2.parts@[k].callee) {
                assert(corder[a1 as int] == corder[a2 as int]);
            }
        }
        assert(c1.parts@.map_values(|part: Part| crate::interpreter::part_model(part))
            =~= c2.parts@.map_values(|part: Part| crate::interpreter::part_model(part)));
    }
    assert(p1.model() =~= p2.model());
}

/// A chip whose parts depend on each other in a cycle does not compile.
pub proof fn lemma_cycle_rejected(dc: Decls, d: int, c: Seq<usize>)
    requires
        0 <= d < dc.chips.len(),
        dc.chips[d].parts@.len() <= usize::MAX,
        is_cycle(dc.part_deps(d), c),
    ensures
        !dc.valid(),
{
    if dc.valid() {
        assert(order_of(dc.part_deps(d)) is Some);
        let o = order_of(dc.part_deps(d)).unwrap();
        crate::topo::lemma_cycle_no_order(dc.part_deps(d), c, o);
        crate::topo::lemma_order_is_order(dc.part_deps(d));
    }
}

/// Where the chips' own checks and the chip order all pass, a cycle among the
/// parts of a chip is reported as a combinational cycle.
pub proof fn lemma_cycle_error(dc: Decls, d: int, c: Seq<usize>, e: CompileError)
    requires
        0 <= d < dc.chips.len(),
        is_cycle(dc.part_deps(d), c),
        dc.chips.len() <= usize::MAX,
        dc.names_unique(),
        forall|x: int| 0 <= x < dc.chips.len() ==> #[trigger] dc.chip_ok(x),
        order_of(dc.chip_deps()) is Some,
        dc.error_holds(e),
    ensures
        e is CombinationalCycle,
{
    match e {
        CompileError::DuplicatePort { chip, port } => {
            let x = choose|x: int|
                0 <= x < dc.chips.len() && dc.chips[x].name == chip && (repeated(
                    dc.chips[x].ins@,
                    port,
                ) || repeated(dc.chips[x].outs@, port));
            assert(dc.chip_ok(x));
        },
        CompileError::PortNameCollision { chip, port } => {
            let x = choose|x: int|
                0 <= x < dc.chips.len() && dc.chips[x].name == chip && dc.chips[x].ins@.contains(port)
                    && dc.chips[x].outs@.contains(port);
            assert(dc.chip_ok(x));
            assert(dc.chips[x].ins@.to_set().contains(port));
        },
        CompileError::DuplicateChip { chip } => {},
        CompileError::UnknownChip { chip, name } => {
            let (x, q) = choose|x: int, q: int|
                0 <= x < dc.chips.len() && dc.chips[x].name == chip && 0 <= q
                    < dc.chips[x].parts@.len() && dc.part(x, q).chip_name == name && dc.callee(
                    x,
                    q,
                ) is None;
            assert(dc.chip_ok(x));
            assert(dc.part_ok(x, q));
        },
        CompileError::PortArityMismatch { chip, part, .. } => {
            let x = choose|x: int|
                0 <= x < dc.chips.len() && (#[trigger] dc.chips[x]).name == chip && part
                    < dc.chips[x].parts@.len() && !dc.part_ok(x, part as int);
            assert(dc.chip_ok(x));
        },
        CompileError::MultipleDrivers { chip, wire } => {
            let x = choose|x: int|
                0 <= x < dc.chips.len() && dc.chips[x].name == chip && dc.chip_parts_ok(x)
                    && repeated(dc.all_writes(x), wire);
            assert(dc.chip_ok(x));
        },
        CompileError::InputShadowed { chip, wire } => {
            let x = choose|x: int|
                0 <= x < dc.chips.len() && dc.chips[x].name == chip && dc.chip_parts_ok(x)
                    && dc.all_writes(x).contains(wire) && dc.chips[x].ins@.contains(wire);
            assert(dc.chip_ok(x));
        },
        CompileError::UndrivenWire { chip, wire } => {
            let x = choose|x: int|
                0 <= x < dc.chips.len() && dc.chips[x].name == chip && dc.chip_parts_ok(x)
                    && dc.read(x, wire) && !dc.driven(x, wire);
            assert(dc.chip_ok(x));
        },
        CompileError::CombinationalCycle { .. } => {},
        CompileError::RecursiveChipDefinition { .. } => {
            crate::topo::lemma_order_is_order(dc.chip_deps());
        },
    }
}

/// A part that connects a single port of a callee with two inputs and one
/// output does not pass its checks, so its chip does not compile.
pub proof fn lemma_arity_rejected(dc: Decls, d: int, q: int)
    requires
        0 <= d < dc.chips.len(),
        0 <= q < dc.chips[d].parts@.len(),
        dc.callee(d, q) is Some,
        dc.part(d, q).name_map@.len() == 1,
        decl_ins(dc.prims, dc.chips, dc.callee(d, q).unwrap()).len() == 2,
        decl_outs(dc.prims, dc.chips, dc.callee(d, q).unwrap()).len() == 1,
        (decl_ins(dc.prims, dc.chips, dc.callee(d, q).unwrap()) + decl_outs(
            dc.prims,
            dc.chips,
            dc.callee(d, q).unwrap(),
        )).no_duplicates(),
    ensures
        !dc.part_ok(d, q),
        !dc.valid(),
{
    let c = dc.callee(d, q).unwrap();
    let ins = decl_ins(dc.prims, dc.chips, c);
    let outs = decl_outs(dc.prims, dc.chips, c);
    let pairs = dc.part(d, q).name_map@;
    if dc.part_ok(d, q) {
        let ks = keys(pairs);
        let all = ins.to_set().union(outs.to_set());
        assert(ks.to_set() == all);
        assert(ks =~= seq![pairs[0].0]);
        assert(all.contains(ins[0]));
        assert(all.contains(ins[1]));
        assert(ins[0] != ins[1]) by {
            assert((ins + outs)[0] != (ins + outs)[1]);
        }
        assert(ks.to_set().contains(ins[0]));
        assert(ks.to_set().contains(ins[1]));
    }
    if dc.valid() {
        assert(dc.chip_ok(d));
    }
}

} // verus!
