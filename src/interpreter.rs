//! Compiled chips and their evaluation.
use std::collections::HashMap;
use vstd::prelude::*;
use crate::primitive::Primitive;

verus! {

broadcast use vstd::std_specs::hash::group_hash_axioms;

/// What a part instantiates: a primitive or a compiled chip, by index.
#[derive(Clone, Copy, Debug, PartialEq, Eq, Structural)]
pub enum Callee {
    Prim(usize),
    Chip(usize),
}

/// A part of a compiled chip. Each connection is `(callee port, wire)`;
/// `inputs` feed the callee, `outputs` receive its results.
#[derive(Debug, PartialEq)]
pub struct Part {
    pub callee: Callee,
    pub inputs: Vec<(u32, u32)>,
    pub outputs: Vec<(u32, u32)>,
}

/// A compiled chip; its parts stand in evaluation order.
#[derive(Debug, PartialEq)]
pub struct Chip {
    pub name: u32,
    pub ins: Vec<u32>,
    pub outs: Vec<u32>,
    pub parts: Vec<Part>,
}

/// A compiled program: every chip only instantiates primitives and chips
/// that stand before it.
#[derive(Debug, PartialEq)]
pub struct Program {
    pub prims: Vec<Primitive>,
    pub chips: Vec<Chip>,
}

/// Why an evaluation was refused.
#[derive(Clone, Copy, Debug, PartialEq, Eq, Structural)]
pub enum EvalError {
    /// No chip has the requested name.
    EntryNotFound { entry: u32 },
    /// The inputs given are not exactly the chip's inputs.
    InputMismatch,
}

/// The callee ports named by a list of connections.
pub open spec fn ports(pairs: Seq<(u32, u32)>) -> Set<u32>
    decreases pairs.len(),
{
    if pairs.len() == 0 {
        Set::empty()
    } else {
        ports(pairs.drop_last()).insert(pairs.last().0)
    }
}

/// The wires named by a list of connections.
pub open spec fn wires(pairs: Seq<(u32, u32)>) -> Set<u32>
    decreases pairs.len(),
{
    if pairs.len() == 0 {
        Set::empty()
    } else {
        wires(pairs.drop_last()).insert(pairs.last().1)
    }
}

/// The callee's input assignment: each port gets its wire's value in `env`.
pub open spec fn bind(pairs: Seq<(u32, u32)>, env: Map<u32, bool>) -> Map<u32, bool>
    decreases pairs.len(),
{
    if pairs.len() == 0 {
        Map::empty()
    } else {
        bind(pairs.drop_last(), env).insert(pairs.last().0, env[pairs.last().1])
    }
}

/// `env` after each wire receives its port's value in `res`.
pub open spec fn write_back(pairs: Seq<(u32, u32)>, res: Map<u32, bool>, env: Map<u32, bool>) -> Map<
    u32,
    bool,
>
    decreases pairs.len(),
{
    if pairs.len() == 0 {
        env
    } else {
        write_back(pairs.drop_last(), res, env).insert(pairs.last().1, res[pairs.last().0])
    }
}

/// `env` restricted to the names in `names`.
pub open spec fn project(env: Map<u32, bool>, names: Seq<u32>) -> Map<u32, bool>
    decreases names.len(),
{
    if names.len() == 0 {
        Map::empty()
    } else {
        project(env, names.drop_last()).insert(names.last(), env[names.last()])
    }
}

proof fn lemma_bind_dom(pairs: Seq<(u32, u32)>, env: Map<u32, bool>)
    ensures
        bind(pairs, env).dom() == ports(pairs),
    decreases pairs.len(),
{
    if pairs.len() > 0 {
        lemma_bind_dom(pairs.drop_last(), env);
    }
}

proof fn lemma_write_back_dom(pairs: Seq<(u32, u32)>, res: Map<u32, bool>, env: Map<u32, bool>)
    ensures
        write_back(pairs, res, env).dom() == env.dom().union(wires(pairs)),
    decreases pairs.len(),
{
    if pairs.len() > 0 {
        lemma_write_back_dom(pairs.drop_last(), res, env);
        assert(write_back(pairs, res, env).dom() =~= env.dom().union(wires(pairs)));
    }
}

proof fn lemma_project_dom(env: Map<u32, bool>, names: Seq<u32>)
    ensures
        project(env, names).dom() == names.to_set(),
    decreases names.len(),
{
    if names.len() > 0 {
        lemma_project_dom(env, names.drop_last());
        names.drop_last().lemma_push_to_set_commute(names.last());
        assert(names.drop_last().push(names.last()) =~= names);
    } else {
        assert(names.to_set() =~= Set::empty());
    }
}

impl Program {
    /// Input ports of a callee.
    pub open spec fn callee_ins(&self, c: Callee) -> Seq<u32> {
        match c {
            Callee::Prim(i) => self.prims@[i as int].ins@,
            Callee::Chip(j) => self.chips@[j as int].ins@,
        }
    }

    /// Output ports of a callee.
    pub open spec fn callee_outs(&self, c: Callee) -> Seq<u32> {
        match c {
            Callee::Prim(i) => self.prims@[i as int].outs@,
            Callee::Chip(j) => self.chips@[j as int].outs@,
        }
    }

    /// Wires written by the first `k` parts of chip `ci`.
    pub open spec fn produced(&self, ci: int, k: int) -> Set<u32>
        decreases k,
    {
        if k <= 0 {
            Set::empty()
        } else {
            self.produced(ci, k - 1).union(wires(self.chips@[ci].parts@[k - 1].outputs@))
        }
    }

    /// Wires known once the first `k` parts of chip `ci` have run.
    pub open spec fn available(&self, ci: int, k: int) -> Set<u32> {
        self.chips@[ci].ins@.to_set().union(self.produced(ci, k))
    }

    /// Part `k` of chip `ci` calls something that stands before the chip,
    /// connects exactly the callee's ports, and reads only wires that are
    /// known when it runs.
    pub open spec fn part_wf(&self, ci: int, k: int) -> bool {
        let part = self.chips@[ci].parts@[k];
        &&& match part.callee {
            Callee::Prim(i) => i < self.prims@.len(),
            Callee::Chip(j) => j < ci,
        }
        &&& ports(part.inputs@) == self.callee_ins(part.callee).to_set()
        &&& ports(part.outputs@) == self.callee_outs(part.callee).to_set()
        &&& wires(part.inputs@).subset_of(self.available(ci, k))
    }

    /// Every part of chip `ci` is well formed and every output of the chip is
    /// known once all parts have run.
    pub open spec fn chip_wf(&self, ci: int) -> bool {
        let chip = self.chips@[ci];
        &&& chip.ins@.no_duplicates()
        &&& chip.outs@.no_duplicates()
        &&& forall|k: int| 0 <= k < chip.parts@.len() ==> #[trigger] self.part_wf(ci, k)
        &&& chip.outs@.to_set().subset_of(self.available(ci, chip.parts@.len() as int))
    }

    pub open spec fn wf(&self) -> bool {
        &&& forall|i: int| 0 <= i < self.prims@.len() ==> (#[trigger] self.prims@[i]).wf()
        &&& forall|ci: int| 0 <= ci < self.chips@.len() ==> #[trigger] self.chip_wf(ci)
    }

    /// The local environment of chip `ci` after its first `k` parts have run
    /// on the inputs `input`.
    pub open spec fn run_parts(&self, ci: int, k: int, input: Map<u32, bool>) -> Map<u32, bool>
        decreases ci, k,
    {
        if k <= 0 || ci < 0 || ci >= self.chips@.len() || k > self.chips@[ci].parts@.len() {
            input
        } else {
            let env = self.run_parts(ci, k - 1, input);
            let part = self.chips@[ci].parts@[k - 1];
            let call_in = bind(part.inputs@, env);
            let res = match part.callee {
                Callee::Prim(i) => self.prims@[i as int].result(call_in),
                Callee::Chip(j) => if j < ci {
                    self.chip_result(j as int, call_in)
                } else {
                    Map::empty()
                },
            };
            write_back(part.outputs@, res, env)
        }
    }

    /// The outputs of chip `ci` on the inputs `input`.
    pub open spec fn chip_result(&self, ci: int, input: Map<u32, bool>) -> Map<u32, bool>
        decreases ci, self.chips@[ci].parts@.len() + 1,
    {
        if 0 <= ci < self.chips@.len() {
            let n = self.chips@[ci].parts@.len() as int;
            project(self.run_parts(ci, n, input), self.chips@[ci].outs@)
        } else {
            Map::empty()
        }
    }

    /// Index of the first chip named `name`.
    pub open spec fn find_chip(&self, name: u32) -> Option<int> {
        if exists|i: int| 0 <= i < self.chips@.len() && self.chips@[i].name == name {
            Some(
                choose|i: int|
                    0 <= i < self.chips@.len() && self.chips@[i].name == name && forall|h: int|
                        0 <= h < i ==> self.chips@[h].name != name,
            )
        } else {
            None
        }
    }

    /// Index of the first chip named `name`, scanning the chips in order.
    fn chip_index(&self, name: u32) -> (r: Option<usize>)
        ensures
            match r {
                Some(i) => i < self.chips@.len() && self.chips@[i as int].name == name && forall|
                    h: int,
                | 0 <= h < i ==> self.chips@[h].name != name,
                None => forall|h: int| 0 <= h < self.chips@.len() ==> self.chips@[h].name != name,
            },
    {
        let mut i: usize = 0;
        while i < self.chips.len()
            invariant
                i <= self.chips@.len(),
                forall|h: int| 0 <= h < i ==> self.chips@[h].name != name,
            decreases self.chips@.len() - i,
        {
            if self.chips[i].name == name {
                return Some(i);
            }
            i = i + 1;
        }
        None
    }

    /// The callee's input assignment for `pairs`, read from `env`.
    fn bind_exec(pairs: &Vec<(u32, u32)>, env: &HashMap<u32, bool>) -> (r: HashMap<u32, bool>)
        requires
            wires(pairs@).subset_of(env@.dom()),
        ensures
            r@ == bind(pairs@, env@),
    {
        let mut r: HashMap<u32, bool> = HashMap::new();
        let mut i: usize = 0;
        while i < pairs.len()
            invariant
                i <= pairs@.len(),
                wires(pairs@).subset_of(env@.dom()),
                r@ == bind(pairs@.take(i as int), env@),
            decreases pairs@.len() - i,
        {
            let (port, wire) = pairs[i];
            proof {
                lemma_wires_contains(pairs@, i as int);
            }
            let v = match env.get(&wire) {
                Some(v) => *v,
                None => false,
            };
            r.insert(port, v);
            proof {
                assert(pairs@.take(i + 1).drop_last() =~= pairs@.take(i as int));
            }
            i = i + 1;
        }
        proof {
            assert(pairs@.take(i as int) =~= pairs@);
        }
        r
    }

    /// Writes each port's value in `res` to its wire in `env`.
    fn write_exec(pairs: &Vec<(u32, u32)>, res: &HashMap<u32, bool>, env: &mut HashMap<u32, bool>)
        requires
            ports(pairs@).subset_of(res@.dom()),
        ensures
            final(env)@ == write_back(pairs@, res@, old(env)@),
    {
        let ghost start = env@;
        let mut i: usize = 0;
        while i < pairs.len()
            invariant
                i <= pairs@.len(),
                ports(pairs@).subset_of(res@.dom()),
                env@ == write_back(pairs@.take(i as int), res@, start),
            decreases pairs@.len() - i,
        {
            let (port, wire) = pairs[i];
            proof {
                lemma_ports_contains(pairs@, i as int);
            }
            let v = match res.get(&port) {
                Some(v) => *v,
                None => false,
            };
            env.insert(wire, v);
            proof {
                assert(pairs@.take(i + 1).drop_last() =~= pairs@.take(i as int));
            }
            i = i + 1;
        }
        proof {
            assert(pairs@.take(i as int) =~= pairs@);
        }
    }

    /// `env` restricted to `names`.
    fn project_exec(env: &HashMap<u32, bool>, names: &Vec<u32>) -> (r: HashMap<u32, bool>)
        requires
            names@.to_set().subset_of(env@.dom()),
        ensures
            r@ == project(env@, names@),
    {
        let mut r: HashMap<u32, bool> = HashMap::new();
        let mut i: usize = 0;
        while i < names.len()
            invariant
                i <= names@.len(),
                names@.to_set().subset_of(env@.dom()),
                r@ == project(env@, names@.take(i as int)),
            decreases names@.len() - i,
        {
            let name = names[i];
            proof {
                assert(names@.to_set().contains(names@[i as int]));
            }
            let v = match env.get(&name) {
                Some(v) => *v,
                None => false,
            };
            r.insert(name, v);
            proof {
                assert(names@.take(i + 1).drop_last() =~= names@.take(i as int));
            }
            i = i + 1;
        }
        proof {
            assert(names@.take(i as int) =~= names@);
        }
        r
    }

    /// Runs primitive `i` on the input assignment `m`.
    fn run_prim(&self, i: usize, m: &HashMap<u32, bool>) -> (r: HashMap<u32, bool>)
        requires
            i < self.prims@.len(),
            self.prims@[i as int].wf(),
            self.prims@[i as int].ins@.to_set().subset_of(m@.dom()),
        ensures
            r@ == self.prims@[i as int].result(m@),
    {
        let p = &self.prims[i];
        let first = p.ins[0];
        let last = p.ins[p.ins.len() - 1];
        proof {
            assert(p.ins@.to_set().contains(p.ins@[0]));
            assert(p.ins@.to_set().contains(p.ins@[p.ins@.len() - 1]));
        }
        let a = match m.get(&first) {
            Some(v) => *v,
            None => false,
        };
        let b = match m.get(&last) {
            Some(v) => *v,
            None => false,
        };
        let mut r: HashMap<u32, bool> = HashMap::new();
        r.insert(p.outs[0], p.gate.apply(a, b));
        proof {
            assert(r@ =~= p.result(m@));
        }
        r
    }

    /// Runs chip `ci` on `input`, whose names are exactly the chip's inputs.
    fn run_chip(&self, ci: usize, input: &HashMap<u32, bool>) -> (r: HashMap<u32, bool>)
        requires
            self.wf(),
            ci < self.chips@.len(),
            input@.dom() == self.chips@[ci as int].ins@.to_set(),
        ensures
            r@ == self.chip_result(ci as int, input@),
            r@.dom() == self.chips@[ci as int].outs@.to_set(),
        decreases ci,
    {
        let chip = &self.chips[ci];
        let mut env = input.clone();
        let mut k: usize = 0;
        proof {
            assert(self.available(ci as int, 0) =~= input@.dom());
        }
        while k < chip.parts.len()
            invariant
                self.wf(),
                ci < self.chips@.len(),
                *chip == self.chips@[ci as int],
                k <= chip.parts@.len(),
                env@ == self.run_parts(ci as int, k as int, input@),
                env@.dom() == self.available(ci as int, k as int),
            decreases chip.parts@.len() - k,
        {
            let part = &chip.parts[k];
            proof {
                assert(self.chip_wf(ci as int));
                assert(self.part_wf(ci as int, k as int));
            }
            let call_in = Self::bind_exec(&part.inputs, &env);
            proof {
                lemma_bind_dom(part.inputs@, env@);
            }
            let res = match part.callee {
                Callee::Prim(i) => {
                    proof {
                        assert(self.prims@[i as int].wf());
                    }
                    self.run_prim(i, &call_in)
                },
                Callee::Chip(j) => self.run_chip(j, &call_in),
            };
            proof {
                match part.callee {
                    Callee::Prim(i) => {
                        let p = self.prims@[i as int];
                        assert(p.outs@.to_set() =~= set![p.outs@[0]]) by {
                            assert(p.outs@ =~= seq![p.outs@[0]]);
                            seq![p.outs@[0]].lemma_push_to_set_commute(p.outs@[0]);
                            assert(seq![p.outs@[0]] =~= Seq::<u32>::empty().push(p.outs@[0]));
                            Seq::<u32>::empty().lemma_push_to_set_commute(p.outs@[0]);
                            assert(Seq::<u32>::empty().to_set() =~= Set::<u32>::empty());
                        }
                        assert(res@.dom() =~= set![p.outs@[0]]);
                    },
                    Callee::Chip(j) => {},
                }
            }
            let ghost before = env@;
            Self::write_exec(&part.outputs, &res, &mut env);
            proof {
                lemma_write_back_dom(part.outputs@, res@, before);
                assert(env@.dom() =~= self.available(ci as int, k + 1));
            }
            k = k + 1;
        }
        proof {
            assert(self.chip_wf(ci as int));
        }
        let r = Self::project_exec(&env, &chip.outs);
        proof {
            lemma_project_dom(env@, chip.outs@);
        }
        r
    }
}

impl Program {
    /// The outcome of evaluating the chip named `entry` on `input`.
    pub open spec fn evaluation(&self, entry: u32, input: Map<u32, bool>) -> Result<
        Map<u32, bool>,
        EvalError,
    > {
        match self.find_chip(entry) {
            None => Err(EvalError::EntryNotFound { entry }),
            Some(ci) => if input.dom() == self.chips@[ci].ins@.to_set() {
                Ok(self.chip_result(ci, input))
            } else {
                Err(EvalError::InputMismatch)
            },
        }
    }

    /// Evaluates the outputs of the chip named `entry` with its inputs set to
    /// `input`.
    pub fn evaluate(&self, entry: u32, input: &HashMap<u32, bool>) -> (r: Result<
        HashMap<u32, bool>,
        EvalError,
    >)
        requires
            self.wf(),
        ensures
            match r {
                Ok(m) => self.evaluation(entry, input@) == Ok::<Map<u32, bool>, EvalError>(m@)
                    && m@.dom() == self.chips@[self.find_chip(entry).unwrap()].outs@.to_set(),
                Err(e) => self.evaluation(entry, input@) == Err::<Map<u32, bool>, EvalError>(e),
            },
    {
        let ci = match self.chip_index(entry) {
            Some(ci) => ci,
            None => {
                return Err(EvalError::EntryNotFound { entry });
            },
        };
        proof {
            let c = self.find_chip(entry).unwrap();
            assert(c == ci as int) by {
                if c < ci {
                    assert(self.chips@[c].name == entry);
                } else if c > ci {
                    assert(self.chips@[ci as int].name != entry);
                }
            }
            assert(self.chip_wf(ci as int));
        }
        let chip = &self.chips[ci];
        if !Self::input_matches(&chip.ins, input) {
            return Err(EvalError::InputMismatch);
        }
        Ok(self.run_chip(ci, input))
    }

    /// Whether the names of `input` are exactly `ins`, which has no duplicates.
    fn input_matches(ins: &Vec<u32>, input: &HashMap<u32, bool>) -> (r: bool)
        requires
            ins@.no_duplicates(),
        ensures
            r == (input@.dom() == ins@.to_set()),
    {
        if input.len() != ins.len() {
            proof {
                ins@.unique_seq_to_set();
                if input@.dom() == ins@.to_set() {
                    assert(input@.len() == input@.dom().len());
                }
            }
            return false;
        }
        let mut i: usize = 0;
        while i < ins.len()
            invariant
                i <= ins@.len(),
                forall|h: int| 0 <= h < i ==> input@.contains_key(#[trigger] ins@[h]),
            decreases ins@.len() - i,
        {
            if !input.contains_key(&ins[i]) {
                proof {
                    assert(ins@.to_set().contains(ins@[i as int]));
                }
                return false;
            }
            i = i + 1;
        }
        proof {
            ins@.unique_seq_to_set();
            assert(ins@.to_set().subset_of(input@.dom())) by {
                assert forall|x: u32| ins@.to_set().contains(x) implies input@.dom().contains(x) by {
                    let h = choose|h: int| 0 <= h < ins@.len() && ins@[h] == x;
                }
            }
            vstd::set_lib::lemma_subset_equality(ins@.to_set(), input@.dom());
        }
        true
    }
}

/// A compiled part as plain values: callee, input and output connections.
pub open spec fn part_model(part: Part) -> (Callee, Seq<(u32, u32)>, Seq<(u32, u32)>) {
    (part.callee, part.inputs@, part.outputs@)
}

/// A compiled chip as plain values: name, inputs, outputs and parts in order.
pub open spec fn chip_model(chip: Chip) -> (
    u32,
    Seq<u32>,
    Seq<u32>,
    Seq<(Callee, Seq<(u32, u32)>, Seq<(u32, u32)>)>,
) {
    (chip.name, chip.ins@, chip.outs@, chip.parts@.map_values(|part: Part| part_model(part)))
}

impl Program {
    /// The chips of the program as plain values, in order.
    pub open spec fn model(&self) -> Seq<
        (u32, Seq<u32>, Seq<u32>, Seq<(Callee, Seq<(u32, u32)>, Seq<(u32, u32)>)>),
    > {
        self.chips@.map_values(|chip: Chip| chip_model(chip))
    }
}

/// Evaluation has no hidden state: two evaluations of the same chip of the
/// same program on the same inputs give the same outputs.
pub proof fn lemma_evaluation_deterministic(
    p: Program,
    entry: u32,
    input: Map<u32, bool>,
    out1: Map<u32, bool>,
    out2: Map<u32, bool>,
)
    requires
        p.evaluation(entry, input) == Ok::<Map<u32, bool>, EvalError>(out1),
        p.evaluation(entry, input) == Ok::<Map<u32, bool>, EvalError>(out2),
    ensures
        out1 == out2,
{
}

/// In a well-formed program, every wire that a part reads is an input of its
/// chip or is written by an earlier part of the chip.
pub proof fn lemma_topological_validity(p: Program, ci: int, k: int, w: u32)
    requires
        p.wf(),
        0 <= ci < p.chips@.len(),
        0 <= k < p.chips@[ci].parts@.len(),
        wires(p.chips@[ci].parts@[k].inputs@).contains(w),
    ensures
        p.chips@[ci].ins@.contains(w) || exists|k2: int|
            0 <= k2 < k && wires(p.chips@[ci].parts@[k2].outputs@).contains(w),
{
    assert(p.chip_wf(ci));
    assert(p.part_wf(ci, k));
    if !p.chips@[ci].ins@.contains(w) {
        lemma_produced_from(p, ci, k, w);
    }
}

proof fn lemma_produced_from(p: Program, ci: int, k: int, w: u32)
    requires
        p.produced(ci, k).contains(w),
    ensures
        exists|k2: int| 0 <= k2 < k && wires(p.chips@[ci].parts@[k2].outputs@).contains(w),
    decreases k,
{
    if k > 0 && !wires(p.chips@[ci].parts@[k - 1].outputs@).contains(w) {
        lemma_produced_from(p, ci, k - 1, w);
    }
}

proof fn lemma_wires_contains(pairs: Seq<(u32, u32)>, i: int)
    requires
        0 <= i < pairs.len(),
    ensures
        wires(pairs).contains(pairs[i].1),
    decreases pairs.len(),
{
    if i < pairs.len() - 1 {
        lemma_wires_contains(pairs.drop_last(), i);
    }
}

proof fn lemma_ports_contains(pairs: Seq<(u32, u32)>, i: int)
    requires
        0 <= i < pairs.len(),
    ensures
        ports(pairs).contains(pairs[i].0),
    decreases pairs.len(),
{
    if i < pairs.len() - 1 {
        lemma_ports_contains(pairs.drop_last(), i);
    }
}

} // verus!
