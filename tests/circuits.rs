use std::collections::HashMap;

use hdl_sim::ast;
use hdl_sim::interpreter::{EvalError, Program};
use hdl_sim::linker::CompileError;
use hdl_sim::names::Names;
use hdl_sim::primitive::{Gate, Primitive};

fn id(n: &mut Names, s: &str) -> u32 {
    n.intern(s).unwrap()
}

fn part(n: &mut Names, chip: &str, conns: &[(&str, &str)]) -> ast::Part {
    let chip_name = id(n, chip);
    let name_map = conns.iter().map(|(p, w)| (id(n, p), id(n, w))).collect();
    ast::Part { chip_name, name_map }
}

fn chip(n: &mut Names, name: &str, ins: &[&str], outs: &[&str], parts: Vec<ast::Part>) -> ast::Chip {
    ast::Chip {
        name: id(n, name),
        ins: ins.iter().map(|s| id(n, s)).collect(),
        outs: outs.iter().map(|s| id(n, s)).collect(),
        parts,
    }
}

fn nand_only(n: &mut Names) -> Vec<Primitive> {
    let (nand, a, b, out) = (id(n, "Nand"), id(n, "a"), id(n, "b"), id(n, "out"));
    vec![Primitive::binary(nand, Gate::Nand, a, b, out)]
}

fn input(n: &mut Names, vals: &[(&str, bool)]) -> HashMap<u32, bool> {
    vals.iter().map(|(k, v)| (id(n, k), *v)).collect()
}

fn and_chip(n: &mut Names) -> ast::Chip {
    let p1 = part(n, "Nand", &[("a", "a"), ("b", "b"), ("out", "n")]);
    let p2 = part(n, "Nand", &[("a", "n"), ("b", "n"), ("out", "out")]);
    chip(n, "And", &["a", "b"], &["out"], vec![p1, p2])
}

fn xor_chip(n: &mut Names) -> ast::Chip {
    let p1 = part(n, "Nand", &[("a", "a"), ("b", "b"), ("out", "nab")]);
    let p2 = part(n, "Nand", &[("a", "a"), ("b", "nab"), ("out", "x1")]);
    let p3 = part(n, "Nand", &[("a", "nab"), ("b", "b"), ("out", "x2")]);
    let p4 = part(n, "Nand", &[("a", "x1"), ("b", "x2"), ("out", "out")]);
    chip(n, "Xor", &["a", "b"], &["out"], vec![p1, p2, p3, p4])
}

/// The sample source's chips, with `Or` and `Not` written in terms of `Nand`,
/// declared callers first and with parts out of order.
fn eq3_program(n: &mut Names) -> ast::Program {
    let e1 = part(n, "Not", &[("in", "outOr"), ("out", "out")]);
    let e2 = part(n, "Or", &[("a", "neq1"), ("b", "neq2"), ("out", "outOr")]);
    let e3 = part(n, "Xor", &[("a", "a"), ("b", "b"), ("out", "neq1")]);
    let e4 = part(n, "Xor", &[("a", "b"), ("b", "c"), ("out", "neq2")]);
    let eq3 = chip(n, "Eq3", &["a", "b", "c"], &["out"], vec![e1, e2, e3, e4]);
    let o1 = part(n, "Nand", &[("a", "a"), ("b", "a"), ("out", "na")]);
    let o2 = part(n, "Nand", &[("a", "b"), ("b", "b"), ("out", "nb")]);
    let o3 = part(n, "Nand", &[("a", "na"), ("b", "nb"), ("out", "out")]);
    let or = chip(n, "Or", &["a", "b"], &["out"], vec![o3, o1, o2]);
    let n1 = part(n, "Nand", &[("a", "in"), ("b", "in"), ("out", "out")]);
    let not = chip(n, "Not", &["in"], &["out"], vec![n1]);
    let xor = xor_chip(n);
    ast::Program { chips: vec![eq3, or, not, xor] }
}

fn run(n: &mut Names, p: &Program, entry: &str, vals: &[(&str, bool)]) -> Result<HashMap<u32, bool>, EvalError> {
    let e = id(n, entry);
    let i = input(n, vals);
    p.evaluate(e, &i)
}

#[test]
fn and_from_nands() {
    let mut n = Names::new();
    let prims = nand_only(&mut n);
    let decls = ast::Program { chips: vec![and_chip(&mut n)] };
    let p = Program::compile(&decls, prims).unwrap();
    let out = id(&mut n, "out");
    let r = run(&mut n, &p, "And", &[("a", true), ("b", true)]).unwrap();
    assert_eq!(r, HashMap::from([(out, true)]));
    let r = run(&mut n, &p, "And", &[("a", true), ("b", false)]).unwrap();
    assert_eq!(r, HashMap::from([(out, false)]));
}

#[test]
fn xor_truth_table() {
    let mut n = Names::new();
    let prims = nand_only(&mut n);
    let decls = ast::Program { chips: vec![xor_chip(&mut n)] };
    let p = Program::compile(&decls, prims).unwrap();
    let out = id(&mut n, "out");
    for a in [false, true] {
        for b in [false, true] {
            let r = run(&mut n, &p, "Xor", &[("a", a), ("b", b)]).unwrap();
            assert_eq!(r[&out], a != b);
        }
    }
}

#[test]
fn eq3_truth_table() {
    let mut n = Names::new();
    let prims = nand_only(&mut n);
    let decls = eq3_program(&mut n);
    let p = Program::compile(&decls, prims).unwrap();
    let out = id(&mut n, "out");
    for a in [false, true] {
        for b in [false, true] {
            for c in [false, true] {
                let r = run(&mut n, &p, "Eq3", &[("a", a), ("b", b), ("c", c)]).unwrap();
                assert_eq!(r[&out], a == b && b == c);
            }
        }
    }
}

#[test]
fn two_drivers_rejected() {
    let mut n = Names::new();
    let prims = nand_only(&mut n);
    let p1 = part(&mut n, "Nand", &[("a", "a"), ("b", "b"), ("out", "w")]);
    let p2 = part(&mut n, "Nand", &[("a", "a"), ("b", "a"), ("out", "w")]);
    let p3 = part(&mut n, "Nand", &[("a", "w"), ("b", "w"), ("out", "out")]);
    let c = chip(&mut n, "Bad", &["a", "b"], &["out"], vec![p1, p2, p3]);
    let w = id(&mut n, "w");
    let r = Program::compile(&ast::Program { chips: vec![c] }, prims);
    assert!(matches!(r, Err(CompileError::MultipleDrivers { wire, .. }) if wire == w));
}

#[test]
fn unknown_chip_rejected() {
    let mut n = Names::new();
    let prims = nand_only(&mut n);
    let p1 = part(&mut n, "Mux", &[("a", "a"), ("out", "out")]);
    let c = chip(&mut n, "Top", &["a"], &["out"], vec![p1]);
    let mux = id(&mut n, "Mux");
    let r = Program::compile(&ast::Program { chips: vec![c] }, prims);
    assert!(matches!(r, Err(CompileError::UnknownChip { name, .. }) if name == mux));
}

#[test]
fn missing_input_rejected() {
    let mut n = Names::new();
    let prims = nand_only(&mut n);
    let decls = ast::Program { chips: vec![and_chip(&mut n)] };
    let p = Program::compile(&decls, prims).unwrap();
    let r = run(&mut n, &p, "And", &[("a", true)]);
    assert_eq!(r, Err(EvalError::InputMismatch));
    let r = run(&mut n, &p, "And", &[("a", true), ("b", true), ("c", true)]);
    assert_eq!(r, Err(EvalError::InputMismatch));
    let r = run(&mut n, &p, "And", &[("a", true), ("c", true)]);
    assert_eq!(r, Err(EvalError::InputMismatch));
}

#[test]
fn unknown_entry_rejected() {
    let mut n = Names::new();
    let prims = nand_only(&mut n);
    let decls = ast::Program { chips: vec![and_chip(&mut n)] };
    let p = Program::compile(&decls, prims).unwrap();
    let or = id(&mut n, "Or");
    assert_eq!(run(&mut n, &p, "Or", &[]), Err(EvalError::EntryNotFound { entry: or }));
}

#[test]
fn compiling_twice_gives_the_same_program() {
    let mut n = Names::new();
    let decls = eq3_program(&mut n);
    let p1 = Program::compile(&decls, nand_only(&mut n)).unwrap();
    let p2 = Program::compile(&decls, nand_only(&mut n)).unwrap();
    assert_eq!(p1, p2);
}

#[test]
fn evaluating_twice_gives_the_same_outputs() {
    let mut n = Names::new();
    let prims = nand_only(&mut n);
    let p = Program::compile(&eq3_program(&mut n), prims).unwrap();
    let vals = [("a", true), ("b", true), ("c", false)];
    let r1 = run(&mut n, &p, "Eq3", &vals).unwrap();
    let r2 = run(&mut n, &p, "Eq3", &vals).unwrap();
    assert_eq!(r1, r2);
}

#[test]
fn compiled_order_respects_wiring() {
    let mut n = Names::new();
    let prims = nand_only(&mut n);
    let p = Program::compile(&eq3_program(&mut n), prims).unwrap();
    // callees come before their callers
    for (ci, c) in p.chips.iter().enumerate() {
        let mut known: Vec<u32> = c.ins.clone();
        for part in &c.parts {
            if let hdl_sim::interpreter::Callee::Chip(j) = part.callee {
                assert!(j < ci);
            }
            for (_, w) in &part.inputs {
                assert!(known.contains(w));
            }
            known.extend(part.outputs.iter().map(|(_, w)| *w));
        }
        for o in &c.outs {
            assert!(known.contains(o));
        }
    }
    // the parts of `Or` were declared last-first; the final Nand now runs last
    let or = id(&mut n, "Or");
    let na = id(&mut n, "na");
    let c = p.chips.iter().find(|c| c.name == or).unwrap();
    assert_eq!(c.parts[0].outputs, vec![(id(&mut n, "out"), na)]);
    assert_eq!(c.parts[2].inputs.len(), 2);
    assert!(c.parts[2].inputs.iter().any(|(_, w)| *w == na));
}

#[test]
fn outputs_are_exactly_the_declared_outputs() {
    let mut n = Names::new();
    let prims = nand_only(&mut n);
    let decls = ast::Program { chips: vec![xor_chip(&mut n)] };
    let p = Program::compile(&decls, prims).unwrap();
    let r = run(&mut n, &p, "Xor", &[("a", false), ("b", true)]).unwrap();
    let out = id(&mut n, "out");
    assert_eq!(r.keys().copied().collect::<Vec<u32>>(), vec![out]);
}

#[test]
fn combinational_cycle_rejected() {
    let mut n = Names::new();
    let prims = nand_only(&mut n);
    let p1 = part(&mut n, "Nand", &[("a", "a"), ("b", "y"), ("out", "x")]);
    let p2 = part(&mut n, "Nand", &[("a", "x"), ("b", "a"), ("out", "y")]);
    let p3 = part(&mut n, "Nand", &[("a", "x"), ("b", "y"), ("out", "out")]);
    let c = chip(&mut n, "Loop", &["a"], &["out"], vec![p1, p2, p3]);
    let name = id(&mut n, "Loop");
    let r = Program::compile(&ast::Program { chips: vec![c] }, prims);
    assert_eq!(r, Err(CompileError::CombinationalCycle { chip: name, parts: vec![0, 1, 2] }));
}

#[test]
fn self_loop_rejected() {
    let mut n = Names::new();
    let prims = nand_only(&mut n);
    let p1 = part(&mut n, "Nand", &[("a", "a"), ("b", "x"), ("out", "x")]);
    let p2 = part(&mut n, "Nand", &[("a", "x"), ("b", "x"), ("out", "out")]);
    let c = chip(&mut n, "Latch", &["a"], &["out"], vec![p1, p2]);
    let name = id(&mut n, "Latch");
    let r = Program::compile(&ast::Program { chips: vec![c] }, prims);
    assert_eq!(r, Err(CompileError::CombinationalCycle { chip: name, parts: vec![0, 1] }));
}

#[test]
fn arity_mismatch_rejected() {
    let mut n = Names::new();
    let prims = nand_only(&mut n);
    let p1 = part(&mut n, "Nand", &[("a", "a")]);
    let c = chip(&mut n, "Half", &["a"], &["out"], vec![p1]);
    let (half, b, out) = (id(&mut n, "Half"), id(&mut n, "b"), id(&mut n, "out"));
    let r = Program::compile(&ast::Program { chips: vec![c] }, prims);
    assert_eq!(
        r,
        Err(CompileError::PortArityMismatch { chip: half, part: 0, missing: vec![b, out], extra: vec![] })
    );
}

#[test]
fn extra_port_rejected() {
    let mut n = Names::new();
    let prims = nand_only(&mut n);
    let p1 = part(&mut n, "Nand", &[("a", "a"), ("b", "a"), ("c", "a"), ("out", "out")]);
    let c = chip(&mut n, "Wide", &["a"], &["out"], vec![p1]);
    let (wide, cc) = (id(&mut n, "Wide"), id(&mut n, "c"));
    let r = Program::compile(&ast::Program { chips: vec![c] }, prims);
    assert_eq!(
        r,
        Err(CompileError::PortArityMismatch { chip: wide, part: 0, missing: vec![], extra: vec![cc] })
    );
}

#[test]
fn recursive_chips_rejected() {
    let mut n = Names::new();
    let prims = nand_only(&mut n);
    let p1 = part(&mut n, "Pong", &[("a", "a"), ("out", "out")]);
    let ping = chip(&mut n, "Ping", &["a"], &["out"], vec![p1]);
    let p2 = part(&mut n, "Ping", &[("a", "a"), ("out", "out")]);
    let pong = chip(&mut n, "Pong", &["a"], &["out"], vec![p2]);
    let name = id(&mut n, "Ping");
    let r = Program::compile(&ast::Program { chips: vec![ping, pong] }, prims);
    assert_eq!(r, Err(CompileError::RecursiveChipDefinition { chip: name }));
}

#[test]
fn duplicate_port_rejected() {
    let mut n = Names::new();
    let prims = nand_only(&mut n);
    let p1 = part(&mut n, "Nand", &[("a", "a"), ("b", "a"), ("out", "out")]);
    let c = chip(&mut n, "Dup", &["a", "a"], &["out"], vec![p1]);
    let a = id(&mut n, "a");
    let r = Program::compile(&ast::Program { chips: vec![c] }, prims);
    assert!(matches!(r, Err(CompileError::DuplicatePort { port, .. }) if port == a));
}

#[test]
fn port_collision_rejected() {
    let mut n = Names::new();
    let prims = nand_only(&mut n);
    let p1 = part(&mut n, "Nand", &[("a", "a"), ("b", "a"), ("out", "x")]);
    let c = chip(&mut n, "Both", &["a"], &["a"], vec![p1]);
    let r = Program::compile(&ast::Program { chips: vec![c] }, prims);
    assert!(matches!(r, Err(CompileError::PortNameCollision { .. })));
}

#[test]
fn duplicate_chip_rejected() {
    let mut n = Names::new();
    let prims = nand_only(&mut n);
    let c1 = and_chip(&mut n);
    let c2 = and_chip(&mut n);
    let r = Program::compile(&ast::Program { chips: vec![c1, c2] }, prims);
    assert!(matches!(r, Err(CompileError::DuplicateChip { .. })));
}

#[test]
fn shadowed_input_rejected() {
    let mut n = Names::new();
    let prims = nand_only(&mut n);
    let p1 = part(&mut n, "Nand", &[("a", "a"), ("b", "a"), ("out", "a")]);
    let p2 = part(&mut n, "Nand", &[("a", "a"), ("b", "a"), ("out", "out")]);
    let c = chip(&mut n, "Shadow", &["a"], &["out"], vec![p1, p2]);
    let r = Program::compile(&ast::Program { chips: vec![c] }, prims);
    assert!(matches!(r, Err(CompileError::InputShadowed { .. })));
}

#[test]
fn undriven_wire_rejected() {
    let mut n = Names::new();
    let prims = nand_only(&mut n);
    let p1 = part(&mut n, "Nand", &[("a", "a"), ("b", "ghost"), ("out", "out")]);
    let c = chip(&mut n, "Float", &["a"], &["out"], vec![p1]);
    let ghost = id(&mut n, "ghost");
    let r = Program::compile(&ast::Program { chips: vec![c] }, prims);
    assert!(matches!(r, Err(CompileError::UndrivenWire { wire, .. }) if wire == ghost));
}

#[test]
fn undriven_output_rejected() {
    let mut n = Names::new();
    let prims = nand_only(&mut n);
    let p1 = part(&mut n, "Nand", &[("a", "a"), ("b", "a"), ("out", "x")]);
    let c = chip(&mut n, "NoOut", &["a"], &["out"], vec![p1]);
    let r = Program::compile(&ast::Program { chips: vec![c] }, prims);
    assert!(matches!(r, Err(CompileError::UndrivenWire { .. })));
}

#[test]
fn empty_declarations_compile() {
    let mut n = Names::new();
    let prims = nand_only(&mut n);
    let p = Program::compile(&ast::Program { chips: vec![] }, prims).unwrap();
    assert!(p.chips.is_empty());
}

#[test]
fn primitive_gates() {
    let mut n = Names::new();
    let (a, b, out) = (id(&mut n, "a"), id(&mut n, "b"), id(&mut n, "out"));
    let prims = vec![
        Primitive::binary(id(&mut n, "And"), Gate::And, a, b, out),
        Primitive::binary(id(&mut n, "Or"), Gate::Or, a, b, out),
        Primitive::binary(id(&mut n, "Xor"), Gate::Xor, a, b, out),
        Primitive::unary(id(&mut n, "Not"), Gate::Not, a, out),
    ];
    let p1 = part(&mut n, "And", &[("a", "x"), ("b", "y"), ("out", "w1")]);
    let p2 = part(&mut n, "Not", &[("a", "w1"), ("out", "w2")]);
    let p3 = part(&mut n, "Or", &[("a", "w2"), ("b", "x"), ("out", "w3")]);
    let p4 = part(&mut n, "Xor", &[("a", "w3"), ("b", "y"), ("out", "o")]);
    let c = chip(&mut n, "Mix", &["x", "y"], &["o"], vec![p1, p2, p3, p4]);
    let p = Program::compile(&ast::Program { chips: vec![c] }, prims).unwrap();
    let o = id(&mut n, "o");
    for x in [false, true] {
        for y in [false, true] {
            let r = run(&mut n, &p, "Mix", &[("x", x), ("y", y)]).unwrap();
            assert_eq!(r[&o], (!(x && y) || x) != y);
        }
    }
    assert!(!Gate::Nand.apply(true, true));
    assert!(Gate::Nand.apply(true, false));
    assert_eq!(Gate::Not.input_count(), 1);
    assert_eq!(Gate::Xor.input_count(), 2);
}

#[test]
fn names_give_back_their_text() {
    let mut n = Names::new();
    let a = n.intern("alpha").unwrap();
    let b = n.intern("beta").unwrap();
    assert_eq!(a, 0);
    assert_eq!(b, 1);
    assert_eq!(n.intern("alpha"), Some(a));
    assert_eq!(n.name_text(b), "beta");
    assert_eq!(n.name_text(7), "<unrecognised interned string>");
}

#[test]
fn display_renders_hdl() {
    let mut n = Names::new();
    let p1 = part(&mut n, "Xor", &[("a", "a"), ("b", "b"), ("out", "out")]);
    let eq2 = chip(&mut n, "Eq2", &["a", "b"], &["out"], vec![p1]);
    let p2 = part(&mut n, "Nand", &[("a", "in"), ("b", "in"), ("out", "out")]);
    let not = chip(&mut n, "Not", &["in"], &["out"], vec![p2]);
    let decls = ast::Program { chips: vec![eq2, not] };
    assert_eq!(
        decls.display(&n).unwrap(),
        "CHIP Eq2 {\n  IN a, b;\n  OUT out;\nPARTS:\n  Xor(a=a, b=b, out=out)\n}\n\n\
         CHIP Not {\n  IN in;\n  OUT out;\nPARTS:\n  Nand(a=in, b=in, out=out)\n}"
    );
}

#[test]
fn display_fails_on_unknown_names() {
    let mut n = Names::new();
    let decls = ast::Program {
        chips: vec![ast::Chip { name: 3, ins: vec![], outs: vec![], parts: vec![] }],
    };
    assert_eq!(decls.display(&n), None);
    let p1 = part(&mut n, "Nand", &[("a", "a")]);
    let mut c = chip(&mut n, "Top", &["a"], &[], vec![p1]);
    c.parts[0].name_map.push((40, 41));
    assert_eq!(ast::Program { chips: vec![c] }.display(&n), None);
}

#[test]
fn unknown_names_show_placeholder_text() {
    let n = Names::new();
    assert_eq!(n.name_text(3), "<unrecognised interned string>");
}

#[test]
fn primitive_port_check() {
    let mut n = Names::new();
    let (nand, a, b, out) = (id(&mut n, "Nand"), id(&mut n, "a"), id(&mut n, "b"), id(&mut n, "out"));
    assert!(Primitive::binary(nand, Gate::Nand, a, b, out).is_wf());
    let same = Primitive { name: nand, gate: Gate::Nand, ins: vec![a, a], outs: vec![out] };
    assert!(!same.is_wf());
    let short = Primitive { name: nand, gate: Gate::Nand, ins: vec![a], outs: vec![out] };
    assert!(!short.is_wf());
}

#[test]
fn chip_instantiating_itself_rejected() {
    let mut n = Names::new();
    let prims = nand_only(&mut n);
    let p1 = part(&mut n, "Self", &[("a", "a"), ("out", "out")]);
    let c = chip(&mut n, "Self", &["a"], &["out"], vec![p1]);
    let name = id(&mut n, "Self");
    let r = Program::compile(&ast::Program { chips: vec![c] }, prims);
    assert_eq!(r, Err(CompileError::RecursiveChipDefinition { chip: name }));
}
