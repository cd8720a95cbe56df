//! Rendering chip declarations back to HDL text.
use vstd::prelude::*;
use vstd::string::StringExecFns;
use crate::ast::{Chip, Part, Program};
use crate::names::{Names, interned, unknown_name};

verus! {

/// How identifier `id` is shown, given the interned strings `tbl`.
pub open spec fn shown(tbl: Seq<Seq<char>>, id: u32) -> Seq<char> {
    if id < tbl.len() {
        tbl[id as int]
    } else {
        unknown_name()
    }
}

/// `items` with `sep` between each two.
pub open spec fn join(items: Seq<Seq<char>>, sep: Seq<char>) -> Seq<char>
    decreases items.len(),
{
    if items.len() == 0 {
        Seq::empty()
    } else if items.len() == 1 {
        items[0]
    } else {
        join(items.drop_last(), sep) + sep + items.last()
    }
}

pub open spec fn render_ids(tbl: Seq<Seq<char>>, ids: Seq<u32>) -> Seq<char> {
    join(ids.map_values(|id: u32| shown(tbl, id)), ", "@)
}

pub open spec fn render_conn(tbl: Seq<Seq<char>>, c: (u32, u32)) -> Seq<char> {
    shown(tbl, c.0) + "="@ + shown(tbl, c.1)
}

/// A part as `Name(port=wire, ...)`.
pub open spec fn render_part(tbl: Seq<Seq<char>>, p: Part) -> Seq<char> {
    shown(tbl, p.chip_name) + "("@ + join(
        p.name_map@.map_values(|c: (u32, u32)| render_conn(tbl, c)),
        ", "@,
    ) + ")"@
}

/// A chip in HDL form.
pub open spec fn render_chip(tbl: Seq<Seq<char>>, c: Chip) -> Seq<char> {
    "CHIP "@ + shown(tbl, c.name) + " {\n  IN "@ + render_ids(tbl, c.ins@) + ";\n  OUT "@
        + render_ids(tbl, c.outs@) + ";\nPARTS:\n  "@ + join(
        c.parts@.map_values(|p: Part| render_part(tbl, p)),
        "\n  "@,
    ) + "\n}"@
}

/// All chips, separated by blank lines.
pub open spec fn render_program(tbl: Seq<Seq<char>>, p: Program) -> Seq<char> {
    join(p.chips@.map_values(|c: Chip| render_chip(tbl, c)), "\n\n"@)
}

proof fn lemma_join_step(items: Seq<Seq<char>>, sep: Seq<char>, i: int)
    requires
        0 <= i < items.len(),
    ensures
        join(items.take(i + 1), sep) == join(items.take(i), sep) + (if i == 0 {
            Seq::empty()
        } else {
            sep
        }) + items[i],
{
    assert(items.take(i + 1).drop_last() =~= items.take(i));
    if i == 0 {
        assert(join(items.take(0), sep) =~= Seq::<char>::empty());
        assert(Seq::<char>::empty() + Seq::<char>::empty() + items[0] =~= items[0]);
    }
}

fn append_name(out: &mut String, names: &Names, id: u32)
    ensures
        final(out)@ == old(out)@ + shown(interned(*names), id),
{
    let t = names.name_text(id);
    out.append(t.as_str());
}

fn append_ids(out: &mut String, names: &Names, ids: &Vec<u32>)
    ensures
        final(out)@ == old(out)@ + render_ids(interned(*names), ids@),
{
    let ghost tbl = interned(*names);
    let ghost items = ids@.map_values(|id: u32| shown(tbl, id));
    let ghost base = out@;
    let mut i: usize = 0;
    while i < ids.len()
        invariant
            i <= ids@.len(),
            tbl == interned(*names),
            items == ids@.map_values(|id: u32| shown(tbl, id)),
            out@ == base + join(items.take(i as int), ", "@),
        decreases ids@.len() - i,
    {
        proof {
            lemma_join_step(items, ", "@, i as int);
        }
        if i > 0 {
            out.append(", ");
        }
        append_name(out, names, ids[i]);
        proof {
            assert(out@ =~= base + join(items.take(i + 1), ", "@));
        }
        i = i + 1;
    }
    proof {
        assert(items.take(i as int) =~= items);
    }
}

fn append_part(out: &mut String, names: &Names, p: &Part)
    ensures
        final(out)@ == old(out)@ + render_part(interned(*names), *p),
{
    let ghost tbl = interned(*names);
    let ghost items = p.name_map@.map_values(|c: (u32, u32)| render_conn(tbl, c));
    let ghost start = out@;
    append_name(out, names, p.chip_name);
    out.append("(");
    let ghost base = out@;
    let mut i: usize = 0;
    while i < p.name_map.len()
        invariant
            i <= p.name_map@.len(),
            tbl == interned(*names),
            items == p.name_map@.map_values(|c: (u32, u32)| render_conn(tbl, c)),
            out@ == base + join(items.take(i as int), ", "@),
        decreases p.name_map@.len() - i,
    {
        proof {
            lemma_join_step(items, ", "@, i as int);
        }
        if i > 0 {
            out.append(", ");
        }
        let (k, v) = p.name_map[i];
        append_name(out, names, k);
        out.append("=");
        append_name(out, names, v);
        proof {
            assert(out@ =~= base + join(items.take(i + 1), ", "@));
        }
        i = i + 1;
    }
    out.append(")");
    proof {
        assert(items.take(i as int) =~= items);
        assert(out@ =~= start + render_part(tbl, *p));
    }
}

fn append_chip(out: &mut String, names: &Names, c: &Chip)
    ensures
        final(out)@ == old(out)@ + render_chip(interned(*names), *c),
{
    let ghost tbl = interned(*names);
    let ghost items = c.parts@.map_values(|p: Part| render_part(tbl, p));
    let ghost start = out@;
    out.append("CHIP ");
    append_name(out, names, c.name);
    out.append(" {\n  IN ");
    append_ids(out, names, &c.ins);
    out.append(";\n  OUT ");
    append_ids(out, names, &c.outs);
    out.append(";\nPARTS:\n  ");
    let ghost base = out@;
    let mut i: usize = 0;
    while i < c.parts.len()
        invariant
            i <= c.parts@.len(),
            tbl == interned(*names),
            items == c.parts@.map_values(|p: Part| render_part(tbl, p)),
            out@ == base + join(items.take(i as int), "\n  "@),
        decreases c.parts@.len() - i,
    {
        proof {
            lemma_join_step(items, "\n  "@, i as int);
        }
        if i > 0 {
            out.append("\n  ");
        }
        append_part(out, names, &c.parts[i]);
        proof {
            assert(out@ =~= base + join(items.take(i + 1), "\n  "@));
        }
        i = i + 1;
    }
    out.append("\n}");
    proof {
        assert(items.take(i as int) =~= items);
        assert(out@ =~= start + render_chip(tbl, *c));
    }
}

/// Every identifier in `ids` is below `n`.
pub open spec fn ids_held(n: nat, ids: Seq<u32>) -> bool {
    forall|i: int| 0 <= i < ids.len() ==> (#[trigger] ids[i] as nat) < n
}

/// Every identifier that part `p` names is below `n`.
pub open spec fn part_held(n: nat, p: Part) -> bool {
    &&& (p.chip_name as nat) < n
    &&& forall|i: int|
        0 <= i < p.name_map@.len() ==> (#[trigger] p.name_map@[i]).0 < n && p.name_map@[i].1 < n
}

/// Every identifier that chip `c` names is below `n`.
pub open spec fn chip_held(n: nat, c: Chip) -> bool {
    &&& (c.name as nat) < n
    &&& ids_held(n, c.ins@)
    &&& ids_held(n, c.outs@)
    &&& forall|k: int| 0 <= k < c.parts@.len() ==> part_held(n, #[trigger] c.parts@[k])
}

/// Every identifier of the declarations is held by a table of `n` strings.
pub open spec fn program_held(n: nat, p: Program) -> bool {
    forall|ci: int| 0 <= ci < p.chips@.len() ==> chip_held(n, #[trigger] p.chips@[ci])
}

fn ids_held_exec(names: &Names, ids: &Vec<u32>) -> (r: bool)
    ensures
        r == ids_held(interned(*names).len(), ids@),
{
    let mut i: usize = 0;
    while i < ids.len()
        invariant
            i <= ids@.len(),
            forall|h: int| 0 <= h < i ==> (#[trigger] ids@[h] as nat) < interned(*names).len(),
        decreases ids@.len() - i,
    {
        if !names.holds(ids[i]) {
            return false;
        }
        i = i + 1;
    }
    true
}

fn part_held_exec(names: &Names, p: &Part) -> (r: bool)
    ensures
        r == part_held(interned(*names).len(), *p),
{
    if !names.holds(p.chip_name) {
        return false;
    }
    let mut i: usize = 0;
    while i < p.name_map.len()
        invariant
            i <= p.name_map@.len(),
            (p.chip_name as nat) < interned(*names).len(),
            forall|h: int|
                0 <= h < i ==> (#[trigger] p.name_map@[h]).0 < interned(*names).len()
                    && p.name_map@[h].1 < interned(*names).len(),
        decreases p.name_map@.len() - i,
    {
        let (k, v) = p.name_map[i];
        if !names.holds(k) || !names.holds(v) {
            return false;
        }
        i = i + 1;
    }
    true
}

fn chip_held_exec(names: &Names, c: &Chip) -> (r: bool)
    ensures
        r == chip_held(interned(*names).len(), *c),
{
    if !names.holds(c.name) || !ids_held_exec(names, &c.ins) || !ids_held_exec(names, &c.outs) {
        return false;
    }
    let mut k: usize = 0;
    while k < c.parts.len()
        invariant
            k <= c.parts@.len(),
            forall|h: int| 0 <= h < k ==> part_held(interned(*names).len(), #[trigger] c.parts@[h]),
        decreases c.parts@.len() - k,
    {
        if !part_held_exec(names, &c.parts[k]) {
            return false;
        }
        k = k + 1;
    }
    true
}

impl Program {
    /// The declarations as HDL text, chips separated by blank lines; `None`
    /// where some identifier is not held by `names`.
    pub fn display(&self, names: &Names) -> (r: Option<String>)
        ensures
            match r {
                Some(s) => program_held(interned(*names).len(), *self) && s@ == render_program(
                    interned(*names),
                    *self,
                ),
                None => !program_held(interned(*names).len(), *self),
            },
    {
        let mut ci: usize = 0;
        while ci < self.chips.len()
            invariant
                ci <= self.chips@.len(),
                forall|h: int|
                    0 <= h < ci ==> chip_held(interned(*names).len(), #[trigger] self.chips@[h]),
            decreases self.chips@.len() - ci,
        {
            if !chip_held_exec(names, &self.chips[ci]) {
                return None;
            }
            ci = ci + 1;
        }
        Some(self.render(names))
    }

    /// The declarations as HDL text; an identifier that `names` does not hold
    /// is shown as a placeholder.
    fn render(&self, names: &Names) -> (r: String)
        ensures
            r@ == render_program(interned(*names), *self),
    {
        let ghost tbl = interned(*names);
        let ghost items = self.chips@.map_values(|c: Chip| render_chip(tbl, c));
        let mut out = String::new();
        let mut i: usize = 0;
        while i < self.chips.len()
            invariant
                i <= self.chips@.len(),
                tbl == interned(*names),
                items == self.chips@.map_values(|c: Chip| render_chip(tbl, c)),
                out@ == join(items.take(i as int), "\n\n"@),
            decreases self.chips@.len() - i,
        {
            proof {
                lemma_join_step(items, "\n\n"@, i as int);
            }
            if i > 0 {
                out.append("\n\n");
            }
            append_chip(&mut out, names, &self.chips[i]);
            proof {
                assert(out@ =~= join(items.take(i + 1), "\n\n"@));
            }
            i = i + 1;
        }
        proof {
            assert(items.take(i as int) =~= items);
        }
        out
    }
}

} // verus!
