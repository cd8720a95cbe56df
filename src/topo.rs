//! Dependency ordering of the nodes of a graph.
//!
//! `deps[j]` lists the nodes that node `j` depends on. An order is built by
//! repeatedly taking the lowest-numbered node that has not been taken yet and
//! whose dependencies all have.
use vstd::prelude::*;
use vstd::set_lib::*;

verus! {

/// Every dependency of node `j` is in `placed`.
pub open spec fn ready(deps: Seq<Set<usize>>, placed: Set<usize>, j: int) -> bool {
    deps[j].subset_of(placed)
}

/// The dependency sets of the lists `deps`.
pub open spec fn dep_sets(deps: Seq<Vec<usize>>) -> Seq<Set<usize>> {
    Seq::new(deps.len(), |j: int| deps[j]@.to_set())
}

/// The lowest node at or above `j` that is not placed and is ready.
pub open spec fn first_ready(deps: Seq<Set<usize>>, placed: Set<usize>, j: int) -> Option<usize>
    decreases deps.len() - j,
{
    if j < 0 || j >= deps.len() {
        None
    } else if !placed.contains(j as usize) && ready(deps, placed, j) {
        Some(j as usize)
    } else {
        first_ready(deps, placed, j + 1)
    }
}

/// The first `k` nodes taken, or `None` if the process got stuck before.
pub open spec fn take_nodes(deps: Seq<Set<usize>>, k: nat) -> Option<Seq<usize>>
    decreases k,
{
    if k == 0 {
        Some(Seq::empty())
    } else {
        match take_nodes(deps, (k - 1) as nat) {
            Some(s) => match first_ready(deps, s.to_set(), 0) {
                Some(j) => Some(s.push(j)),
                None => None,
            },
            None => None,
        }
    }
}

/// The order of all nodes, or `None` where the process gets stuck.
pub open spec fn order_of(deps: Seq<Set<usize>>) -> Option<Seq<usize>> {
    take_nodes(deps, deps.len())
}

/// `order` lists every node exactly once, each after all nodes it depends on.
pub open spec fn is_order(deps: Seq<Set<usize>>, order: Seq<usize>) -> bool {
    &&& order.len() == deps.len()
    &&& order.no_duplicates()
    &&& forall|i: int| 0 <= i < order.len() ==> (#[trigger] order[i] as int) < deps.len()
    &&& forall|i: int, x: usize|
        0 <= i < order.len() && #[trigger] deps[order[i] as int].contains(x) ==> placed_before(
            order,
            i,
            x,
        )
}

/// Node `x` stands in `order` before position `i`.
pub open spec fn placed_before(order: Seq<usize>, i: int, x: usize) -> bool {
    exists|h: int| 0 <= h < i && order[h] == x
}

proof fn lemma_first_ready(deps: Seq<Set<usize>>, placed: Set<usize>, j: int)
    requires
        0 <= j,
        deps.len() <= usize::MAX,
    ensures
        match first_ready(deps, placed, j) {
            Some(r) => j <= r < deps.len() && !placed.contains(r) && ready(deps, placed, r as int),
            None => forall|x: int|
                j <= x < deps.len() ==> placed.contains(x as usize) || !ready(deps, placed, x),
        },
    decreases deps.len() - j,
{
    if j < deps.len() {
        lemma_first_ready(deps, placed, j + 1);
    }
}

/// What the nodes taken so far look like: distinct, in range, each ready on
/// the nodes taken before it.
proof fn lemma_take_nodes(deps: Seq<Set<usize>>, k: nat)
    requires
        deps.len() <= usize::MAX,
    ensures
        take_nodes(deps, k) matches Some(s) ==> {
            &&& s.len() == k
            &&& s.no_duplicates()
            &&& forall|i: int| 0 <= i < s.len() ==> (#[trigger] s[i] as int) < deps.len()
            &&& forall|i: int| 0 <= i < s.len() ==> ready(deps, s.take(i).to_set(), #[trigger] s[i] as int)
        },
    decreases k,
{
    if k > 0 {
        lemma_take_nodes(deps, (k - 1) as nat);
        if let Some(s0) = take_nodes(deps, (k - 1) as nat) {
            lemma_first_ready(deps, s0.to_set(), 0);
            if let Some(j) = first_ready(deps, s0.to_set(), 0) {
                let s = s0.push(j);
                assert forall|i: int| 0 <= i < s.len() implies ready(deps, s.take(i).to_set(), #[trigger] s[i] as int) by {
                    if i < s0.len() {
                        assert(s.take(i) =~= s0.take(i));
                    } else {
                        assert(s.take(i) =~= s0);
                    }
                }
                assert forall|a: int, b: int| 0 <= a < s.len() && 0 <= b < s.len() && a != b implies s[a] != s[b] by {
                    if a == s0.len() as int {
                        assert(s0.to_set().contains(s0[b]));
                    } else if b == s0.len() as int {
                        assert(s0.to_set().contains(s0[a]));
                    }
                }
            }
        }
    }
}

/// A complete run of the process is an order.
pub proof fn lemma_order_is_order(deps: Seq<Set<usize>>)
    requires
        deps.len() <= usize::MAX,
    ensures
        order_of(deps) matches Some(o) ==> is_order(deps, o),
{
    lemma_take_nodes(deps, deps.len());
    if let Some(o) = order_of(deps) {
        assert(o.len() == deps.len());
        assert(o.no_duplicates());
        assert(forall|i: int| 0 <= i < o.len() ==> (#[trigger] o[i] as int) < deps.len());
        assert forall|i: int, x: usize|
            0 <= i < o.len() && #[trigger] deps[o[i] as int].contains(x) implies placed_before(
            o,
            i,
            x,
        ) by {
            assert(ready(deps, o.take(i).to_set(), o[i] as int));
            assert(o.take(i).to_set().contains(x));
            let h = choose|h: int| 0 <= h < i && o.take(i)[h] == x;
            assert(o[h] == x);
        }
    }
}

/// Where the whole run fails, it gets stuck at some step `m` at or after `k`.
proof fn lemma_stuck_step(deps: Seq<Set<usize>>, k: nat) -> (m: nat)
    requires
        k <= deps.len(),
        take_nodes(deps, k) is Some,
        order_of(deps) is None,
    ensures
        k <= m < deps.len(),
        take_nodes(deps, m) is Some,
        take_nodes(deps, m + 1) is None,
    decreases deps.len() - k,
{
    if take_nodes(deps, k + 1) is None {
        k
    } else {
        lemma_stuck_step(deps, k + 1)
    }
}

/// Once stuck, the process stays stuck.
proof fn lemma_stuck_stays(deps: Seq<Set<usize>>, a: nat, b: nat)
    requires
        a <= b,
        take_nodes(deps, a) is None,
    ensures
        take_nodes(deps, b) is None,
    decreases b - a,
{
    if a < b {
        lemma_stuck_stays(deps, a, (b - 1) as nat);
    }
}

/// Where the process gets stuck, no order exists.
proof fn lemma_stuck_no_order(deps: Seq<Set<usize>>, o: Seq<usize>)
    requires
        order_of(deps) is None,
        deps.len() <= usize::MAX,
    ensures
        !is_order(deps, o),
{
    if is_order(deps, o) {
        let k = lemma_stuck_step(deps, 0);
        let s = take_nodes(deps, k).unwrap();
        lemma_take_nodes(deps, k);
        lemma_first_ready(deps, s.to_set(), 0);
        // some node of `o` is not placed
        s.unique_seq_to_set();
        o.unique_seq_to_set();
        if o.to_set().subset_of(s.to_set()) {
            lemma_len_subset(o.to_set(), s.to_set());
        }
        let x = choose|x: usize| o.to_set().contains(x) && !s.to_set().contains(x);
        let i = choose|i: int| 0 <= i < o.len() && o[i] == x;
        let j = lemma_first_unplaced(deps, o, s.to_set(), 0, i);
    }
}

/// The first node of an order that is not placed is ready.
proof fn lemma_first_unplaced(deps: Seq<Set<usize>>, o: Seq<usize>, s: Set<usize>, i: int, i0: int) -> (j: int)
    requires
        is_order(deps, o),
        0 <= i <= i0 < o.len(),
        !s.contains(o[i0]),
        forall|h: int| 0 <= h < i ==> s.contains(#[trigger] o[h]),
    ensures
        0 <= j < deps.len(),
        !s.contains(j as usize),
        ready(deps, s, j),
    decreases i0 - i,
{
    if s.contains(o[i]) {
        lemma_first_unplaced(deps, o, s, i + 1, i0)
    } else {
        let j = o[i] as int;
        assert forall|x: usize| deps[j].contains(x) implies s.contains(x) by {
            assert(placed_before(o, i, x));
            let h = choose|h: int| 0 <= h < i && o[h] == x;
        }
        j
    }
}

/// The nodes not yet placed, in increasing order.
fn unplaced(placed: &Vec<bool>) -> (r: Vec<usize>)
    ensures
        forall|x: usize| r@.contains(x) <==> (x < placed@.len() && !placed@[x as int]),
        forall|i: int| 0 <= i < r@.len() ==> (#[trigger] r@[i] as int) < placed@.len(),
{
    let mut r: Vec<usize> = Vec::new();
    let mut x: usize = 0;
    while x < placed.len()
        invariant
            x <= placed@.len(),
            forall|y: usize| r@.contains(y) <==> (y < x && !placed@[y as int]),
            forall|i: int| 0 <= i < r@.len() ==> (#[trigger] r@[i] as int) < x,
        decreases placed@.len() - x,
    {
        if !placed[x] {
            let ghost before = r@;
            r.push(x);
            proof {
                assert forall|y: usize| r@.contains(y) <==> (y < x + 1 && !placed@[y as int]) by {
                    if r@.contains(y) && y != x {
                        let i = choose|i: int| 0 <= i < r@.len() && r@[i] == y;
                        assert(before[i] == y);
                        assert(before.contains(y));
                    }
                    if y == x {
                        assert(r@[before.len() as int] == y);
                    }
                    if y < x && !placed@[y as int] {
                        assert(before.contains(y));
                        let i = choose|i: int| 0 <= i < before.len() && before[i] == y;
                        assert(r@[i] == y);
                    }
                }
            }
        }
        x = x + 1;
    }
    r
}

/// `rest` is a non-empty list of nodes, each of which depends on a node of
/// the list: no order can place any of them first.
pub open spec fn waits_on_itself(deps: Seq<Set<usize>>, rest: Seq<usize>) -> bool {
    &&& rest.len() > 0
    &&& forall|i: int| 0 <= i < rest.len() ==> (#[trigger] rest[i] as int) < deps.len()
    &&& forall|x: usize|
        rest.contains(x) ==> exists|y: usize| rest.contains(y) && #[trigger] deps[x as int].contains(y)
}

/// Orders the nodes, or gives the nodes left over where no order exists.
pub fn topo_sort(deps: &Vec<Vec<usize>>) -> (r: Result<Vec<usize>, Vec<usize>>)
    requires
        forall|j: int, t: int|
            0 <= j < deps@.len() && 0 <= t < deps@[j]@.len() ==> (#[trigger] deps@[j]@[t] as int)
                < deps@.len(),
    ensures
        match r {
            Ok(o) => order_of(dep_sets(deps@)) == Some(o@) && is_order(dep_sets(deps@), o@),
            Err(rest) => {
                &&& order_of(dep_sets(deps@)) is None
                &&& forall|o: Seq<usize>| !is_order(dep_sets(deps@), o)
                &&& waits_on_itself(dep_sets(deps@), rest@)
            },
        },
{
    let n = deps.len();
    let ghost ds = dep_sets(deps@);
    proof {
        lemma_order_is_order(ds);
    }
    let mut placed: Vec<bool> = Vec::new();
    let mut z: usize = 0;
    while z < n
        invariant
            z <= n,
            placed@.len() == z,
            forall|j: int| 0 <= j < z ==> !placed@[j],
        decreases n - z,
    {
        placed.push(false);
        z = z + 1;
    }
    let mut order: Vec<usize> = Vec::new();
    while order.len() < n
        invariant
            forall|j: int, t: int|
                0 <= j < deps@.len() && 0 <= t < deps@[j]@.len() ==> (#[trigger] deps@[j]@[t] as int)
                    < deps@.len(),
            n == ds.len(),
            n == deps@.len(),
            ds == dep_sets(deps@),
            placed@.len() == n,
            order@.len() <= n,
            take_nodes(ds, order@.len() as nat) == Some(order@),
            forall|j: int| 0 <= j < n ==> (placed@[j] <==> order@.to_set().contains(j as usize)),
        decreases n - order@.len(),
    {
        proof {
            lemma_first_ready(ds, order@.to_set(), 0);
        }
        let ghost s = order@.to_set();
        proof {
            lemma_take_nodes(ds, order@.len() as nat);
            assert forall|x: usize| s.contains(x) implies x < n by {
                let h = choose|h: int| 0 <= h < order@.len() && order@[h] == x;
            }
        }
        let mut j: usize = 0;
        let mut found = false;
        while j < n && !found
            invariant
                n == ds.len(),
                n == deps@.len(),
                ds == dep_sets(deps@),
            n == deps@.len(),
            ds == dep_sets(deps@),
                placed@.len() == n,
                j <= n,
                s == order@.to_set(),
                forall|x: int| 0 <= x < n ==> (placed@[x] <==> s.contains(x as usize)),
                forall|x: usize| s.contains(x) ==> x < n,
                found ==> j < n && first_ready(ds, s, 0) == Some(j),
                !found ==> first_ready(ds, s, 0) == first_ready(ds, s, j as int),
            decreases n - j, if found { 0int } else { 1int },
        {
            if !placed[j] {
                let dj = &deps[j];
                let mut t: usize = 0;
                let mut ok = true;
                while t < dj.len() && ok
                    invariant
                        ds[j as int] == dj@.to_set(),
                        placed@.len() == n,
                        n == ds.len(),
                n == deps@.len(),
                ds == dep_sets(deps@),
            n == deps@.len(),
            ds == dep_sets(deps@),
                        forall|x: int| 0 <= x < n ==> (placed@[x] <==> s.contains(x as usize)),
                        t <= dj@.len(),
                        j < n,
                        forall|x: usize| s.contains(x) ==> x < n,
                        forall|u: int| 0 <= u < t ==> s.contains(#[trigger] dj@[u]),
                        ds == dep_sets(deps@),
                        !ok ==> t < dj@.len() && !s.contains(dj@[t as int]),
                    decreases dj@.len() - t, if ok { 1int } else { 0int },
                {
                    let d = dj[t];
                    if d >= n || !placed[d] {
                        ok = false;
                    } else {
                        t = t + 1;
                    }
                }
                if ok {
                    found = true;
                } else {
                    j = j + 1;
                }
            } else {
                j = j + 1;
            }
        }
        if !found {
            proof {
                lemma_stuck_stays(ds, (order@.len() + 1) as nat, n as nat);
                assert forall|o: Seq<usize>| !is_order(ds, o) by {
                    lemma_stuck_no_order(ds, o);
                }
                lemma_take_nodes(ds, order@.len() as nat);
                lemma_first_ready(ds, s, 0);
            }
            let rest = unplaced(&placed);
            proof {
                // some node is not placed
                let all = Seq::new(n as nat, |i: int| i as usize);
                assert forall|a: int, b: int| 0 <= a < b < all.len() implies all[a] != all[b] by {}
                order@.unique_seq_to_set();
                all.unique_seq_to_set();
                if forall|x: int| 0 <= x < n ==> placed@[x] {
                    assert forall|x: usize| all.to_set().contains(x) implies s.contains(x) by {
                        let i = choose|i: int| 0 <= i < all.len() && all[i] == x;
                        assert(placed@[i]);
                    }
                    lemma_len_subset(all.to_set(), s);
                }
                let x0 = choose|x: int| 0 <= x < n && !placed@[x];
                assert(rest@.contains(x0 as usize));
                assert forall|x: usize| rest@.contains(x) implies exists|y: usize|
                    rest@.contains(y) && #[trigger] ds[x as int].contains(y) by {
                    assert(!s.contains(x));
                    assert(!ready(ds, s, x as int));
                    let y = choose|y: usize| ds[x as int].contains(y) && !s.contains(y);
                    assert(ds[x as int] == deps@[x as int]@.to_set());
                    assert(deps@[x as int]@.contains(y));
                    let t = choose|t: int| 0 <= t < deps@[x as int]@.len() && deps@[x as int]@[t] == y;
                    assert((y as int) < n);
                    assert(!placed@[y as int]);
                    assert(rest@.contains(y));
                }
            }
            return Err(rest);
        }
        proof {
            lemma_take_nodes(ds, order@.len() as nat);
            lemma_first_ready(ds, s, 0);
        }
        let ghost before = order@;
        order.push(j);
        placed.set(j, true);
        proof {
            before.lemma_push_to_set_commute(j);
        }
    }
    proof {
        assert(order@.len() == n);
    }
    Ok(order)
}

/// A duplicate-free list of `n` nodes below `n` holds every node below `n`.
pub proof fn lemma_order_covers(o: Seq<usize>, n: nat, j: usize)
    requires
        o.len() == n,
        o.no_duplicates(),
        forall|i: int| 0 <= i < o.len() ==> (#[trigger] o[i] as int) < n,
        j < n,
    ensures
        o.contains(j),
{
    if !o.contains(j) {
        let oi = o.map_values(|x: usize| x as int);
        assert forall|a: int, b: int| 0 <= a < b < oi.len() implies oi[a] != oi[b] by {
            assert(o[a] != o[b]);
        }
        assert(oi.no_duplicates());
        oi.unique_seq_to_set();
        let r = vstd::set_lib::set_int_range(0, n as int).remove(j as int);
        vstd::set_lib::lemma_int_range(0, n as int);
        assert forall|x: int| oi.to_set().contains(x) implies r.contains(x) by {
            let i = choose|i: int| 0 <= i < oi.len() && oi[i] == x;
            assert(o[i] != j);
        }
        vstd::set_lib::lemma_len_subset(oi.to_set(), r);
    }
}

/// `c` runs around a cycle: each node of it depends on the next, and the
/// last on the first.
pub open spec fn is_cycle(deps: Seq<Set<usize>>, c: Seq<usize>) -> bool {
    &&& c.len() > 0
    &&& forall|i: int| 0 <= i < c.len() ==> (#[trigger] c[i] as int) < deps.len()
    &&& forall|i: int| 0 <= i < c.len() ==> deps[c[i] as int].contains(#[trigger] successor(c, i))
}

/// The node after position `i` of the cycle `c`.
pub open spec fn successor(c: Seq<usize>, i: int) -> usize {
    if i + 1 < c.len() {
        c[i + 1]
    } else {
        c[0]
    }
}

/// Position of node `x` in `o`.
spec fn position(o: Seq<usize>, x: usize) -> int {
    choose|i: int| 0 <= i < o.len() && o[i] == x
}

proof fn lemma_dep_earlier(deps: Seq<Set<usize>>, o: Seq<usize>, x: usize, y: usize)
    requires
        is_order(deps, o),
        (x as int) < deps.len(),
        deps[x as int].contains(y),
    ensures
        0 <= position(o, y) < position(o, x) < o.len(),
        o[position(o, x)] == x,
        o[position(o, y)] == y,
{
    lemma_order_covers(o, deps.len(), x);
    let px = position(o, x);
    assert(placed_before(o, px, y));
    let h = choose|h: int| 0 <= h < px && o[h] == y;
    let py = position(o, y);
    assert(o[py] == y);
    assert(py == h);
}

proof fn lemma_cycle_positions(deps: Seq<Set<usize>>, o: Seq<usize>, c: Seq<usize>, i: int)
    requires
        is_order(deps, o),
        is_cycle(deps, c),
        0 <= i < c.len(),
    ensures
        position(o, c[i]) <= position(o, c[0]) - i,
        o[position(o, c[i])] == c[i],
    decreases i,
{
    if i == 0 {
        lemma_order_covers(o, deps.len(), c[0]);
    } else {
        lemma_cycle_positions(deps, o, c, i - 1);
        assert(deps[c[i - 1] as int].contains(successor(c, i - 1)));
        lemma_dep_earlier(deps, o, c[i - 1], c[i]);
    }
}

/// A graph with a cycle has no order.
pub proof fn lemma_cycle_no_order(deps: Seq<Set<usize>>, c: Seq<usize>, o: Seq<usize>)
    requires
        is_cycle(deps, c),
    ensures
        !is_order(deps, o),
{
    if is_order(deps, o) {
        let last = c.len() - 1;
        lemma_cycle_positions(deps, o, c, last);
        assert(deps[c[last] as int].contains(successor(c, last)));
        lemma_dep_earlier(deps, o, c[last], c[0]);
    }
}

} // verus!
