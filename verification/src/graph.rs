//! Dependency graphs keyed by identifier: deterministic topological order and reverse reach.
use vstd::prelude::*;
use crate::collections::{increasing, string_views, lemma_seq_lt_irreflexive, lemma_seq_lt_asymmetric, IdMap, IdSet};
use crate::text::seq_lt;

verus! {

/// Nodes of a graph (its keys) and the dependencies of each.
pub type Graph = IdMap<IdSet>;

/// Every dependency of every node is itself a node.
pub open spec fn closed_graph(g: Graph) -> bool {
    forall|i: int, d: Seq<char>| #![trigger g.values()[i].has(d)] 0 <= i < g.keys().len() && g.values()[i].has(d) ==> g.has(d)
}

/// The dependencies of node `k`.
pub open spec fn deps(g: Graph, k: Seq<char>) -> IdSet {
    g.at(k)
}

/// `order` lists every node exactly once, each after all of its dependencies.
pub open spec fn topological_order(g: Graph, order: Seq<Seq<char>>) -> bool {
    &&& order.len() == g.keys().len()
    &&& forall|i: int, j: int| 0 <= i < j < order.len() ==> order[i] != order[j]
    &&& forall|k: Seq<char>| #[trigger] order.contains(k) <==> g.has(k)
    &&& forall|i: int, d: Seq<char>| #![trigger deps(g, order[i]).has(d)] 0 <= i < order.len() && deps(g, order[i]).has(d)
        ==> exists|j: int| 0 <= j < i && order[j] == d
}

/// Node `k` is ready at position `a` of `order`: not placed before `a`, and each of its
/// dependencies placed before `a`.
pub open spec fn ready_at(g: Graph, order: Seq<Seq<char>>, a: int, k: Seq<char>) -> bool {
    &&& g.has(k)
    &&& !order.take(a).contains(k)
    &&& forall|d: Seq<char>| deps(g, k).has(d) ==> order.take(a).contains(d)
}

/// Ties are broken by ID: no node ready at a position has a smaller ID than the node placed
/// there.
pub open spec fn least_ready_first(g: Graph, order: Seq<Seq<char>>) -> bool {
    forall|a: int, k: Seq<char>| 0 <= a < order.len() && #[trigger] ready_at(g, order, a, k) ==> !seq_lt(k, order[a])
}

/// A nonempty set of nodes each of which depends on a node of the set: a cycle witness.
pub open spec fn stuck(g: Graph, s: Set<Seq<char>>) -> bool {
    &&& exists|k: Seq<char>| s.contains(k)
    &&& forall|k: Seq<char>| s.contains(k) ==> g.has(k)
    &&& forall|k: Seq<char>| #![trigger deps(g, k)] s.contains(k) ==> exists|d: Seq<char>| deps(g, k).has(d) && s.contains(d)
}

/// No set of nodes is stuck: the dependencies admit an order.
pub open spec fn acyclic(g: Graph) -> bool {
    forall|s: Set<Seq<char>>| !stuck(g, s)
}

/// Number of keys not yet in `done`.
pub open spec fn undone(keys: Seq<Seq<char>>, done: IdSet) -> nat
    decreases keys.len(),
{
    if keys.len() == 0 { 0 } else { undone(keys.drop_last(), done) + (if done.has(keys.last()) { 0nat } else { 1nat }) }
}

proof fn lemma_undone_shrinks(keys: Seq<Seq<char>>, a: IdSet, b: IdSet, k: Seq<char>)
    requires
        forall|x: Seq<char>| a.has(x) ==> b.has(x),
        keys.contains(k), !a.has(k), b.has(k),
    ensures undone(keys, b) < undone(keys, a),
    decreases keys.len(),
{
    lemma_undone_mono(keys.drop_last(), a, b);
    if keys.last() != k {
        assert(keys.drop_last().contains(k)) by {
            let i = choose|i: int| 0 <= i < keys.len() && keys[i] == k;
            assert(i < keys.len() - 1);
            assert(keys.drop_last()[i] == k);
        }
        lemma_undone_shrinks(keys.drop_last(), a, b, k);
    }
}

proof fn lemma_undone_mono(keys: Seq<Seq<char>>, a: IdSet, b: IdSet)
    requires forall|x: Seq<char>| a.has(x) ==> b.has(x),
    ensures undone(keys, b) <= undone(keys, a),
    decreases keys.len(),
{
    if keys.len() > 0 { lemma_undone_mono(keys.drop_last(), a, b); }
}

proof fn lemma_not_stuck(g: Graph, order: Seq<Seq<char>>, s: Set<Seq<char>>)
    requires topological_order(g, order),
    ensures !stuck(g, s),
{
    if stuck(g, s) {
        let k0 = choose|k: Seq<char>| s.contains(k);
        assert(g.has(k0));
        assert(order.contains(k0));
        let j0 = choose|j: int| 0 <= j < order.len() && order[j] == k0;
        assert(s.contains(order[j0]));
        let i = earliest(order, s, order.len() as int);
        let k = order[i];
        assert(s.contains(k));
        let d = choose|d: Seq<char>| deps(g, k).has(d) && s.contains(d);
        assert(deps(g, order[i]).has(d));
        let j = choose|j: int| 0 <= j < i && order[j] == d;
        assert(!s.contains(order[j]));
    }
}

/// A graph with a topological order has no stuck set.
proof fn lemma_order_acyclic(g: Graph, order: Seq<Seq<char>>)
    requires topological_order(g, order),
    ensures acyclic(g),
{
    assert forall|s: Set<Seq<char>>| !stuck(g, s) by {
        lemma_not_stuck(g, order, s);
    }
}

/// The earliest position below `n` of a node in `s`, given one exists.
proof fn earliest(order: Seq<Seq<char>>, s: Set<Seq<char>>, n: int) -> (i: int)
    requires 0 <= n <= order.len(), exists|j: int| 0 <= j < n && s.contains(#[trigger] order[j]),
    ensures 0 <= i < n, s.contains(order[i]), forall|j: int| 0 <= j < i ==> !s.contains(#[trigger] order[j]),
    decreases n,
{
    if exists|j: int| 0 <= j < n - 1 && s.contains(#[trigger] order[j]) {
        earliest(order, s, n - 1)
    } else {
        n - 1
    }
}

/// The first node, in key order, that is not done and whose dependencies are all done.
fn ready_node(g: &Graph, done: &IdSet) -> (r: (Option<usize>, bool))
    ensures
        r.0 matches Some(i) ==> i < g.keys().len() && !done.has(g.keys()[i as int])
            && (forall|d: Seq<char>| deps(*g, g.keys()[i as int]).has(d) ==> done.has(d))
            && (forall|j: int| 0 <= j < i && !done.has(#[trigger] g.keys()[j])
                ==> exists|d: Seq<char>| deps(*g, g.keys()[j]).has(d) && !done.has(d)),
        r.0 is None ==> forall|i: int| 0 <= i < g.keys().len() && !done.has(#[trigger] g.keys()[i])
            ==> exists|d: Seq<char>| deps(*g, g.keys()[i]).has(d) && !done.has(d),
        r.1 <==> exists|i: int| 0 <= i < g.keys().len() && !done.has(#[trigger] g.keys()[i]),
{
    let entries = g.entries();
    let mut left = false;
    let mut i: usize = 0;
    while i < entries.len()
        invariant
            i <= entries@.len(), entries@.len() == g.keys().len(), g.keys().len() == g.values().len(),
            forall|j: int| 0 <= j < entries@.len() ==> (#[trigger] entries@[j]).0@ == g.keys()[j] && entries@[j].1 == g.values()[j],
            increasing(g.keys()),
            forall|j: int| 0 <= j < i && !done.has(#[trigger] g.keys()[j])
                ==> exists|d: Seq<char>| deps(*g, g.keys()[j]).has(d) && !done.has(d),
            left <==> exists|j: int| 0 <= j < i && !done.has(#[trigger] g.keys()[j]),
        decreases entries@.len() - i,
    {
        proof { g.lemma_at_index(i as int); }
        if !done.contains(entries[i].0.as_str()) {
            left = true;
            let members = entries[i].1.items();
            let mut all = true;
            let mut j: usize = 0;
            while j < members.len()
                invariant
                    j <= members@.len(), members@.len() == entries@[i as int].1.members().len(),
                    forall|x: int| 0 <= x < members@.len() ==> (#[trigger] members@[x])@ == entries@[i as int].1.members()[x],
                    all ==> forall|x: int| 0 <= x < j ==> done.has(#[trigger] entries@[i as int].1.members()[x]),
                    !all ==> exists|x: int| 0 <= x < members@.len() && !done.has(#[trigger] entries@[i as int].1.members()[x]),
                decreases members@.len() - j,
            {
                if all && !done.contains(members[j].as_str()) {
                    all = false;
                }
                j += 1;
            }
            if all {
                proof {
                    assert forall|d: Seq<char>| deps(*g, g.keys()[i as int]).has(d) implies done.has(d) by {
                        let x = choose|x: int| 0 <= x < entries@[i as int].1.members().len() && entries@[i as int].1.members()[x] == d;
                        assert(done.has(entries@[i as int].1.members()[x]));
                    }
                }
                return (Some(i), true);
            } else {
                proof {
                    let x = choose|x: int| 0 <= x < members@.len() && !done.has(#[trigger] entries@[i as int].1.members()[x]);
                    let d = entries@[i as int].1.members()[x];
                    assert(deps(*g, g.keys()[i as int]).has(d));
                }
            }
        }
        i += 1;
    }
    (None, left)
}

/// Orders the nodes so that each comes after its dependencies, taking at every step the
/// first ready node in key order; fails exactly when some nodes depend on each other in a cycle.
pub fn topological(g: &Graph) -> (r: Option<Vec<String>>)
    requires closed_graph(*g),
    ensures
        r is Some <==> acyclic(*g),
        r matches Some(order) ==> topological_order(*g, string_views(order@)),
        r matches Some(order) ==> least_ready_first(*g, string_views(order@)),
{
    let _ = g.entries();
    let mut done = IdSet::new();
    let mut order: Vec<String> = Vec::new();
    loop
        invariant
            closed_graph(*g), increasing(g.keys()), g.keys().len() == g.values().len(),
            forall|k: Seq<char>| done.has(k) <==> #[trigger] string_views(order@).contains(k),
            forall|k: Seq<char>| done.has(k) ==> g.has(k),
            forall|i: int, j: int| 0 <= i < j < order@.len() ==> order@[i]@ != order@[j]@,
            forall|i: int, d: Seq<char>| #![trigger deps(*g, order@[i]@).has(d)] 0 <= i < order@.len() && deps(*g, order@[i]@).has(d)
                ==> exists|j: int| 0 <= j < i && order@[j]@ == d,
            least_ready_first(*g, string_views(order@)),
        decreases undone(g.keys(), done),
    {
        let ghost ov = string_views(order@);
        let (next, left) = ready_node(g, &done);
        match next {
            Some(i) => {
                let entries = g.entries();
                let id = entries[i].0.clone();
                let ghost before = done;
                let ghost old_order = order@;
                let ghost k = id@;
                done.insert(id.clone());
                order.push(id);
                proof {
                    lemma_undone_shrinks(g.keys(), before, done, k);
                    let nv = string_views(order@);
                    assert(nv =~= ov.push(k));
                    assert forall|x: Seq<char>| done.has(x) <==> #[trigger] nv.contains(x) by {
                        if x == k { assert(nv[nv.len() - 1] == k); }
                        else if ov.contains(x) {
                            let j = choose|j: int| 0 <= j < ov.len() && ov[j] == x;
                            assert(nv[j] == x);
                        } else if nv.contains(x) {
                            let j = choose|j: int| 0 <= j < nv.len() && nv[j] == x;
                            assert(j < ov.len());
                            assert(ov[j] == x);
                        }
                    }
                    assert forall|a: int, b: int| 0 <= a < b < order@.len() implies order@[a]@ != order@[b]@ by {
                        if b == order@.len() - 1 {
                            assert(ov[a] == order@[a]@);
                            assert(ov.contains(order@[a]@));
                        }
                    }
                    assert forall|a: int, d: Seq<char>| #![trigger deps(*g, order@[a]@).has(d)] 0 <= a < order@.len() && deps(*g, order@[a]@).has(d)
                        implies exists|j: int| 0 <= j < a && order@[j]@ == d by {
                        if a < order@.len() - 1 {
                            assert(order@[a] == old_order[a]);
                            assert(deps(*g, old_order[a]@).has(d));
                            let j = choose|j: int| 0 <= j < a && old_order[j]@ == d;
                            assert(order@[j] == old_order[j]);
                        } else {
                            assert(order@[a]@ == k);
                            assert(before.has(d));
                            assert(ov.contains(d));
                            let j = choose|j: int| 0 <= j < ov.len() && ov[j] == d;
                            assert(order@[j]@ == d);
                        }
                    }
                    assert forall|a: int, x: Seq<char>| 0 <= a < nv.len() && #[trigger] ready_at(*g, nv, a, x)
                        implies !seq_lt(x, nv[a]) by {
                        if a < ov.len() {
                            assert(nv.take(a) =~= ov.take(a));
                            assert(nv[a] == ov[a]);
                            assert(ready_at(*g, ov, a, x));
                        } else {
                            assert(nv.take(a) =~= ov);
                            assert(nv[a] == k);
                            if seq_lt(x, k) {
                                let jx = choose|jx: int| 0 <= jx < g.keys().len() && g.keys()[jx] == x;
                                if jx == i { lemma_seq_lt_irreflexive(x); }
                                else if jx > i { lemma_seq_lt_asymmetric(x, k); }
                                else {
                                    assert(!before.has(g.keys()[jx]));
                                    let d = choose|d: Seq<char>| deps(*g, g.keys()[jx]).has(d) && !before.has(d);
                                    assert(ov.contains(d));
                                }
                            }
                        }
                    }
                }
            }
            None => {
                if left {
                    proof {
                        let s = Set::new(|k: Seq<char>| g.has(k) && !done.has(k));
                        let i = choose|i: int| 0 <= i < g.keys().len() && !done.has(#[trigger] g.keys()[i]);
                        assert(s.contains(g.keys()[i]));
                        assert forall|k: Seq<char>| #[trigger] s.contains(k) implies exists|d: Seq<char>| deps(*g, k).has(d) && s.contains(d) by {
                            let x = choose|x: int| 0 <= x < g.keys().len() && g.keys()[x] == k;
                            let d = choose|d: Seq<char>| deps(*g, g.keys()[x]).has(d) && !done.has(d);
                            g.lemma_at_index(x);
                            assert(g.has(d));
                            assert(s.contains(d));
                        }
                        assert(stuck(*g, s));
                    }
                    return None;
                }
                proof {
                    let ov = string_views(order@);
                    assert forall|k: Seq<char>| #[trigger] ov.contains(k) <==> g.has(k) by {
                        if g.has(k) {
                            let x = choose|x: int| 0 <= x < g.keys().len() && g.keys()[x] == k;
                            assert(done.has(g.keys()[x]));
                        }
                    }
                    lemma_distinct_len(ov, g.keys());
                    assert forall|a: int, b: int| 0 <= a < b < ov.len() implies ov[a] != ov[b] by {
                        assert(order@[a]@ != order@[b]@);
                    }
                    assert forall|a: int, d: Seq<char>| #![trigger deps(*g, ov[a]).has(d)] 0 <= a < ov.len() && deps(*g, ov[a]).has(d)
                        implies exists|j: int| 0 <= j < a && ov[j] == d by {
                        assert(ov[a] == order@[a]@);
                        assert(deps(*g, order@[a]@).has(d));
                        let j = choose|j: int| 0 <= j < a && order@[j]@ == d;
                        assert(ov[j] == d);
                    }
                    assert(topological_order(*g, ov));
                    lemma_order_acyclic(*g, ov);
                }
                return Some(order);
            }
        }
    }
}

/// Two duplicate-free listings of the same keys have the same length.
proof fn lemma_distinct_len(a: Seq<Seq<char>>, b: Seq<Seq<char>>)
    requires
        forall|i: int, j: int| 0 <= i < j < a.len() ==> a[i] != a[j],
        increasing(b),
        forall|k: Seq<char>| #[trigger] a.contains(k) <==> b.contains(k),
    ensures a.len() == b.len(),
{
    assert(a.no_duplicates());
    assert(b.no_duplicates()) by {
        assert forall|i: int, j: int| 0 <= i < b.len() && 0 <= j < b.len() && i != j implies b[i] != b[j] by {
            if i < j { crate::collections::lemma_seq_lt_irreflexive(b[i]); assert(crate::text::seq_lt(b[i], b[j])); }
            else { crate::collections::lemma_seq_lt_irreflexive(b[j]); assert(crate::text::seq_lt(b[j], b[i])); }
        }
    }
    assert(a.to_set() =~= b.to_set()) by {
        assert forall|k: Seq<char>| a.to_set().contains(k) <==> b.to_set().contains(k) by {
            assert(a.contains(k) <==> b.contains(k));
        }
    }
    a.unique_seq_to_set();
    b.unique_seq_to_set();
}


/// Whether `r` is what `seeds` reach through consumers: the seeds that are nodes, and every
/// node with a dependency in `r`; each member is a seed or depends on a member.
pub open spec fn reach_ok(g: Graph, seeds: IdSet, r: IdSet) -> bool {
    &&& forall|k: Seq<char>| seeds.has(k) && g.has(k) ==> #[trigger] r.has(k)
    &&& forall|k: Seq<char>| #[trigger] r.has(k) ==> g.has(k)
    &&& forall|k: Seq<char>, d: Seq<char>| #![trigger deps(g, k).has(d), r.has(k)]
        g.has(k) && deps(g, k).has(d) && r.has(d) ==> r.has(k)
    &&& forall|k: Seq<char>| #[trigger] r.has(k) ==> seeds.has(k) || exists|d: Seq<char>| deps(g, k).has(d) && r.has(d)
}

/// A set that holds the seeds that are nodes and every node with a dependency in the set.
pub open spec fn consumer_closed(g: Graph, seeds: IdSet, s: Set<Seq<char>>) -> bool {
    &&& forall|k: Seq<char>| seeds.has(k) && g.has(k) ==> #[trigger] s.contains(k)
    &&& forall|k: Seq<char>, d: Seq<char>| #![trigger deps(g, k).has(d), s.contains(k)]
        g.has(k) && deps(g, k).has(d) && s.contains(d) ==> s.contains(k)
}

/// `r` lies within every set closed under consumers that holds the seeds: it is the least one.
pub open spec fn least_reach(g: Graph, seeds: IdSet, r: IdSet) -> bool {
    forall|s: Set<Seq<char>>, k: Seq<char>| consumer_closed(g, seeds, s) && #[trigger] r.has(k) ==> #[trigger] s.contains(k)
}

/// In a graph with a topological order, what `reach` computes is the least set closed under
/// consumers that holds the seeds.
pub proof fn lemma_reach_least(g: Graph, order: Seq<Seq<char>>, seeds: IdSet, r: IdSet)
    requires topological_order(g, order), reach_ok(g, seeds, r),
    ensures least_reach(g, seeds, r),
{
    assert forall|s: Set<Seq<char>>, k: Seq<char>| consumer_closed(g, seeds, s) && #[trigger] r.has(k)
        implies #[trigger] s.contains(k) by {
        lemma_reach_within(g, order, seeds, r, s, k);
    }
}

proof fn lemma_reach_within(g: Graph, order: Seq<Seq<char>>, seeds: IdSet, r: IdSet, s: Set<Seq<char>>, k: Seq<char>)
    requires topological_order(g, order), reach_ok(g, seeds, r), consumer_closed(g, seeds, s), r.has(k),
    ensures s.contains(k),
{
    let bad = Set::new(|x: Seq<char>| r.has(x) && !s.contains(x));
    if !s.contains(k) {
        assert(g.has(k));
        assert(order.contains(k));
        let j0 = choose|j: int| 0 <= j < order.len() && order[j] == k;
        assert(bad.contains(order[j0]));
        let i = earliest(order, bad, order.len() as int);
        let x = order[i];
        assert(bad.contains(x));
        assert(r.has(x) && !s.contains(x));
        assert(g.has(x));
        if seeds.has(x) {
            assert(s.contains(x));
        } else {
            let d = choose|d: Seq<char>| deps(g, x).has(d) && r.has(d);
            assert(deps(g, order[i]).has(d));
            let j = choose|j: int| 0 <= j < i && order[j] == d;
            assert(!bad.contains(order[j]));
            assert(s.contains(d));
            assert(deps(g, x).has(d) && s.contains(x));
        }
    }
}

/// The nodes that depend, directly or through other nodes, on a seed, and the seeds themselves.
pub fn reach(g: &Graph, seeds: &IdSet) -> (r: IdSet)
    ensures reach_ok(*g, *seeds, r),
{
    let entries = g.entries();
    let mut result = IdSet::new();
    let items = seeds.items();
    let mut i: usize = 0;
    while i < items.len()
        invariant
            i <= items@.len(), items@.len() == seeds.members().len(),
            forall|x: int| 0 <= x < items@.len() ==> (#[trigger] items@[x])@ == seeds.members()[x],
            forall|x: int| 0 <= x < i && g.has(#[trigger] seeds.members()[x]) ==> result.has(seeds.members()[x]),
            forall|k: Seq<char>| #[trigger] result.has(k) ==> g.has(k) && seeds.has(k),
        decreases items@.len() - i,
    {
        if g.contains_key(items[i].as_str()) {
            result.insert(items[i].clone());
        }
        i += 1;
    }
    loop
        invariant
            entries@.len() == g.keys().len(), g.keys().len() == g.values().len(), increasing(g.keys()),
            forall|j: int| 0 <= j < entries@.len() ==> (#[trigger] entries@[j]).0@ == g.keys()[j] && entries@[j].1 == g.values()[j],
            forall|k: Seq<char>| seeds.has(k) && g.has(k) ==> #[trigger] result.has(k),
            forall|k: Seq<char>| #[trigger] result.has(k) ==> g.has(k),
            forall|k: Seq<char>| #[trigger] result.has(k) ==> seeds.has(k) || exists|d: Seq<char>| deps(*g, k).has(d) && result.has(d),
        decreases undone(g.keys(), result),
    {
        let mut added: Vec<String> = Vec::new();
        let mut j: usize = 0;
        while j < entries.len()
            invariant
                j <= entries@.len(), entries@.len() == g.keys().len(), g.keys().len() == g.values().len(), increasing(g.keys()),
                forall|x: int| 0 <= x < entries@.len() ==> (#[trigger] entries@[x]).0@ == g.keys()[x] && entries@[x].1 == g.values()[x],
                forall|x: int| 0 <= x < added@.len() ==> !result.has((#[trigger] added@[x])@) && g.has(added@[x]@)
                    && exists|d: Seq<char>| deps(*g, added@[x]@).has(d) && result.has(d),
                forall|x: int, d: Seq<char>| #![trigger deps(*g, g.keys()[x]).has(d)]
                    0 <= x < j && !result.has(g.keys()[x]) && deps(*g, g.keys()[x]).has(d) && result.has(d)
                    ==> exists|y: int| 0 <= y < added@.len() && (#[trigger] added@[y])@ == g.keys()[x],
            decreases entries@.len() - j,
        {
            proof { g.lemma_at_index(j as int); }
            let ghost added0 = added@;
            if !result.contains(entries[j].0.as_str()) {
                let members = entries[j].1.items();
                let mut hit = false;
                let mut m: usize = 0;
                while m < members.len()
                    invariant
                        j < entries@.len(),
                        m <= members@.len(), members@.len() == entries@[j as int].1.members().len(),
                        forall|x: int| 0 <= x < members@.len() ==> (#[trigger] members@[x])@ == entries@[j as int].1.members()[x],
                        hit ==> exists|d: Seq<char>| entries@[j as int].1.has(d) && result.has(d),
                        !hit ==> forall|x: int| 0 <= x < m ==> !result.has(#[trigger] entries@[j as int].1.members()[x]),
                    decreases members@.len() - m,
                {
                    if !hit && result.contains(members[m].as_str()) {
                        hit = true;
                        assert(entries@[j as int].1.has(entries@[j as int].1.members()[m as int]));
                    }
                    m += 1;
                }
                if hit {
                    added.push(entries[j].0.clone());
                    proof {
                        assert(added@[added@.len() - 1]@ == g.keys()[j as int]);
                        assert(deps(*g, added@[added@.len() - 1]@) == entries@[j as int].1);
                        assert(g.has(added@[added@.len() - 1]@));
                        assert forall|x: int| 0 <= x < added0.len() implies added@[x] == added0[x] by {}
                    }
                } else {
                    proof {
                        assert forall|d: Seq<char>| deps(*g, g.keys()[j as int]).has(d) implies !result.has(d) by {
                            let x = choose|x: int| 0 <= x < entries@[j as int].1.members().len() && entries@[j as int].1.members()[x] == d;
                        }
                    }
                }
            }
            proof {
                assert forall|x: int| 0 <= x < added@.len() implies !result.has((#[trigger] added@[x])@) && g.has(added@[x]@)
                    && exists|d: Seq<char>| deps(*g, added@[x]@).has(d) && result.has(d) by {
                    if x < added0.len() {
                        assert(added@[x] == added0[x]);
                        assert(!result.has(added0[x]@) && g.has(added0[x]@)
                            && exists|d: Seq<char>| deps(*g, added0[x]@).has(d) && result.has(d));
                    }
                }
                assert forall|x: int, d: Seq<char>| #![trigger deps(*g, g.keys()[x]).has(d)]
                    0 <= x < j + 1 && !result.has(g.keys()[x]) && deps(*g, g.keys()[x]).has(d) && result.has(d)
                    implies exists|y: int| 0 <= y < added@.len() && (#[trigger] added@[y])@ == g.keys()[x] by {
                    if x < j {
                        let y = choose|y: int| 0 <= y < added0.len() && (#[trigger] added0[y])@ == g.keys()[x];
                        assert(added@[y] == added0[y]);
                    } else {
                        assert(g.keys()[x] == entries@[j as int].0@);
                        assert(deps(*g, g.keys()[x]) == entries@[j as int].1);
                        assert(added@.len() > added0.len());
                        assert(added@[added@.len() - 1]@ == g.keys()[x]);
                    }
                }
            }
            j += 1;
        }
        if added.len() == 0 {
            proof {
                assert forall|k: Seq<char>, d: Seq<char>| #![trigger deps(*g, k).has(d), result.has(k)]
                    g.has(k) && deps(*g, k).has(d) && result.has(d) implies result.has(k) by {
                    let x = choose|x: int| 0 <= x < g.keys().len() && g.keys()[x] == k;
                    if !result.has(k) {
                        assert(deps(*g, g.keys()[x]).has(d));
                    }
                }
            }
            return result;
        }
        let ghost before = result;
        let ghost first = added@[0]@;
        let mut a: usize = 0;
        while a < added.len()
            invariant
                a <= added@.len(),
                forall|k: Seq<char>| #[trigger] before.has(k) ==> result.has(k),
                forall|k: Seq<char>| #[trigger] result.has(k) ==> before.has(k) || exists|x: int| 0 <= x < added@.len() && (#[trigger] added@[x])@ == k,
                forall|x: int| 0 <= x < added@.len() ==> !before.has((#[trigger] added@[x])@) && g.has(added@[x]@)
                    && exists|d: Seq<char>| deps(*g, added@[x]@).has(d) && before.has(d),
                a > 0 ==> result.has(first), first == added@[0]@, added@.len() > 0,
            decreases added@.len() - a,
        {
            result.insert(added[a].clone());
            a += 1;
        }
        proof {
            assert(g.keys().contains(first));
            lemma_undone_shrinks(g.keys(), before, result, first);
            assert forall|k: Seq<char>| #[trigger] result.has(k) implies seeds.has(k) || exists|d: Seq<char>| deps(*g, k).has(d) && result.has(d) by {
                if before.has(k) {
                    if !seeds.has(k) {
                        let d = choose|d: Seq<char>| deps(*g, k).has(d) && before.has(d);
                        assert(result.has(d));
                    }
                } else {
                    let x = choose|x: int| 0 <= x < added@.len() && (#[trigger] added@[x])@ == k;
                    let d = choose|d: Seq<char>| deps(*g, added@[x]@).has(d) && before.has(d);
                    assert(result.has(d));
                }
            }
            assert forall|k: Seq<char>| seeds.has(k) && g.has(k) implies #[trigger] result.has(k) by {
                assert(before.has(k));
            }
            assert forall|k: Seq<char>| #[trigger] result.has(k) implies g.has(k) by {
                if !before.has(k) {
                    let x = choose|x: int| 0 <= x < added@.len() && (#[trigger] added@[x])@ == k;
                }
            }
        }
    }
}

} // verus!
