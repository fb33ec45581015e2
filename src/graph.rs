//! Directed graphs over the handles `0..n`, given as one successor set per node,
//! and their transitive reduction.

use vstd::prelude::*;
use std::collections::HashSet;
use vstd::std_specs::hash::spec_hash_keys_iter;
use vstd::std_specs::iter::IteratorSpec;

verus! {

broadcast use vstd::std_specs::hash::group_hash_axioms;

/// Every successor named by the graph is itself a node of it.
pub open spec fn closed_over(g: Seq<Set<usize>>) -> bool {
    forall|t: int, x: usize| 0 <= t < g.len() && #[trigger] g[t].contains(x) ==> (x as int) < g.len()
}

/// There is a walk of exactly `n` edges from `a` to `b`.
pub open spec fn walk(g: Seq<Set<usize>>, a: usize, b: usize, n: nat) -> bool
    decreases n,
{
    if n == 0 {
        a == b
    } else {
        exists|c: usize|
            (a as int) < g.len() && #[trigger] g[a as int].contains(c) && walk(g, c, b, (n - 1) as nat)
    }
}

/// `b` lies below `a`: a walk of one edge or more leads from `a` to `b`.
pub open spec fn descends(g: Seq<Set<usize>>, a: usize, b: usize) -> bool {
    exists|n: nat| n >= 1 && #[trigger] walk(g, a, b, n)
}

/// The edge from `t` to `d` is implied by a longer path: `d` lies below another
/// direct successor of `t`.
pub open spec fn redundant(g: Seq<Set<usize>>, t: int, d: usize) -> bool {
    exists|c: usize| g[t].contains(c) && #[trigger] descends(g, c, d)
}

/// The transitive reduction: each node keeps the direct successors that no longer
/// path reaches.
pub open spec fn reduce(g: Seq<Set<usize>>) -> Seq<Set<usize>> {
    Seq::new(g.len(), |t: int| g[t].filter(|d: usize| !redundant(g, t, d)))
}

/// `h` has the nodes of `g` and a subset of each of its successor sets.
pub open spec fn subgraph(h: Seq<Set<usize>>, g: Seq<Set<usize>>) -> bool {
    &&& h.len() == g.len()
    &&& forall|t: int| 0 <= t < g.len() ==> #[trigger] h[t].subset_of(g[t])
}

/// The successor sets of an executable adjacency table.
pub open spec fn adjacency(g: Seq<HashSet<usize>>) -> Seq<Set<usize>> {
    g.map_values(|s: HashSet<usize>| s@)
}

proof fn lemma_walk_sub(h: Seq<Set<usize>>, g: Seq<Set<usize>>, a: usize, b: usize, n: nat)
    requires
        subgraph(h, g),
        walk(h, a, b, n),
    ensures
        walk(g, a, b, n),
    decreases n,
{
    if n > 0 {
        let c = choose|c: usize|
            (a as int) < h.len() && #[trigger] h[a as int].contains(c) && walk(h, c, b, (n - 1) as nat);
        lemma_walk_sub(h, g, c, b, (n - 1) as nat);
        assert(h[a as int].subset_of(g[a as int]));
    }
}

proof fn lemma_walk_extend(g: Seq<Set<usize>>, a: usize, b: usize, x: usize, n: nat)
    requires
        walk(g, a, b, n),
        (b as int) < g.len(),
        g[b as int].contains(x),
    ensures
        walk(g, a, x, n + 1),
    decreases n,
{
    if n == 0 {
        assert(walk(g, x, x, 0));
    } else {
        let c = choose|c: usize|
            (a as int) < g.len() && #[trigger] g[a as int].contains(c) && walk(g, c, b, (n - 1) as nat);
        lemma_walk_extend(g, c, b, x, (n - 1) as nat);
        assert(walk(g, c, x, n));
    }
}

/// Marks of a set closed under successors also cover every walk from a marked node.
proof fn lemma_walk_marked(g: Seq<Set<usize>>, marks: Seq<bool>, a: usize, b: usize, n: nat)
    requires
        marks.len() == g.len(),
        (a as int) < g.len(),
        marks[a as int],
        forall|v: int, x: usize|
            0 <= v < g.len() && marks[v] && #[trigger] g[v].contains(x) ==> (x as int) < g.len()
                && marks[x as int],
        walk(g, a, b, n),
    ensures
        (b as int) < g.len(),
        marks[b as int],
    decreases n,
{
    if n > 0 {
        let c = choose|c: usize|
            (a as int) < g.len() && #[trigger] g[a as int].contains(c) && walk(g, c, b, (n - 1) as nat);
        lemma_walk_marked(g, marks, c, b, (n - 1) as nat);
    }
}

/// Reducing a graph a second time changes nothing: an edge that survived the
/// first reduction has no longer path beside it in the unreduced graph, hence
/// none in the smaller reduced one.
pub proof fn lemma_reduce_idempotent(g: Seq<Set<usize>>)
    ensures
        reduce(reduce(g)) == reduce(g),
{
    let r = reduce(g);
    assert(subgraph(r, g));
    assert forall|t: int| 0 <= t < r.len() implies #[trigger] reduce(r)[t] == r[t] by {
        assert forall|d: usize| r[t].contains(d) implies !redundant(r, t, d) by {
            if redundant(r, t, d) {
                let c = choose|c: usize| r[t].contains(c) && #[trigger] descends(r, c, d);
                let n = choose|n: nat| n >= 1 && #[trigger] walk(r, c, d, n);
                lemma_walk_sub(r, g, c, d, n);
                assert(descends(g, c, d));
            }
        }
        assert(reduce(r)[t] =~= r[t]);
    }
    assert(reduce(r) =~= r);
}

/// The number of set marks.
pub open spec fn count_marked(s: Seq<bool>) -> nat
    decreases s.len(),
{
    if s.len() == 0 {
        0
    } else {
        count_marked(s.drop_last()) + if s.last() { 1nat } else { 0nat }
    }
}

proof fn lemma_count_marked_set(s: Seq<bool>, i: int)
    requires
        0 <= i < s.len(),
        !s[i],
    ensures
        count_marked(s.update(i, true)) == count_marked(s) + 1,
    decreases s.len(),
{
    if i < s.len() - 1 {
        assert(s.update(i, true).drop_last() =~= s.drop_last().update(i, true));
        lemma_count_marked_set(s.drop_last(), i);
    } else {
        assert(s.update(i, true).drop_last() =~= s.drop_last());
    }
}

proof fn lemma_count_marked_bound(s: Seq<bool>)
    ensures
        count_marked(s) <= s.len(),
    decreases s.len(),
{
    if s.len() > 0 {
        lemma_count_marked_bound(s.drop_last());
    }
}

proof fn lemma_redundant_extend(g: Seq<Set<usize>>, t: int, v: usize, x: usize)
    requires
        redundant(g, t, v),
        (v as int) < g.len(),
        g[v as int].contains(x),
    ensures
        redundant(g, t, x),
{
    let c = choose|c: usize| g[t].contains(c) && #[trigger] descends(g, c, v);
    let n = choose|n: nat| n >= 1 && #[trigger] walk(g, c, v, n);
    lemma_walk_extend(g, c, v, x, n);
    assert(descends(g, c, x));
}

proof fn lemma_redundant_seed(g: Seq<Set<usize>>, t: int, c: usize, x: usize)
    requires
        0 <= t < g.len(),
        g[t].contains(c),
        (c as int) < g.len(),
        g[c as int].contains(x),
    ensures
        redundant(g, t, x),
{
    assert(walk(g, x, x, 0));
    assert(walk(g, c, x, 1));
    assert(descends(g, c, x));
}

/// The elements of a hash set, as its iterator hands them out.
pub(crate) proof fn lemma_keys_cover(s: &HashSet<usize>)
    ensures
        forall|j: int|
            0 <= j < spec_hash_keys_iter(s).remaining().len() ==> s@.contains(
                *#[trigger] spec_hash_keys_iter(s).remaining()[j],
            ),
        forall|x: usize|
            s@.contains(x) ==> exists|j: int|
                0 <= j < spec_hash_keys_iter(s).remaining().len()
                    && *#[trigger] spec_hash_keys_iter(s).remaining()[j] == x,
{
    let ks = spec_hash_keys_iter(s).remaining();
    assert(ks.unref().to_set() == s@);
    assert forall|j: int| 0 <= j < ks.len() implies s@.contains(*#[trigger] ks[j]) by {
        assert(ks.unref()[j] == *ks[j]);
        assert(ks.unref().contains(*ks[j]));
    }
    assert forall|x: usize| s@.contains(x) implies exists|j: int|
        0 <= j < ks.len() && *#[trigger] ks[j] == x by {
        assert(ks.unref().contains(x));
        let j = choose|j: int| 0 <= j < ks.unref().len() && ks.unref()[j] == x;
        assert(*ks[j] == x);
    }
}

/// Marks each member of `s` that is not marked yet, and pushes it on `stack`.
fn mark_all(s: &HashSet<usize>, marks: &mut Vec<bool>, stack: &mut Vec<usize>)
    requires
        forall|x: usize| s@.contains(x) ==> (x as int) < old(marks).len(),
    ensures
        final(marks).len() == old(marks).len(),
        forall|x: usize| s@.contains(x) ==> final(marks)[x as int],
        forall|i: int| 0 <= i < old(marks).len() && old(marks)[i] ==> final(marks)[i],
        forall|i: usize|
            (i as int) < old(marks).len() && #[trigger] final(marks)[i as int] && !old(marks)[i as int]
                ==> s@.contains(i) && final(stack)@.contains(i),
        final(stack)@.len() >= old(stack)@.len(),
        final(stack)@.subrange(0, old(stack)@.len() as int) == old(stack)@,
        forall|j: int|
            old(stack)@.len() <= j < final(stack)@.len() ==> s@.contains(final(stack)@[j]),
        final(stack)@.len() - old(stack)@.len() == count_marked(final(marks)@) - count_marked(
            old(marks)@,
        ),
{
    proof {
        lemma_keys_cover(s);
    }
    let ghost marks0 = marks@;
    let ghost stack0 = stack@;
    let ghost ks = spec_hash_keys_iter(s).remaining();
    let ghost mut k: int = 0;
    for xr in it: s.iter()
        invariant
            it.seq() == ks,
            ks == spec_hash_keys_iter(s).remaining(),
            k == it.index(),
            forall|j: int| 0 <= j < ks.len() ==> s@.contains(*#[trigger] ks[j]),
            forall|x: usize| s@.contains(x) ==> (x as int) < marks0.len(),
            marks@.len() == marks0.len(),
            forall|j: int| 0 <= j < k ==> marks@[*#[trigger] ks[j] as int],
            forall|i: int| 0 <= i < marks0.len() && marks0[i] ==> marks@[i],
            forall|i: usize|
                (i as int) < marks0.len() && marks@[i as int] && !marks0[i as int] ==> s@.contains(i)
                    && stack@.contains(i),
            stack@.len() >= stack0.len(),
            stack@.subrange(0, stack0.len() as int) == stack0,
            forall|j: int| stack0.len() <= j < stack@.len() ==> s@.contains(stack@[j]),
            stack@.len() - stack0.len() == count_marked(marks@) - count_marked(marks0),
    {
        let x: usize = *xr;
        assert(x == *ks[k]);
        assert(s@.contains(x));
        if !marks[x] {
            proof {
                lemma_count_marked_set(marks@, x as int);
            }
            let ghost stack1 = stack@;
            marks.set(x, true);
            stack.push(x);
            assert forall|i: usize| stack1.contains(i) implies stack@.contains(i) by {
                let j = choose|j: int| 0 <= j < stack1.len() && stack1[j] == i;
                assert(stack@[j] == i);
            }
            assert(stack@.subrange(0, stack0.len() as int) =~= stack0);
            assert(stack@[stack@.len() - 1] == x);
        }
        proof {
            k = k + 1;
        }
    }
}

/// What the search from `t` has established: each mark is a node below another
/// direct successor of `t`, and the stack holds marked nodes.
spec fn marking(gr: Seq<Set<usize>>, t: int, marks: Seq<bool>, stack: Seq<usize>) -> bool {
    &&& marks.len() == gr.len()
    &&& forall|i: usize| (i as int) < gr.len() && marks[i as int] ==> redundant(gr, t, i)
    &&& forall|j: int| 0 <= j < stack.len() ==> (stack[j] as int) < gr.len() && marks[stack[j] as int]
}

/// Each marked node off the stack, but `skip`, has its successors marked.
spec fn marked_closed(gr: Seq<Set<usize>>, marks: Seq<bool>, stack: Seq<usize>, skip: int) -> bool {
    forall|w: usize, x: usize|
        (w as int) != skip && (w as int) < gr.len() && marks[w as int] && !stack.contains(w)
            && #[trigger] gr[w as int].contains(x) ==> marks[x as int]
}

/// Marks the successors of `v`, all of which lie below another direct successor of `t`.
fn visit(g: &Vec<HashSet<usize>>, t: usize, v: usize, marks: &mut Vec<bool>, stack: &mut Vec<usize>)
    requires
        closed_over(adjacency(g@)),
        (t as int) < g@.len(),
        (v as int) < g@.len(),
        marking(adjacency(g@), t as int, old(marks)@, old(stack)@),
        marked_closed(adjacency(g@), old(marks)@, old(stack)@, v as int),
        forall|x: usize|
            #[trigger] adjacency(g@)[v as int].contains(x) ==> redundant(adjacency(g@), t as int, x),
    ensures
        marking(adjacency(g@), t as int, final(marks)@, final(stack)@),
        marked_closed(adjacency(g@), final(marks)@, final(stack)@, -1),
        forall|i: int| 0 <= i < old(marks)@.len() && old(marks)@[i] ==> final(marks)@[i],
        forall|x: usize| adjacency(g@)[v as int].contains(x) ==> final(marks)@[x as int],
        final(stack)@.len() >= old(stack)@.len(),
        final(stack)@.len() - old(stack)@.len() == count_marked(final(marks)@) - count_marked(
            old(marks)@,
        ),
{
    let ghost gr = adjacency(g@);
    let ghost marks1 = marks@;
    let ghost stack1 = stack@;
    assert(gr[v as int] == g@[v as int]@);
    mark_all(&g[v as usize], marks, stack);
    proof {
        assert forall|i: usize| (i as int) < gr.len() && marks@[i as int] implies redundant(
            gr,
            t as int,
            i,
        ) by {
            if !marks1[i as int] {
                assert(gr[v as int].contains(i));
            }
        }
        assert forall|j: int| 0 <= j < stack@.len() implies (stack@[j] as int) < gr.len()
            && marks@[stack@[j] as int] by {
            if j < stack1.len() {
                assert(stack@.subrange(0, stack1.len() as int)[j] == stack1[j]);
            } else {
                assert(gr[v as int].contains(stack@[j]));
            }
        }
        assert forall|w: usize, x: usize|
            (w as int) != -1 && (w as int) < gr.len() && marks@[w as int] && !stack@.contains(w)
                && #[trigger] gr[w as int].contains(x) implies marks@[x as int] by {
            if w == v {
                assert(g@[v as int]@.contains(x));
                assert(marks@[x as int]);
            } else if marks1[w as int] {
                if stack1.contains(w) {
                    let k = choose|k: int| 0 <= k < stack1.len() && stack1[k] == w;
                    assert(stack@.subrange(0, stack1.len() as int)[k] == stack1[k]);
                    assert(stack@[k] == w);
                }
                assert(marks1[x as int]);
                assert((x as int) < gr.len());
                assert(marks@[x as int]);
            } else {
                assert(stack@.contains(w));
            }
        }
    }
}

/// The direct successors of `t` that no longer path reaches.
pub(crate) fn reduced_successors(g: &Vec<HashSet<usize>>, t: usize) -> (r: HashSet<usize>)
    requires
        (t as int) < g@.len(),
        closed_over(adjacency(g@)),
    ensures
        r@ == reduce(adjacency(g@))[t as int],
{
    let ghost gr = adjacency(g@);
    let n = g.len();
    let mut marks: Vec<bool> = Vec::new();
    while marks.len() < n
        invariant
            marks.len() <= n,
            forall|i: int| 0 <= i < marks.len() ==> !marks@[i],
        decreases n - marks.len(),
    {
        marks.push(false);
    }
    let mut stack: Vec<usize> = Vec::new();
    let succ: &HashSet<usize> = &g[t];
    assert(succ@ == gr[t as int]);
    proof {
        lemma_keys_cover(succ);
    }
    let ghost ks = spec_hash_keys_iter(succ).remaining();
    let ghost mut k: int = 0;
    // Seed with the successors of each direct successor of `t`.
    for cr in it: succ.iter()
        invariant
            it.seq() == ks,
            ks == spec_hash_keys_iter(succ).remaining(),
            k == it.index(),
            forall|j: int| 0 <= j < ks.len() ==> succ@.contains(*#[trigger] ks[j]),
            gr == adjacency(g@),
            (t as int) < g@.len(),
            succ@ == gr[t as int],
            n == g@.len(),
            closed_over(gr),
            marking(gr, t as int, marks@, stack@),
            marked_closed(gr, marks@, stack@, -1),
            forall|j: int, x: usize|
                0 <= j < k && #[trigger] gr[*ks[j] as int].contains(x) ==> marks@[x as int],
    {
        let c: usize = *cr;
        assert(c == *ks[k]);
        assert(gr[t as int].contains(c));
        proof {
            assert forall|x: usize| #[trigger] gr[c as int].contains(x) implies redundant(
                gr,
                t as int,
                x,
            ) by {
                lemma_redundant_seed(gr, t as int, c, x);
            }
        }
        visit(g, t, c, &mut marks, &mut stack);
        proof {
            k = k + 1;
        }
    }
    assert forall|c: usize, x: usize| gr[t as int].contains(c) && #[trigger] gr[c as int].contains(
        x,
    ) implies marks@[x as int] by {
        let j = choose|j: int| 0 <= j < ks.len() && *ks[j] == c;
    }
    // Close the marks under successors.
    while stack.len() > 0
        invariant
            gr == adjacency(g@),
            (t as int) < g@.len(),
            n == g@.len(),
            closed_over(gr),
            marking(gr, t as int, marks@, stack@),
            marked_closed(gr, marks@, stack@, -1),
            forall|c: usize, x: usize|
                gr[t as int].contains(c) && #[trigger] gr[c as int].contains(x) ==> marks@[x as int],
        decreases 2 * (n - count_marked(marks@)) + stack@.len(),
    {
        proof {
            lemma_count_marked_bound(marks@);
        }
        let ghost stack0 = stack@;
        let v = stack.pop().unwrap();
        assert(stack0 =~= stack@.push(v));
        proof {
            assert(stack0[stack0.len() - 1] == v);
            assert forall|w: usize, x: usize|
                (w as int) != (v as int) && (w as int) < gr.len() && marks@[w as int]
                    && !stack@.contains(w) && #[trigger] gr[w as int].contains(x) implies marks@[x as int] by {
                if stack0.contains(w) {
                    let j = choose|j: int| 0 <= j < stack0.len() && stack0[j] == w;
                    assert(stack@[j] == w);
                }
            }
            assert forall|j: int| 0 <= j < stack@.len() implies (stack@[j] as int) < gr.len()
                && marks@[stack@[j] as int] by {
                assert(stack@[j] == stack0[j]);
            }
            assert forall|x: usize| #[trigger] gr[v as int].contains(x) implies redundant(
                gr,
                t as int,
                x,
            ) by {
                lemma_redundant_extend(gr, t as int, v, x);
            }
        }
        visit(g, t, v, &mut marks, &mut stack);
        proof {
            lemma_count_marked_bound(marks@);
        }
    }
    proof {
        assert forall|d: usize| redundant(gr, t as int, d) implies (d as int) < n && marks@[d as int] by {
            let c = choose|c: usize| gr[t as int].contains(c) && #[trigger] descends(gr, c, d);
            let m = choose|m: nat| m >= 1 && #[trigger] walk(gr, c, d, m);
            let c1 = choose|c1: usize|
                (c as int) < gr.len() && #[trigger] gr[c as int].contains(c1) && walk(gr, c1, d, (m - 1) as nat);
            lemma_walk_marked(gr, marks@, c1, d, (m - 1) as nat);
        }
    }
    let mut r: HashSet<usize> = HashSet::new();
    let ghost mut k: int = 0;
    for dr in it: succ.iter()
        invariant
            it.seq() == ks,
            ks == spec_hash_keys_iter(succ).remaining(),
            k == it.index(),
            forall|j: int| 0 <= j < ks.len() ==> succ@.contains(*#[trigger] ks[j]),
            succ@ == gr[t as int],
            forall|x: usize| r@.contains(x) ==> gr[t as int].contains(x) && !marks@[x as int],
            forall|j: int| 0 <= j < k && !marks@[*#[trigger] ks[j] as int] ==> r@.contains(*ks[j]),
            marks@.len() == n,
            closed_over(gr),
            (t as int) < gr.len(),
            n == gr.len(),
    {
        let d: usize = *dr;
        assert(d == *ks[k]);
        assert(gr[t as int].contains(d));
        if !marks[d] {
            r.insert(d);
        }
        proof {
            k = k + 1;
        }
    }
    proof {
        assert forall|x: usize| #[trigger] r@.contains(x) == reduce(gr)[t as int].contains(x) by {
            if gr[t as int].contains(x) && !marks@[x as int] {
                let j = choose|j: int| 0 <= j < ks.len() && *ks[j] == x;
            }
        }
        assert(r@ =~= reduce(gr)[t as int]);
    }
    r
}

} // verus!
