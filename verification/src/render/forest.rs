//! Shaping the dependency tree: which of the selected derivations appear,
//! under which parent, and in what order.
use vstd::prelude::*;
use crate::render::selection::{count_true, lemma_count_true_bounds, lemma_count_true_set};

verus! {

/// What shaping reads of a derivation: its inputs in order, whether it was
/// selected to be shown, whether it is unknown with no transfer of its
/// outputs, and whether it and its dependencies hold nothing to show.
#[derive(Clone, Debug)]
pub struct TreeSource {
    pub inputs: Vec<usize>,
    pub selected: bool,
    pub inert: bool,
    pub summary_empty: bool,
}

/// A derivation of the shaped tree and the subtrees under it.
#[derive(Debug)]
pub struct ShownNode {
    pub id: usize,
    pub children: Vec<ShownNode>,
}

/// The shape of a tree: node indices and the order of children.
pub struct Shape {
    pub id: int,
    pub children: Seq<Shape>,
}

pub open spec fn shape_of(t: ShownNode) -> Shape
    decreases t, 0nat,
{
    Shape { id: t.id as int, children: shapes_of(t.children@, t.children@.len()) }
}

/// The shapes of the first `k` of the trees `ts`.
pub open spec fn shapes_of(ts: Seq<ShownNode>, k: nat) -> Seq<Shape>
    decreases ts, k,
{
    if k == 0 || k > ts.len() {
        Seq::empty()
    } else {
        shapes_of(ts, (k - 1) as nat).push(shape_of(ts[k - 1]))
    }
}

/// Every index names a derivation.
pub open spec fn sources_wf(nodes: Seq<TreeSource>, roots: Seq<usize>) -> bool {
    &&& forall|i: int, j: int|
        0 <= i < nodes.len() && 0 <= j < nodes[i].inputs@.len() ==> #[trigger] nodes[i].inputs@[j] < nodes.len()
    &&& forall|j: int| 0 <= j < roots.len() ==> #[trigger] roots[j] < nodes.len()
}

/// The subtree of `x` and the derivations met after it, for a walk that
/// has met `seen` and may go `fuel` levels deep: nothing for a derivation
/// met before or not selected; else its subtrees, each input in turn, and
/// the derivation itself unless it is inert and has no subtree or nothing
/// to show.
pub open spec fn visit(nodes: Seq<TreeSource>, x: int, seen: Set<int>, fuel: nat) -> (Option<Shape>, Set<int>)
    decreases fuel, 0nat,
{
    if fuel == 0 || seen.contains(x) || !nodes[x].selected {
        (None, seen)
    } else {
        let (cs, after) = visit_list(nodes, nodes[x].inputs@, nodes[x].inputs@.len(), seen.insert(x), (fuel - 1) as nat);
        if nodes[x].inert && (cs.len() == 0 || nodes[x].summary_empty) {
            (None, after)
        } else {
            (Some(Shape { id: x, children: cs }), after)
        }
    }
}

/// The subtrees of the first `k` of `xs`, each walked after the ones before.
pub open spec fn visit_list(nodes: Seq<TreeSource>, xs: Seq<usize>, k: nat, seen: Set<int>, fuel: nat) -> (Seq<Shape>, Set<int>)
    decreases fuel, k + 1,
{
    if k == 0 || k > xs.len() {
        (Seq::empty(), seen)
    } else {
        let (cs, s1) = visit_list(nodes, xs, (k - 1) as nat, seen, fuel);
        let (c, s2) = visit(nodes, xs[k - 1] as int, s1, fuel);
        match c {
            Some(t) => (cs.push(t), s2),
            None => (cs, s2),
        }
    }
}

/// The forest of the dependency tree: the subtrees of the roots, in order;
/// `n + 1` levels are more than any walk over `n` derivations takes.
pub open spec fn shaped_forest(nodes: Seq<TreeSource>, roots: Seq<usize>) -> Seq<Shape> {
    visit_list(nodes, roots, roots.len(), Set::empty(), nodes.len() + 1).0
}

/// The indices marked in `v`.
pub open spec fn marked(v: Seq<bool>) -> Set<int> {
    Set::new(|i: int| 0 <= i < v.len() && v[i])
}

proof fn lemma_shapes_push(ts: Seq<ShownNode>, t: ShownNode, k: nat)
    requires
        k <= ts.len(),
    ensures
        shapes_of(ts.push(t), k) == shapes_of(ts, k),
    decreases k,
{
    if k > 0 {
        lemma_shapes_push(ts, t, (k - 1) as nat);
        assert(ts.push(t)[k - 1] == ts[k - 1]);
    }
}

fn visit_exec(nodes: &Vec<TreeSource>, x: usize, seen: &mut Vec<bool>, Ghost(fuel): Ghost<nat>) -> (r: Option<ShownNode>)
    requires
        sources_wf(nodes@, Seq::empty()),
        x < nodes@.len(),
        old(seen)@.len() == nodes@.len(),
        fuel > nodes@.len() - count_true(old(seen)@),
    ensures
        final(seen)@.len() == nodes@.len(),
        count_true(final(seen)@) >= count_true(old(seen)@),
        visit(nodes@, x as int, marked(old(seen)@), fuel) == (
            match r {
                Some(t) => Some(shape_of(t)),
                None => None,
            },
            marked(final(seen)@),
        ),
    decreases nodes@.len() - count_true(old(seen)@),
{
    let n = nodes.len();
    let ghost ns = nodes@;
    let ghost seen0 = marked(seen@);
    proof {
        lemma_count_true_bounds(seen@);
    }
    if seen[x] || !nodes[x].selected {
        proof {
            assert(seen0.contains(x as int) == seen@[x as int]);
        }
        return None;
    }
    proof {
        lemma_count_true_set(seen@, x as int);
        assert(!seen0.contains(x as int));
    }
    seen.set(x, true);
    proof {
        assert(marked(seen@) =~= seen0.insert(x as int));
    }
    let ghost seen1 = marked(seen@);
    let ghost count1 = count_true(seen@);
    let inputs = &nodes[x].inputs;
    let ghost xs = ns[x as int].inputs@;
    let mut children: Vec<ShownNode> = Vec::new();
    let mut j: usize = 0;
    while j < inputs.len()
        invariant
            n == ns.len(),
            ns == nodes@,
            sources_wf(ns, Seq::empty()),
            xs == inputs@,
            xs == ns[x as int].inputs@,
            x < n,
            j <= inputs.len(),
            seen@.len() == n,
            count_true(seen@) >= count1,
            count1 == count_true(old(seen)@) + 1,
            fuel > n - count_true(old(seen)@),
            visit_list(ns, xs, j as nat, seen1, (fuel - 1) as nat) == (shapes_of(children@, children@.len()), marked(seen@)),
        decreases inputs.len() - j,
    {
        let c = inputs[j];
        assert(c < n) by {
            assert(ns[x as int].inputs@[j as int] < ns.len());
        }
        let ghost before_children = children@;
        proof {
            lemma_count_true_bounds(seen@);
        }
        let sub = visit_exec(nodes, c, seen, Ghost((fuel - 1) as nat));
        match sub {
            Some(t) => {
                proof {
                    lemma_shapes_push(before_children, t, before_children.len());
                }
                children.push(t);
            },
            None => {},
        }
        proof {
            assert(xs[j as int] == c);
        }
        j += 1;
    }
    let is_leaf = children.len() == 0;
    proof {
        lemma_count_true_bounds(seen@);
    }
    if nodes[x].inert && (is_leaf || nodes[x].summary_empty) {
        return None;
    }
    let r = ShownNode { id: x, children };
    proof {
        assert(shape_of(r) == Shape { id: x as int, children: shapes_of(r.children@, r.children@.len()) });
    }
    Some(r)
}

/// Shapes the dependency tree: walks down from each root in turn, through
/// the inputs of each derivation in order, meeting each derivation once,
/// and keeps the selected derivations that are not inert leaves.
pub fn build_display_forest(nodes: &Vec<TreeSource>, roots: &Vec<usize>) -> (r: Vec<ShownNode>)
    requires
        sources_wf(nodes@, roots@),
    ensures
        shapes_of(r@, r@.len()) == shaped_forest(nodes@, roots@),
{
    let n = nodes.len();
    let ghost ns = nodes@;
    let mut seen = crate::render::selection::falses(n);
    let ghost fuel = (n + 1) as nat;
    proof {
        crate::render::selection::lemma_count_true_none(n as nat);
        assert(marked(seen@) =~= Set::empty());
    }
    let mut forest: Vec<ShownNode> = Vec::new();
    let mut j: usize = 0;
    while j < roots.len()
        invariant
            n == ns.len(),
            ns == nodes@,
            sources_wf(ns, roots@),
            j <= roots.len(),
            seen@.len() == n,
            fuel == n + 1,
            visit_list(ns, roots@, j as nat, Set::empty(), fuel) == (shapes_of(forest@, forest@.len()), marked(seen@)),
        decreases roots.len() - j,
    {
        let root = roots[j];
        assert(root < n) by {
            assert(roots@[j as int] < ns.len());
        }
        assert(sources_wf(ns, Seq::empty()));
        let ghost before = forest@;
        proof {
            lemma_count_true_bounds(seen@);
        }
        let sub = visit_exec(nodes, root, &mut seen, Ghost(fuel));
        match sub {
            Some(t) => {
                proof {
                    lemma_shapes_push(before, t, before.len());
                }
                forest.push(t);
            },
            None => {},
        }
        j += 1;
    }
    forest
}


/// The derivations of a tree, the root first, then each subtree in order.
pub open spec fn shape_ids(t: Shape) -> Seq<int>
    decreases t, 0nat,
{
    seq![t.id] + ids_list(t.children, t.children.len())
}

/// The derivations of the first `k` of the trees `ts`.
pub open spec fn ids_list(ts: Seq<Shape>, k: nat) -> Seq<int>
    decreases ts, k,
{
    if k == 0 || k > ts.len() {
        Seq::empty()
    } else {
        ids_list(ts, (k - 1) as nat) + shape_ids(ts[k - 1])
    }
}

/// Met on the walk: each derivation once, all of them selected, none met
/// before the walk, all met after it.
pub open spec fn fresh_ids(nodes: Seq<TreeSource>, ids: Seq<int>, before: Set<int>, after: Set<int>) -> bool {
    &&& ids.no_duplicates()
    &&& forall|i: int| 0 <= i < ids.len() ==> after.contains(#[trigger] ids[i]) && !before.contains(ids[i])
        && nodes[ids[i]].selected
}

proof fn lemma_ids_push(ts: Seq<Shape>, t: Shape, k: nat)
    requires
        k <= ts.len(),
    ensures
        ids_list(ts.push(t), k) == ids_list(ts, k),
    decreases k,
{
    if k > 0 {
        lemma_ids_push(ts, t, (k - 1) as nat);
        assert(ts.push(t)[k - 1] == ts[k - 1]);
    }
}

proof fn lemma_fresh_concat(nodes: Seq<TreeSource>, a: Seq<int>, b: Seq<int>, s0: Set<int>, s1: Set<int>, s2: Set<int>)
    requires
        fresh_ids(nodes, a, s0, s1),
        fresh_ids(nodes, b, s1, s2),
        s0.subset_of(s1),
        s1.subset_of(s2),
    ensures
        fresh_ids(nodes, a + b, s0, s2),
{
    let c = a + b;
    assert forall|i: int, j: int| 0 <= i < j < c.len() implies c[i] != c[j] by {
        if j < a.len() {
            assert(a[i] != a[j]);
        } else if i >= a.len() {
            assert(b[i - a.len()] != b[j - a.len()]);
        } else {
            assert(s1.contains(a[i]));
            assert(!s1.contains(b[j - a.len()]));
        }
    }
    assert forall|i: int| 0 <= i < c.len() implies s2.contains(#[trigger] c[i]) && !s0.contains(c[i]) && nodes[c[i]].selected by {
        if i < a.len() {
            assert(c[i] == a[i]);
        } else {
            assert(c[i] == b[i - a.len()]);
        }
    }
}

proof fn lemma_visit_fresh(nodes: Seq<TreeSource>, x: int, seen: Set<int>, fuel: nat)
    ensures
        seen.subset_of(visit(nodes, x, seen, fuel).1),
        visit(nodes, x, seen, fuel).0 matches Some(t) ==> fresh_ids(nodes, shape_ids(t), seen, visit(nodes, x, seen, fuel).1),
    decreases fuel, 0nat,
{
    if !(fuel == 0 || seen.contains(x) || !nodes[x].selected) {
        let s1 = seen.insert(x);
        let xs = nodes[x].inputs@;
        lemma_list_fresh(nodes, xs, xs.len(), s1, (fuel - 1) as nat);
        let (cs, after) = visit_list(nodes, xs, xs.len(), s1, (fuel - 1) as nat);
        if let Some(t) = visit(nodes, x, seen, fuel).0 {
            assert(t == Shape { id: x, children: cs });
            assert(fresh_ids(nodes, seq![x], seen, s1));
            lemma_fresh_concat(nodes, seq![x], ids_list(cs, cs.len()), seen, s1, after);
        }
    }
}

proof fn lemma_list_fresh(nodes: Seq<TreeSource>, xs: Seq<usize>, k: nat, seen: Set<int>, fuel: nat)
    ensures
        seen.subset_of(visit_list(nodes, xs, k, seen, fuel).1),
        fresh_ids(
            nodes,
            ids_list(visit_list(nodes, xs, k, seen, fuel).0, visit_list(nodes, xs, k, seen, fuel).0.len()),
            seen,
            visit_list(nodes, xs, k, seen, fuel).1,
        ),
    decreases fuel, k + 1,
{
    if k == 0 || k > xs.len() {
        assert(ids_list(Seq::<Shape>::empty(), 0) =~= Seq::<int>::empty());
    } else {
        lemma_list_fresh(nodes, xs, (k - 1) as nat, seen, fuel);
        let (cs, s1) = visit_list(nodes, xs, (k - 1) as nat, seen, fuel);
        lemma_visit_fresh(nodes, xs[k - 1] as int, s1, fuel);
        let (c, s2) = visit(nodes, xs[k - 1] as int, s1, fuel);
        match c {
            Some(t) => {
                lemma_ids_push(cs, t, cs.len());
                let cs2 = cs.push(t);
                assert(cs2[cs.len() as int] == t);
                assert(ids_list(cs2, cs2.len()) == ids_list(cs, cs.len()) + shape_ids(t));
                lemma_fresh_concat(nodes, ids_list(cs, cs.len()), shape_ids(t), seen, s1, s2);
            },
            None => {
                assert forall|i: int| 0 <= i < ids_list(cs, cs.len()).len() implies s2.contains(#[trigger] ids_list(cs, cs.len())[i]) by {
                    assert(s1.contains(ids_list(cs, cs.len())[i]));
                }
            },
        }
    }
}

/// Each derivation appears at most once in the dependency tree, and only a
/// selected one: a derivation shared by several parents is shown under the
/// first that the walk meets.
pub proof fn lemma_forest_shows_each_once(nodes: Seq<TreeSource>, roots: Seq<usize>)
    ensures
        ids_list(shaped_forest(nodes, roots), shaped_forest(nodes, roots).len()).no_duplicates(),
        forall|i: int|
            0 <= i < ids_list(shaped_forest(nodes, roots), shaped_forest(nodes, roots).len()).len()
                ==> nodes[#[trigger] ids_list(shaped_forest(nodes, roots), shaped_forest(nodes, roots).len())[i]].selected,
{
    lemma_list_fresh(nodes, roots, roots.len(), Set::empty(), nodes.len() + 1);
}


/// Every child in the tree is an input of its parent.
pub open spec fn follows_inputs(nodes: Seq<TreeSource>, t: Shape) -> bool
    decreases t, 0nat,
{
    drawn_from(nodes, t.children, t.children.len(), nodes[t.id].inputs@)
}

/// The first `k` of the trees `ts` have their roots among `xs`, and every
/// child in them is an input of its parent.
pub open spec fn drawn_from(nodes: Seq<TreeSource>, ts: Seq<Shape>, k: nat, xs: Seq<usize>) -> bool
    decreases ts, k,
{
    if k == 0 || k > ts.len() {
        true
    } else {
        drawn_from(nodes, ts, (k - 1) as nat, xs) && xs.contains(ts[k - 1].id as usize) && follows_inputs(
            nodes,
            ts[k - 1],
        )
    }
}

proof fn lemma_drawn_push(nodes: Seq<TreeSource>, ts: Seq<Shape>, t: Shape, k: nat, xs: Seq<usize>)
    requires
        k <= ts.len(),
    ensures
        drawn_from(nodes, ts.push(t), k, xs) == drawn_from(nodes, ts, k, xs),
    decreases k,
{
    if k > 0 {
        lemma_drawn_push(nodes, ts, t, (k - 1) as nat, xs);
        assert(ts.push(t)[k - 1] == ts[k - 1]);
    }
}

proof fn lemma_visit_follows(nodes: Seq<TreeSource>, x: int, seen: Set<int>, fuel: nat)
    ensures
        visit(nodes, x, seen, fuel).0 matches Some(t) ==> t.id == x && follows_inputs(nodes, t),
    decreases fuel, 0nat,
{
    if !(fuel == 0 || seen.contains(x) || !nodes[x].selected) {
        let xs = nodes[x].inputs@;
        lemma_list_follows(nodes, xs, xs.len(), seen.insert(x), (fuel - 1) as nat);
    }
}

proof fn lemma_list_follows(nodes: Seq<TreeSource>, xs: Seq<usize>, k: nat, seen: Set<int>, fuel: nat)
    ensures
        drawn_from(nodes, visit_list(nodes, xs, k, seen, fuel).0, visit_list(nodes, xs, k, seen, fuel).0.len(), xs),
    decreases fuel, k + 1,
{
    if !(k == 0 || k > xs.len()) {
        lemma_list_follows(nodes, xs, (k - 1) as nat, seen, fuel);
        let (cs, s1) = visit_list(nodes, xs, (k - 1) as nat, seen, fuel);
        lemma_visit_follows(nodes, xs[k - 1] as int, s1, fuel);
        let (c, s2) = visit(nodes, xs[k - 1] as int, s1, fuel);
        if let Some(t) = c {
            lemma_drawn_push(nodes, cs, t, cs.len(), xs);
            let cs2 = cs.push(t);
            assert(cs2[cs.len() as int] == t);
            assert(xs[k - 1] == t.id as usize);
            assert(xs.contains(t.id as usize));
        }
    }
}

/// The dependency tree follows the dependencies: each tree of the forest
/// grows from a root, and each derivation in it is shown under a
/// derivation that takes it as input.
pub proof fn lemma_forest_follows_inputs(nodes: Seq<TreeSource>, roots: Seq<usize>)
    ensures
        drawn_from(nodes, shaped_forest(nodes, roots), shaped_forest(nodes, roots).len(), roots),
{
    lemma_list_follows(nodes, roots, roots.len(), Set::empty(), nodes.len() + 1);
}


/// How many derivations of `0..n` are in `seen`.
pub open spec fn met_count(seen: Set<int>, n: nat) -> nat {
    seen.intersect(vstd::set_lib::set_int_range(0, n as int)).len()
}

proof fn lemma_met_count_bounds(seen: Set<int>, more: Set<int>, n: nat)
    requires
        seen.subset_of(more),
    ensures
        met_count(seen, n) <= met_count(more, n),
        met_count(more, n) <= n,
{
    let r = vstd::set_lib::set_int_range(0, n as int);
    vstd::set_lib::lemma_int_range(0, n as int);
    vstd::set_lib::lemma_len_subset(more.intersect(r), r);
    vstd::set_lib::lemma_len_subset(seen.intersect(r), more.intersect(r));
}

proof fn lemma_met_count_insert(seen: Set<int>, x: int, n: nat)
    requires
        0 <= x < n,
        !seen.contains(x),
    ensures
        met_count(seen.insert(x), n) == met_count(seen, n) + 1,
{
    let r = vstd::set_lib::set_int_range(0, n as int);
    vstd::set_lib::lemma_int_range(0, n as int);
    vstd::set_lib::lemma_len_subset(seen.intersect(r), r);
    assert(seen.insert(x).intersect(r) =~= seen.intersect(r).insert(x));
}

proof fn lemma_visit_fuel(nodes: Seq<TreeSource>, x: int, seen: Set<int>, f1: nat, f2: nat)
    requires
        sources_wf(nodes, Seq::empty()),
        0 <= x < nodes.len(),
        f1 + met_count(seen, nodes.len()) > nodes.len(),
        f2 + met_count(seen, nodes.len()) > nodes.len(),
    ensures
        visit(nodes, x, seen, f1) == visit(nodes, x, seen, f2),
    decreases f1, 0nat,
{
    lemma_met_count_bounds(seen, seen, nodes.len());
    if !(seen.contains(x) || !nodes[x].selected) {
        let xs = nodes[x].inputs@;
        lemma_met_count_insert(seen, x, nodes.len());
        assert forall|j: int| 0 <= j < xs.len() implies (#[trigger] xs[j]) < nodes.len() by {}
        lemma_list_fuel(nodes, xs, xs.len(), seen.insert(x), (f1 - 1) as nat, (f2 - 1) as nat);
    }
}

proof fn lemma_list_fuel(nodes: Seq<TreeSource>, xs: Seq<usize>, k: nat, seen: Set<int>, f1: nat, f2: nat)
    requires
        sources_wf(nodes, Seq::empty()),
        forall|j: int| 0 <= j < xs.len() ==> (#[trigger] xs[j]) < nodes.len(),
        f1 + met_count(seen, nodes.len()) > nodes.len(),
        f2 + met_count(seen, nodes.len()) > nodes.len(),
    ensures
        visit_list(nodes, xs, k, seen, f1) == visit_list(nodes, xs, k, seen, f2),
    decreases f1, k + 1,
{
    if !(k == 0 || k > xs.len()) {
        lemma_list_fuel(nodes, xs, (k - 1) as nat, seen, f1, f2);
        let (cs, s1) = visit_list(nodes, xs, (k - 1) as nat, seen, f1);
        lemma_list_fresh(nodes, xs, (k - 1) as nat, seen, f1);
        lemma_met_count_bounds(seen, s1, nodes.len());
        lemma_visit_fuel(nodes, xs[k - 1] as int, s1, f1, f2);
    }
}

/// The walk never runs out of levels: the forest is the same for any depth
/// beyond the number of derivations.
pub proof fn lemma_forest_depth_suffices(nodes: Seq<TreeSource>, roots: Seq<usize>, fuel: nat)
    requires
        sources_wf(nodes, roots),
        fuel > nodes.len(),
    ensures
        visit_list(nodes, roots, roots.len(), Set::empty(), fuel).0 == shaped_forest(nodes, roots),
{
    lemma_met_count_bounds(Set::empty(), Set::empty(), nodes.len());
    lemma_list_fuel(nodes, roots, roots.len(), Set::empty(), fuel, nodes.len() + 1);
}

} // verus!
