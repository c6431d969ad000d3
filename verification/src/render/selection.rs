//! Choosing the derivations that the dependency tree shows when the window
//! is short: every active derivation with the chain of derivations above
//! it, then as many of the next derivations as fit.
use vstd::prelude::*;

verus! {

/// What the selection reads of a derivation: the derivations that take it
/// as input, its inputs (in the order of their sort keys), whether it is
/// building or has failed, whether it and its dependencies hold nothing to
/// show, and the place of its sort key among all of them (equal keys have
/// equal ranks).
#[derive(Clone, Debug)]
pub struct SelectNode {
    pub parents: Vec<usize>,
    pub inputs: Vec<usize>,
    pub active_build: bool,
    pub summary_empty: bool,
    pub rank: usize,
}

/// Every index names a node.
pub open spec fn graph_wf(nodes: Seq<SelectNode>, roots: Seq<usize>, active: Seq<usize>) -> bool {
    let n = nodes.len();
    &&& forall|i: int, j: int|
        0 <= i < n && 0 <= j < nodes[i].parents@.len() ==> #[trigger] nodes[i].parents@[j] < n
    &&& forall|i: int, j: int|
        0 <= i < n && 0 <= j < nodes[i].inputs@.len() ==> #[trigger] nodes[i].inputs@[j] < n
    &&& forall|j: int| 0 <= j < roots.len() ==> #[trigger] roots[j] < n
    &&& forall|j: int| 0 <= j < active.len() ==> #[trigger] active[j] < n
}

/// A derivation whose summary holds something.
pub open spec fn shows(nodes: Seq<SelectNode>, i: int) -> bool {
    !nodes[i].summary_empty
}

/// The active derivations: those of the summary's running and failed builds
/// and transfers where there are any, else those building or failed.
pub open spec fn is_active(nodes: Seq<SelectNode>, active: Seq<usize>, i: int) -> bool {
    if active.len() > 0 {
        active.contains(i as usize)
    } else {
        nodes[i].active_build
    }
}

/// `path` leads up from its first node: each next node takes the one before
/// as input and shows something.
pub open spec fn up_path(nodes: Seq<SelectNode>, path: Seq<int>) -> bool {
    &&& path.len() >= 1
    &&& forall|k: int| 0 <= k < path.len() ==> 0 <= #[trigger] path[k] < nodes.len()
    &&& forall|k: int|
        1 <= k < path.len() ==> nodes[path[k - 1]].parents@.contains(#[trigger] path[k] as usize)
            && shows(nodes, path[k])
}

/// A derivation on the way up from an active one.
pub open spec fn on_active_path(nodes: Seq<SelectNode>, active: Seq<usize>, x: int) -> bool {
    exists|path: Seq<int>|
        up_path(nodes, path) && is_active(nodes, active, path[0]) && #[trigger] path.last() == x
}

/// A derivation that shows something and takes as input one on the way up
/// from an active derivation.
pub open spec fn has_active_descendant(nodes: Seq<SelectNode>, active: Seq<usize>, q: int) -> bool {
    shows(nodes, q) && exists|p: int|
        0 <= p < nodes.len() && on_active_path(nodes, active, p) && #[trigger] nodes[p].parents@.contains(
            q as usize,
        )
}

/// The number of `true` entries.
pub open spec fn count_true(s: Seq<bool>) -> nat
    decreases s.len(),
{
    if s.len() == 0 {
        0
    } else {
        count_true(s.drop_last()) + if s.last() {
            1nat
        } else {
            0nat
        }
    }
}

pub(crate) proof fn lemma_count_true_bounds(s: Seq<bool>)
    ensures
        count_true(s) <= s.len(),
    decreases s.len(),
{
    if s.len() > 0 {
        lemma_count_true_bounds(s.drop_last());
    }
}

pub(crate) proof fn lemma_count_true_set(s: Seq<bool>, i: int)
    requires
        0 <= i < s.len(),
        !s[i],
    ensures
        count_true(s.update(i, true)) == count_true(s) + 1,
    decreases s.len(),
{
    let t = s.update(i, true);
    if i == s.len() - 1 {
        assert(t.drop_last() =~= s.drop_last());
    } else {
        lemma_count_true_set(s.drop_last(), i);
        assert(t.drop_last() =~= s.drop_last().update(i, true));
    }
}

pub(crate) proof fn lemma_count_true_none(n: nat)
    ensures
        count_true(Seq::new(n, |i: int| false)) == 0,
    decreases n,
{
    if n > 0 {
        lemma_count_true_none((n - 1) as nat);
        assert(Seq::new(n, |i: int| false).drop_last() =~= Seq::new((n - 1) as nat, |i: int| false));
    }
}

pub(crate) fn falses(n: usize) -> (v: Vec<bool>)
    ensures
        v@ == Seq::new(n as nat, |i: int| false),
{
    let mut v: Vec<bool> = Vec::new();
    let mut i: usize = 0;
    while i < n
        invariant
            i <= n,
            v@ == Seq::new(i as nat, |k: int| false),
        decreases n - i,
    {
        v.push(false);
        assert(v@ =~= Seq::new((i + 1) as nat, |k: int| false));
        i += 1;
    }
    v
}

/// A node all of whose showing parents are marked.
pub open spec fn closed_at(nodes: Seq<SelectNode>, marked: Seq<bool>, p: int) -> bool {
    forall|j: int|
        0 <= j < nodes[p].parents@.len() && shows(nodes, nodes[p].parents@[j] as int) ==> marked[#[trigger] nodes[p].parents@[j] as int]
}

proof fn lemma_closed_mono(nodes: Seq<SelectNode>, m: Seq<bool>, m2: Seq<bool>, x: int)
    requires
        closed_at(nodes, m, x),
        m.len() == m2.len(),
        forall|i: int| 0 <= i < m.len() && #[trigger] m[i] ==> m2[i],
        forall|j: int| 0 <= j < nodes[x].parents@.len() ==> (#[trigger] nodes[x].parents@[j]) < m.len(),
    ensures
        closed_at(nodes, m2, x),
{
    assert forall|j: int| 0 <= j < nodes[x].parents@.len() && shows(nodes, nodes[x].parents@[j] as int) implies m2[#[trigger] nodes[x].parents@[j] as int] by {
        assert(m[nodes[x].parents@[j] as int]);
    }
}

proof fn lemma_path_marked(nodes: Seq<SelectNode>, marked: Seq<bool>, path: Seq<int>, k: int)
    requires
        up_path(nodes, path),
        marked.len() == nodes.len(),
        nodes.len() <= usize::MAX,
        marked[path[0]],
        forall|p: int| 0 <= p < nodes.len() && #[trigger] marked[p] ==> closed_at(nodes, marked, p),
        0 <= k < path.len(),
    ensures
        marked[path[k]],
    decreases k,
{
    if k > 0 {
        lemma_path_marked(nodes, marked, path, k - 1);
        let p = path[k - 1];
        assert(0 <= path[k] < nodes.len());
        assert(nodes[p].parents@.contains(path[k] as usize));
        let j = choose|j: int| 0 <= j < nodes[p].parents@.len() && nodes[p].parents@[j] == path[k] as usize;
        assert(closed_at(nodes, marked, p));
        assert(nodes[p].parents@[j] as int == path[k]);
    }
}

/// All the showing parents of a node have been recorded.
pub open spec fn parents_recorded(nodes: Seq<SelectNode>, desc: Seq<bool>, p: int) -> bool {
    forall|j: int|
        0 <= j < nodes[p].parents@.len() && shows(nodes, nodes[p].parents@[j] as int) ==> desc[#[trigger] nodes[p].parents@[j] as int]
}

/// The derivations on the way up from the active ones, and those that show
/// something and take one of them as input; and whether any is active.
fn active_paths(nodes: &Vec<SelectNode>, active: &Vec<usize>) -> (r: (Vec<bool>, Vec<bool>, bool))
    requires
        graph_wf(nodes@, Seq::empty(), active@),
    ensures
        r.0@.len() == nodes@.len(),
        r.1@.len() == nodes@.len(),
        forall|x: int| 0 <= x < nodes@.len() ==> r.0@[x] == on_active_path(nodes@, active@, x),
        forall|q: int| 0 <= q < nodes@.len() ==> r.1@[q] == has_active_descendant(nodes@, active@, q),
        r.2 == exists|x: int| 0 <= x < nodes@.len() && is_active(nodes@, active@, x),
{
    let n = nodes.len();
    let ghost ns = nodes@;
    let (mut marked, mut stack, any) = seed_active(nodes, active);
    let mut desc = falses(n);
    let ghost mut processed: Seq<bool> = Seq::new(n as nat, |i: int| false);
    let ghost mut wit: Seq<Seq<int>> = Seq::new(n as nat, |i: int| seq![i]);
    proof {
        assert forall|x: int| 0 <= x < n && #[trigger] marked@[x] implies up_path(ns, wit[x]) && is_active(ns, active@, wit[x][0]) && wit[x].last() == x by {
            assert(wit[x] == seq![x]);
        }
    }
    while stack.len() > 0
        invariant
            n == ns.len(),
            ns == nodes@,
            graph_wf(ns, Seq::empty(), active@),
            marked@.len() == n,
            desc@.len() == n,
            processed.len() == n,
            wit.len() == n,
            forall|x: int| 0 <= x < n && #[trigger] marked@[x] ==> up_path(ns, wit[x]) && is_active(ns, active@, wit[x][0]) && wit[x].last() == x,
            forall|x: int| 0 <= x < n && is_active(ns, active@, x) ==> #[trigger] marked@[x],
            forall|k: int| 0 <= k < stack@.len() ==> (#[trigger] stack@[k]) < n && marked@[stack@[k] as int] && !processed[stack@[k] as int],
            stack@.no_duplicates(),
            forall|x: int| 0 <= x < n && #[trigger] marked@[x] ==> processed[x] || stack@.contains(x as usize),
            forall|x: int| 0 <= x < n && #[trigger] processed[x] ==> marked@[x] && closed_at(ns, marked@, x) && parents_recorded(ns, desc@, x),
            forall|q: int| 0 <= q < n && #[trigger] desc@[q] ==> shows(ns, q) && exists|x: int| 0 <= x < n && processed[x] && #[trigger] ns[x].parents@.contains(q as usize),
            count_true(marked@) <= n,
        decreases 2 * (n - count_true(marked@)) + stack@.len(),
    {
        let ghost start_measure = 2 * (n - count_true(marked@)) + stack@.len();
        let ghost before_pop = stack@;
        let p = stack.pop().unwrap();
        proof {
            assert(before_pop == stack@.push(p));
            assert(before_pop[before_pop.len() - 1] == p);
            assert(!stack@.contains(p)) by {
                if stack@.contains(p) {
                    let k = choose|k: int| 0 <= k < stack@.len() && stack@[k] == p;
                    assert(before_pop[k] == p);
                }
            }
            assert forall|k: int| 0 <= k < stack@.len() implies (#[trigger] stack@[k]) < n && marked@[stack@[k] as int] && !processed[stack@[k] as int] by {
                assert(stack@[k] == before_pop[k]);
            }
            assert forall|x: int| 0 <= x < n && #[trigger] marked@[x] implies processed[x] || stack@.contains(x as usize) || x == p by {
                if !processed[x] {
                    assert(before_pop.contains(x as usize));
                    let k = choose|k: int| 0 <= k < before_pop.len() && before_pop[k] == x as usize;
                    if k < stack@.len() {
                        assert(stack@[k] == x as usize);
                    }
                }
            }
        }
        let parents = &nodes[p].parents;
        let mut j: usize = 0;
        while j < parents.len()
            invariant
                n == ns.len(),
                ns == nodes@,
                graph_wf(ns, Seq::empty(), active@),
                p < n,
                marked@[p as int],
                !processed[p as int],
                !stack@.contains(p),
                parents@ == ns[p as int].parents@,
                j <= parents.len(),
                marked@.len() == n,
                desc@.len() == n,
                processed.len() == n,
                wit.len() == n,
                forall|x: int| 0 <= x < n && #[trigger] marked@[x] ==> up_path(ns, wit[x]) && is_active(ns, active@, wit[x][0]) && wit[x].last() == x,
                forall|x: int| 0 <= x < n && is_active(ns, active@, x) ==> #[trigger] marked@[x],
                forall|k: int| 0 <= k < stack@.len() ==> (#[trigger] stack@[k]) < n && marked@[stack@[k] as int] && !processed[stack@[k] as int],
                stack@.no_duplicates(),
                forall|x: int| 0 <= x < n && #[trigger] marked@[x] ==> processed[x] || stack@.contains(x as usize) || x == p,
                forall|x: int| 0 <= x < n && #[trigger] processed[x] ==> marked@[x] && closed_at(ns, marked@, x) && parents_recorded(ns, desc@, x),
                forall|q: int| 0 <= q < n && #[trigger] desc@[q] ==> shows(ns, q) && exists|x: int| 0 <= x < n && (processed[x] || x == p) && #[trigger] ns[x].parents@.contains(q as usize),
                forall|k: int| 0 <= k < j && shows(ns, parents@[k] as int) ==> marked@[#[trigger] parents@[k] as int] && desc@[parents@[k] as int],
                count_true(marked@) <= n,
                2 * (n - count_true(marked@)) + stack@.len() < start_measure,
            decreases parents.len() - j,
        {
            let q = parents[j];
            assert(ns[p as int].parents@[j as int] == q);
            assert(ns[p as int].parents@.contains(q));
            if !nodes[q].summary_empty {
                let ghost old_desc = desc@;
                desc.set(q, true);
                proof {
                    assert forall|x: int| 0 <= x < n && #[trigger] processed[x] implies parents_recorded(ns, desc@, x) by {
                        assert forall|jj: int| 0 <= jj < ns[x].parents@.len() && shows(ns, ns[x].parents@[jj] as int) implies desc@[#[trigger] ns[x].parents@[jj] as int] by {
                            assert(old_desc[ns[x].parents@[jj] as int]);
                        }
                    }
                    assert forall|qq: int| 0 <= qq < n && #[trigger] desc@[qq] implies shows(ns, qq) && exists|x: int| 0 <= x < n && (processed[x] || x == p) && #[trigger] ns[x].parents@.contains(qq as usize) by {
                        if qq == q {
                            assert(ns[p as int].parents@.contains(qq as usize));
                        } else {
                            assert(old_desc[qq]);
                        }
                    }
                }
                if !marked[q] {
                    let ghost old_marked = marked@;
                    let ghost old_stack = stack@;
                    proof {
                        lemma_count_true_set(marked@, q as int);
                        let w = wit[p as int].push(q as int);
                        assert(up_path(ns, w)) by {
                            assert forall|k: int| 1 <= k < w.len() implies ns[w[k - 1]].parents@.contains(#[trigger] w[k] as usize)
                                && shows(ns, w[k]) by {
                                if k < w.len() - 1 {
                                    assert(w[k] == wit[p as int][k]);
                                    assert(w[k - 1] == wit[p as int][k - 1]);
                                } else {
                                    assert(w[k - 1] == p);
                                }
                            }
                            assert forall|k: int| 0 <= k < w.len() implies 0 <= #[trigger] w[k] < ns.len() by {
                                if k < w.len() - 1 {
                                    assert(w[k] == wit[p as int][k]);
                                }
                            }
                        }
                        wit = wit.update(q as int, w);
                    }
                    marked.set(q, true);
                    stack.push(q);
                    proof {
                        lemma_count_true_bounds(marked@);
                        assert(stack@ == old_stack.push(q));
                        assert forall|a: int, b: int| 0 <= a < stack@.len() && 0 <= b < stack@.len() && a != b implies stack@[a] != stack@[b] by {
                            if a < old_stack.len() && b < old_stack.len() {
                            } else if a == old_stack.len() {
                                assert(old_marked[stack@[b] as int]);
                            } else {
                                assert(old_marked[stack@[a] as int]);
                            }
                        }
                        assert forall|k: int| 0 <= k < stack@.len() implies (#[trigger] stack@[k]) < n && marked@[stack@[k] as int] && !processed[stack@[k] as int] by {
                            if k < old_stack.len() {
                                assert(stack@[k] == old_stack[k]);
                            }
                        }
                        assert(!stack@.contains(p)) by {
                            if stack@.contains(p) {
                                let k = choose|k: int| 0 <= k < stack@.len() && stack@[k] == p;
                                if k < old_stack.len() {
                                    assert(old_stack[k] == p);
                                }
                            }
                        }
                        assert forall|x: int| 0 <= x < n && #[trigger] marked@[x] implies processed[x] || stack@.contains(x as usize) || x == p by {
                            if x == q {
                                assert(stack@[old_stack.len() as int] == q);
                            } else {
                                assert(old_marked[x]);
                                if old_stack.contains(x as usize) {
                                    let k = choose|k: int| 0 <= k < old_stack.len() && old_stack[k] == x as usize;
                                    assert(stack@[k] == x as usize);
                                }
                            }
                        }
                        assert forall|x: int| 0 <= x < n && #[trigger] processed[x] implies marked@[x] && closed_at(ns, marked@, x) && parents_recorded(ns, desc@, x) by {
                            lemma_closed_mono(ns, old_marked, marked@, x);
                        }
                    }
                }
            }
            j += 1;
        }
        proof {
            assert forall|jj: int| 0 <= jj < ns[p as int].parents@.len() && shows(ns, ns[p as int].parents@[jj] as int) implies marked@[#[trigger] ns[p as int].parents@[jj] as int] by {
                assert(parents@[jj] == ns[p as int].parents@[jj]);
            }
            assert forall|jj: int| 0 <= jj < ns[p as int].parents@.len() && shows(ns, ns[p as int].parents@[jj] as int) implies desc@[#[trigger] ns[p as int].parents@[jj] as int] by {
                assert(parents@[jj] == ns[p as int].parents@[jj]);
            }
            processed = processed.update(p as int, true);
            assert forall|k: int| 0 <= k < stack@.len() implies (#[trigger] stack@[k]) < n && marked@[stack@[k] as int] && !processed[stack@[k] as int] by {
                assert(stack@[k] != p);
            }
        }
    }

    // Complete: every node on a way up is marked.
    proof {
        assert forall|x: int| 0 <= x < n && #[trigger] marked@[x] implies closed_at(ns, marked@, x) by {
            assert(processed[x] || stack@.contains(x as usize));
        }
        assert forall|x: int| 0 <= x < n implies marked@[x] == on_active_path(ns, active@, x) by {
            if marked@[x] {
                assert(wit[x].last() == x);
            }
            if on_active_path(ns, active@, x) {
                let path = choose|path: Seq<int>| up_path(ns, path) && is_active(ns, active@, path[0]) && #[trigger] path.last() == x;
                assert(0 <= path[0] < n);
                lemma_path_marked(ns, marked@, path, path.len() - 1);
            }
        }
        assert forall|q: int| 0 <= q < n implies desc@[q] == has_active_descendant(ns, active@, q) by {
            if has_active_descendant(ns, active@, q) {
                let p = choose|p: int| 0 <= p < n && on_active_path(ns, active@, p) && #[trigger] ns[p].parents@.contains(q as usize);
                let k = choose|k: int| 0 <= k < ns[p].parents@.len() && ns[p].parents@[k] == q as usize;
                assert(marked@[p]);
                assert(processed[p] || stack@.contains(p as usize));
                assert(parents_recorded(ns, desc@, p));
                assert(ns[p].parents@[k] as int == q);
            }
            if desc@[q] {
                let p = choose|p: int| 0 <= p < n && processed[p] && #[trigger] ns[p].parents@.contains(q as usize);
                assert(marked@[p]);
                assert(on_active_path(ns, active@, p));
            }
        }
    }
    (marked, desc, any)
}

/// The active derivations, marked and on a stack, and whether there are any.
fn seed_active(nodes: &Vec<SelectNode>, active: &Vec<usize>) -> (r: (Vec<bool>, Vec<usize>, bool))
    requires
        graph_wf(nodes@, Seq::empty(), active@),
    ensures
        r.0@.len() == nodes@.len(),
        forall|x: int| 0 <= x < nodes@.len() ==> (r.0@[x] <==> is_active(nodes@, active@, x)),
        forall|k: int| 0 <= k < r.1@.len() ==> (#[trigger] r.1@[k]) < nodes@.len() && r.0@[r.1@[k] as int],
        r.1@.no_duplicates(),
        forall|x: int| 0 <= x < nodes@.len() && #[trigger] r.0@[x] ==> r.1@.contains(x as usize),
        count_true(r.0@) <= nodes@.len(),
        r.2 == exists|x: int| 0 <= x < nodes@.len() && is_active(nodes@, active@, x),
{
    let n = nodes.len();
    let ghost ns = nodes@;
    let mut marked = falses(n);
    let mut stack: Vec<usize> = Vec::new();
    let mut any = false;
    let len = if active.len() > 0 {
        active.len()
    } else {
        n
    };
    let mut i: usize = 0;
    while i < len
        invariant
            i <= len,
            len == if active.len() > 0 { active.len() } else { n },
            n == ns.len(),
            ns == nodes@,
            graph_wf(ns, Seq::empty(), active@),
            marked@.len() == n,
            forall|k: int| 0 <= k < stack@.len() ==> (#[trigger] stack@[k]) < n && marked@[stack@[k] as int],
            stack@.no_duplicates(),
            forall|x: int| 0 <= x < n && #[trigger] marked@[x] ==> stack@.contains(x as usize),
            forall|x: int| 0 <= x < n && #[trigger] marked@[x] ==> is_active(ns, active@, x),
            active.len() > 0 ==> forall|k: int| 0 <= k < i ==> marked@[#[trigger] active@[k] as int],
            active.len() == 0 ==> forall|x: int| 0 <= x < i && #[trigger] ns[x].active_build ==> marked@[x],
            any == exists|x: int| 0 <= x < n && marked@[x],
        decreases len - i,
    {
        let x: usize = if active.len() > 0 {
            active[i]
        } else {
            i
        };
        let is_act = if active.len() > 0 {
            true
        } else {
            nodes[i].active_build
        };
        proof {
            if active.len() > 0 {
                assert(active@[i as int] == x);
                assert(active@.contains(x));
            }
        }
        if is_act && !marked[x] {
            let ghost old_stack = stack@;
            let ghost old_marked = marked@;
            marked.set(x, true);
            stack.push(x);
            proof {
                assert(stack@ == old_stack.push(x));
                assert forall|a: int, b: int| 0 <= a < stack@.len() && 0 <= b < stack@.len() && a != b implies stack@[a] != stack@[b] by {
                    if a < old_stack.len() && b < old_stack.len() {
                    } else if a == old_stack.len() {
                        assert(old_marked[stack@[b] as int]);
                    } else {
                        assert(old_marked[stack@[a] as int]);
                    }
                }
                assert forall|k: int| 0 <= k < stack@.len() implies (#[trigger] stack@[k]) < n && marked@[stack@[k] as int] by {
                    if k < old_stack.len() {
                        assert(stack@[k] == old_stack[k]);
                    }
                }
                assert forall|y: int| 0 <= y < n && #[trigger] marked@[y] implies stack@.contains(y as usize) by {
                    if y == x {
                        assert(stack@[old_stack.len() as int] == x);
                    } else {
                        assert(old_marked[y]);
                        let k = choose|k: int| 0 <= k < old_stack.len() && old_stack[k] == y as usize;
                        assert(stack@[k] == y as usize);
                    }
                }
                assert(marked@[x as int]);
            }
            any = true;
        }
        i += 1;
    }
    proof {
        assert forall|x: int| 0 <= x < n implies (marked@[x] <==> is_active(ns, active@, x)) by {
            if is_active(ns, active@, x) && active.len() > 0 {
                let k = choose|k: int| 0 <= k < active@.len() && active@[k] == x as usize;
                assert(marked@[active@[k] as int]);
            }
        }
        lemma_count_true_bounds(marked@);
        if any {
            let x = choose|x: int| 0 <= x < n && marked@[x];
            assert(is_active(ns, active@, x));
        }
    }
    (marked, stack, any)
}

// ---------------------------------------------------------------------
// With active derivations: the ways up, then the nearest inputs by rank
// ---------------------------------------------------------------------

pub open spec fn any_active(nodes: Seq<SelectNode>, active: Seq<usize>) -> bool {
    exists|x: int| 0 <= x < nodes.len() && is_active(nodes, active, x)
}

/// Shown in any case: the roots that show something and, where derivations
/// are active, the ways up from them.
pub open spec fn base_selected(nodes: Seq<SelectNode>, roots: Seq<usize>, active: Seq<usize>, x: int) -> bool {
    (roots.contains(x as usize) && shows(nodes, x)) || (any_active(nodes, active) && on_active_path(
        nodes,
        active,
        x,
    ))
}

/// `acc` with the nodes of `xs` added, in order, each unless it is shown in
/// any case or already there.
pub open spec fn add_candidates(base: Seq<bool>, acc: Seq<usize>, xs: Seq<usize>) -> Seq<usize>
    decreases xs.len(),
{
    if xs.len() == 0 {
        acc
    } else {
        let a = add_candidates(base, acc, xs.drop_last());
        let x = xs.last();
        if !base[x as int] && !a.contains(x) {
            a.push(x)
        } else {
            a
        }
    }
}

/// The candidates among the inputs of the first `k` nodes that have an
/// active descendant.
pub open spec fn descendant_candidates(nodes: Seq<SelectNode>, active: Seq<usize>, base: Seq<bool>, k: int) -> Seq<usize>
    decreases k,
{
    if k <= 0 {
        Seq::empty()
    } else {
        let prev = descendant_candidates(nodes, active, base, k - 1);
        if has_active_descendant(nodes, active, k - 1) {
            add_candidates(base, prev, nodes[k - 1].inputs@)
        } else {
            prev
        }
    }
}

/// The candidates after those of the inputs of the first `k` roots.
pub open spec fn root_candidates(nodes: Seq<SelectNode>, roots: Seq<usize>, base: Seq<bool>, start: Seq<usize>, k: int) -> Seq<usize>
    decreases k,
{
    if k <= 0 {
        start
    } else {
        add_candidates(base, root_candidates(nodes, roots, base, start, k - 1), nodes[roots[k - 1] as int].inputs@)
    }
}

/// The inputs that may be shown besides: those of the derivations with an
/// active descendant, then those of the roots, each once, in the order met.
pub open spec fn candidates(nodes: Seq<SelectNode>, roots: Seq<usize>, active: Seq<usize>, base: Seq<bool>) -> Seq<usize> {
    root_candidates(
        nodes,
        roots,
        base,
        descendant_candidates(nodes, active, base, nodes.len() as int),
        roots.len() as int,
    )
}

/// Candidate `j` comes before candidate `i`: by rank, then in the order met.
pub open spec fn comes_before(nodes: Seq<SelectNode>, c: Seq<usize>, j: int, i: int) -> bool {
    nodes[c[j] as int].rank < nodes[c[i] as int].rank || (nodes[c[j] as int].rank == nodes[c[i] as int].rank
        && j < i)
}

/// The number of showing candidates among the first `k` that come before
/// candidate `i`.
pub open spec fn count_before(nodes: Seq<SelectNode>, c: Seq<usize>, i: int, k: int) -> nat
    decreases k,
{
    if k <= 0 {
        0
    } else {
        count_before(nodes, c, i, k - 1) + if shows(nodes, c[k - 1] as int) && comes_before(nodes, c, k - 1, i) {
            1nat
        } else {
            0nat
        }
    }
}

/// Candidate `i` is among the first `budget` showing candidates.
pub open spec fn picked(nodes: Seq<SelectNode>, c: Seq<usize>, budget: nat, i: int) -> bool {
    shows(nodes, c[i] as int) && count_before(nodes, c, i, c.len() as int) < budget
}

proof fn lemma_add_candidates(base: Seq<bool>, acc: Seq<usize>, xs: Seq<usize>, n: int)
    requires
        acc.no_duplicates(),
        forall|k: int| 0 <= k < acc.len() ==> (#[trigger] acc[k]) < n,
        forall|k: int| 0 <= k < xs.len() ==> (#[trigger] xs[k]) < n,
        base.len() == n,
    ensures
        add_candidates(base, acc, xs).no_duplicates(),
        forall|k: int| 0 <= k < add_candidates(base, acc, xs).len() ==> (#[trigger] add_candidates(base, acc, xs)[k]) < n,
        add_candidates(base, acc, xs).len() >= acc.len(),
        forall|k: int| 0 <= k < acc.len() ==> add_candidates(base, acc, xs)[k] == #[trigger] acc[k],
    decreases xs.len(),
{
    if xs.len() > 0 {
        lemma_add_candidates(base, acc, xs.drop_last(), n);
        let a = add_candidates(base, acc, xs.drop_last());
        let x = xs.last();
        if !base[x as int] && !a.contains(x) {
            let r = a.push(x);
            assert forall|i: int, j: int| 0 <= i < r.len() && 0 <= j < r.len() && i != j implies r[i] != r[j] by {
                if i == a.len() {
                    assert(r[j] == a[j]);
                } else if j == a.len() {
                    assert(r[i] == a[i]);
                }
            }
        }
    }
}

fn add_candidates_exec(base: &Vec<bool>, acc: &mut Vec<usize>, seen: &mut Vec<bool>, xs: &Vec<usize>)
    requires
        old(seen)@.len() == base@.len(),
        forall|k: int| 0 <= k < xs@.len() ==> (#[trigger] xs@[k]) < base@.len(),
        forall|k: int| 0 <= k < old(acc)@.len() ==> (#[trigger] old(acc)@[k]) < base@.len(),
        forall|x: int| 0 <= x < base@.len() ==> (old(seen)@[x] <==> old(acc)@.contains(x as usize)),
    ensures
        final(acc)@ == add_candidates(base@, old(acc)@, xs@),
        final(seen)@.len() == base@.len(),
        forall|k: int| 0 <= k < final(acc)@.len() ==> (#[trigger] final(acc)@[k]) < base@.len(),
        forall|x: int| 0 <= x < base@.len() ==> (final(seen)@[x] <==> final(acc)@.contains(x as usize)),
{
    let ghost acc0 = acc@;
    let bl = base.len();
    let mut k: usize = 0;
    while k < xs.len()
        invariant
            k <= xs.len(),
            bl == base@.len(),
            seen@.len() == base@.len(),
            forall|i: int| 0 <= i < xs@.len() ==> (#[trigger] xs@[i]) < base@.len(),
            acc@ == add_candidates(base@, acc0, xs@.take(k as int)),
            forall|i: int| 0 <= i < acc@.len() ==> (#[trigger] acc@[i]) < base@.len(),
            forall|x: int| 0 <= x < base@.len() ==> (seen@[x] <==> acc@.contains(x as usize)),
        decreases xs.len() - k,
    {
        let x = xs[k];
        assert(xs@.take(k + 1).drop_last() =~= xs@.take(k as int));
        assert(xs@.take(k + 1).last() == x);
        if !base[x] && !seen[x] {
            let ghost before = acc@;
            acc.push(x);
            seen.set(x, true);
            proof {
                assert forall|y: int| 0 <= y < base@.len() implies (seen@[y] <==> acc@.contains(y as usize)) by {
                    if y == x {
                        assert(acc@[before.len() as int] == x);
                    } else {
                        if before.contains(y as usize) {
                            let i = choose|i: int| 0 <= i < before.len() && before[i] == y as usize;
                            assert(acc@[i] == y as usize);
                        }
                        if acc@.contains(y as usize) {
                            let i = choose|i: int| 0 <= i < acc@.len() && acc@[i] == y as usize;
                            assert(acc@[before.len() as int] == x);
                            assert(y as usize != x);
                            assert(i < before.len());
                            assert(before[i] == y as usize);
                        }
                    }
                }
                assert forall|i: int| 0 <= i < acc@.len() implies (#[trigger] acc@[i]) < base@.len() by {
                    if i < before.len() {
                        assert(acc@[i] == before[i]);
                    }
                }
            }
        }
        k += 1;
    }
    assert(xs@.take(xs@.len() as int) =~= xs@);
}

/// The candidates, given the nodes shown in any case and those with an
/// active descendant.
fn candidates_exec(nodes: &Vec<SelectNode>, roots: &Vec<usize>, desc: &Vec<bool>, base: &Vec<bool>, Ghost(active): Ghost<Seq<usize>>) -> (c: Vec<usize>)
    requires
        graph_wf(nodes@, roots@, active),
        desc@.len() == nodes@.len(),
        base@.len() == nodes@.len(),
        forall|q: int| 0 <= q < nodes@.len() ==> desc@[q] == has_active_descendant(nodes@, active, q),
    ensures
        c@ == candidates(nodes@, roots@, active, base@),
        forall|k: int| 0 <= k < c@.len() ==> (#[trigger] c@[k]) < nodes@.len(),
{
    let n = nodes.len();
    let mut acc: Vec<usize> = Vec::new();
    let mut seen = falses(n);
    let mut q: usize = 0;
    while q < n
        invariant
            q <= n,
            n == nodes@.len(),
            graph_wf(nodes@, roots@, active),
            desc@.len() == n,
            base@.len() == n,
            seen@.len() == n,
            forall|x: int| 0 <= x < n ==> desc@[x] == has_active_descendant(nodes@, active, x),
            acc@ == descendant_candidates(nodes@, active, base@, q as int),
            forall|i: int| 0 <= i < acc@.len() ==> (#[trigger] acc@[i]) < n,
            forall|x: int| 0 <= x < n ==> (seen@[x] <==> acc@.contains(x as usize)),
        decreases n - q,
    {
        if desc[q] {
            assert forall|k: int| 0 <= k < nodes@[q as int].inputs@.len() implies (#[trigger] nodes@[q as int].inputs@[k]) < n by {}
            add_candidates_exec(base, &mut acc, &mut seen, &nodes[q].inputs);
        }
        q += 1;
    }
    let ghost start = acc@;
    let mut j: usize = 0;
    while j < roots.len()
        invariant
            j <= roots.len(),
            n == nodes@.len(),
            graph_wf(nodes@, roots@, active),
            base@.len() == n,
            seen@.len() == n,
            start == descendant_candidates(nodes@, active, base@, n as int),
            acc@ == root_candidates(nodes@, roots@, base@, start, j as int),
            forall|i: int| 0 <= i < acc@.len() ==> (#[trigger] acc@[i]) < n,
            forall|x: int| 0 <= x < n ==> (seen@[x] <==> acc@.contains(x as usize)),
        decreases roots.len() - j,
    {
        let r = roots[j];
        assert(roots@[j as int] < n);
        assert forall|k: int| 0 <= k < nodes@[r as int].inputs@.len() implies (#[trigger] nodes@[r as int].inputs@[k]) < n by {}
        add_candidates_exec(base, &mut acc, &mut seen, &nodes[r].inputs);
        j += 1;
    }
    acc
}

fn count_before_exec(nodes: &Vec<SelectNode>, c: &Vec<usize>, i: usize) -> (r: usize)
    requires
        i < c@.len(),
        forall|k: int| 0 <= k < c@.len() ==> (#[trigger] c@[k]) < nodes@.len(),
    ensures
        r == count_before(nodes@, c@, i as int, c@.len() as int),
{
    let mut cnt: usize = 0;
    let mut k: usize = 0;
    while k < c.len()
        invariant
            k <= c.len(),
            i < c@.len(),
            forall|j: int| 0 <= j < c@.len() ==> (#[trigger] c@[j]) < nodes@.len(),
            cnt == count_before(nodes@, c@, i as int, k as int),
            cnt <= k,
        decreases c.len() - k,
    {
        let ck = c[k];
        let ci = c[i];
        let before = nodes[ck].rank < nodes[ci].rank || (nodes[ck].rank == nodes[ci].rank && k < i);
        if !nodes[ck].summary_empty && before {
            cnt += 1;
        }
        k += 1;
    }
    cnt
}

/// Marks the candidates that are among the first `budget` showing ones.
fn pick_candidates(nodes: &Vec<SelectNode>, c: &Vec<usize>, budget: usize, result: &mut Vec<bool>)
    requires
        old(result)@.len() == nodes@.len(),
        forall|k: int| 0 <= k < c@.len() ==> (#[trigger] c@[k]) < nodes@.len(),
    ensures
        final(result)@.len() == nodes@.len(),
        forall|x: int|
            0 <= x < nodes@.len() ==> (final(result)@[x] == (old(result)@[x] || exists|i: int|
                0 <= i < c@.len() && c@[i] == x as usize && #[trigger] picked(nodes@, c@, budget as nat, i))),
{
    let nl = nodes.len();
    let mut i: usize = 0;
    while i < c.len()
        invariant
            i <= c.len(),
            nl == nodes@.len(),
            result@.len() == nodes@.len(),
            forall|k: int| 0 <= k < c@.len() ==> (#[trigger] c@[k]) < nodes@.len(),
            forall|x: int|
                0 <= x < nodes@.len() ==> (result@[x] == (old(result)@[x] || exists|j: int|
                    0 <= j < i && c@[j] == x as usize && #[trigger] picked(nodes@, c@, budget as nat, j))),
        decreases c.len() - i,
    {
        let x = c[i];
        let ghost before = result@;
        let mut set = false;
        if !nodes[x].summary_empty {
            let cnt = count_before_exec(nodes, c, i);
            if cnt < budget {
                result.set(x, true);
                set = true;
            }
        }
        proof {
            assert(set == picked(nodes@, c@, budget as nat, i as int));
            assert forall|y: int| 0 <= y < nodes@.len() implies (result@[y] == (old(result)@[y] || exists|j: int|
                0 <= j < i + 1 && c@[j] == y as usize && #[trigger] picked(nodes@, c@, budget as nat, j))) by {
                let rhs = old(result)@[y] || exists|j: int|
                    0 <= j < i + 1 && c@[j] == y as usize && #[trigger] picked(nodes@, c@, budget as nat, j);
                if result@[y] {
                    if set && y == x as int {
                        assert(c@[i as int] == y as usize);
                        assert(picked(nodes@, c@, budget as nat, i as int));
                    } else {
                        assert(before[y]);
                        if !old(result)@[y] {
                            let j = choose|j: int| 0 <= j < i && c@[j] == y as usize && #[trigger] picked(nodes@, c@, budget as nat, j);
                            assert(0 <= j < i + 1 && c@[j] == y as usize && picked(nodes@, c@, budget as nat, j));
                        }
                    }
                    assert(rhs);
                }
                if rhs {
                    if !old(result)@[y] {
                        let j = choose|j: int| 0 <= j < i + 1 && c@[j] == y as usize && #[trigger] picked(nodes@, c@, budget as nat, j);
                        if j < i {
                            assert(0 <= j < i && c@[j] == y as usize && picked(nodes@, c@, budget as nat, j));
                            assert(before[y]);
                        } else {
                            assert(c@[i as int] == y as usize);
                            assert(y == x as int);
                        }
                    } else {
                        assert(before[y]);
                    }
                    assert(result@[y]);
                }
            }
        }
        i += 1;
    }
}

// ---------------------------------------------------------------------
// Without active derivations: breadth first from the roots
// ---------------------------------------------------------------------

/// The state of the walk from the roots: the queue of nodes with its head,
/// the nodes met, the nodes shown and how many, and whether it has ended.
pub struct BfsState {
    pub queue: Seq<usize>,
    pub head: int,
    pub visited: Seq<bool>,
    pub result: Seq<bool>,
    pub count: int,
    pub stopped: bool,
}

/// The walk after meeting the first `k` inputs `cs` of a node: an input not
/// met before is met and, where it shows something, shown and queued; once
/// `max` nodes are shown, the rest are passed over.
pub open spec fn visit_children(nodes: Seq<SelectNode>, max: usize, st: BfsState, cs: Seq<usize>, k: int) -> BfsState
    decreases k,
{
    if k <= 0 {
        st
    } else {
        let s = visit_children(nodes, max, st, cs, k - 1);
        let c = cs[k - 1] as int;
        if s.count >= max || s.visited[c] {
            s
        } else if shows(nodes, c) {
            BfsState {
                visited: s.visited.update(c, true),
                result: s.result.update(c, true),
                count: s.count + if s.result[c] {
                    0int
                } else {
                    1int
                },
                queue: s.queue.push(cs[k - 1]),
                ..s
            }
        } else {
            BfsState { visited: s.visited.update(c, true), ..s }
        }
    }
}

/// One step of the walk: the next node of the queue has its inputs met; the
/// walk ends when the queue is empty or `max` nodes are shown.
pub open spec fn bfs_step(nodes: Seq<SelectNode>, max: usize, st: BfsState) -> BfsState {
    if st.stopped {
        st
    } else if st.head >= st.queue.len() || st.count >= max {
        BfsState { stopped: true, ..st }
    } else {
        let p = st.queue[st.head] as int;
        visit_children(nodes, max, BfsState { head: st.head + 1, ..st }, nodes[p].inputs@, nodes[p].inputs@.len() as int)
    }
}

pub open spec fn bfs_run(nodes: Seq<SelectNode>, max: usize, st: BfsState, fuel: nat) -> BfsState
    decreases fuel,
{
    if fuel == 0 {
        st
    } else {
        bfs_run(nodes, max, bfs_step(nodes, max, st), (fuel - 1) as nat)
    }
}

/// The walk's start: the roots queued, those that show something met and
/// shown.
pub open spec fn bfs_start(nodes: Seq<SelectNode>, roots: Seq<usize>) -> BfsState {
    let base = Seq::new(nodes.len(), |x: int| roots.contains(x as usize) && shows(nodes, x));
    BfsState { queue: roots, head: 0, visited: base, result: base, count: count_true(base) as int, stopped: false }
}

/// The nodes the walk shows: it ends within `2 n + r + 1` steps.
pub open spec fn bfs_selected(nodes: Seq<SelectNode>, roots: Seq<usize>, max: usize) -> Seq<bool> {
    bfs_run(nodes, max, bfs_start(nodes, roots), (2 * nodes.len() + roots.len() + 1) as nat).result
}

pub open spec fn bfs_wf(nodes: Seq<SelectNode>, st: BfsState) -> bool {
    &&& st.visited.len() == nodes.len()
    &&& st.result.len() == nodes.len()
    &&& 0 <= st.head <= st.queue.len()
    &&& forall|k: int| 0 <= k < st.queue.len() ==> (#[trigger] st.queue[k]) < nodes.len()
    &&& 0 <= st.count
}

pub open spec fn bfs_measure(nodes: Seq<SelectNode>, st: BfsState) -> int {
    2 * (nodes.len() - count_true(st.visited)) + (st.queue.len() - st.head)
}

proof fn lemma_visit_children(nodes: Seq<SelectNode>, max: usize, st: BfsState, cs: Seq<usize>, k: int)
    requires
        bfs_wf(nodes, st),
        0 <= k <= cs.len(),
        forall|i: int| 0 <= i < cs.len() ==> (#[trigger] cs[i]) < nodes.len(),
    ensures
        bfs_wf(nodes, visit_children(nodes, max, st, cs, k)),
        bfs_measure(nodes, visit_children(nodes, max, st, cs, k)) <= bfs_measure(nodes, st),
        visit_children(nodes, max, st, cs, k).head == st.head,
        visit_children(nodes, max, st, cs, k).stopped == st.stopped,
        count_true(visit_children(nodes, max, st, cs, k).visited) <= nodes.len(),
    decreases k,
{
    lemma_count_true_bounds(st.visited);
    if k > 0 {
        lemma_visit_children(nodes, max, st, cs, k - 1);
        let s = visit_children(nodes, max, st, cs, k - 1);
        let c = cs[k - 1] as int;
        if !(s.count >= max || s.visited[c]) {
            lemma_count_true_set(s.visited, c);
            lemma_count_true_bounds(s.visited.update(c, true));
            let t = visit_children(nodes, max, st, cs, k);
            assert forall|i: int| 0 <= i < t.queue.len() implies (#[trigger] t.queue[i]) < nodes.len() by {
                if i < s.queue.len() {
                    assert(t.queue[i] == s.queue[i]);
                }
            }
        }
    }
}

proof fn lemma_step_measure(nodes: Seq<SelectNode>, max: usize, st: BfsState)
    requires
        bfs_wf(nodes, st),
        !st.stopped,
        count_true(st.visited) <= nodes.len(),
        forall|i: int, j: int| 0 <= i < nodes.len() && 0 <= j < nodes[i].inputs@.len() ==> #[trigger] nodes[i].inputs@[j] < nodes.len(),
    ensures
        bfs_wf(nodes, bfs_step(nodes, max, st)),
        bfs_step(nodes, max, st).stopped || bfs_measure(nodes, bfs_step(nodes, max, st)) < bfs_measure(nodes, st),
        count_true(bfs_step(nodes, max, st).visited) <= nodes.len(),
{
    if !(st.head >= st.queue.len() || st.count >= max) {
        let p = st.queue[st.head] as int;
        let st1 = BfsState { head: st.head + 1, ..st };
        assert forall|i: int| 0 <= i < nodes[p].inputs@.len() implies (#[trigger] nodes[p].inputs@[i]) < nodes.len() by {}
        lemma_visit_children(nodes, max, st1, nodes[p].inputs@, nodes[p].inputs@.len() as int);
    }
}

proof fn lemma_run_split(nodes: Seq<SelectNode>, max: usize, st: BfsState, a: nat, b: nat)
    ensures
        bfs_run(nodes, max, st, a + b) == bfs_run(nodes, max, bfs_run(nodes, max, st, a), b),
    decreases a,
{
    if a > 0 {
        lemma_run_split(nodes, max, bfs_step(nodes, max, st), (a - 1) as nat, b);
        assert((a + b - 1) as nat == ((a - 1) + b) as nat);
    }
}

proof fn lemma_run_stopped(nodes: Seq<SelectNode>, max: usize, st: BfsState, k: nat)
    requires
        st.stopped,
    ensures
        bfs_run(nodes, max, st, k) == st,
    decreases k,
{
    if k > 0 {
        lemma_run_stopped(nodes, max, st, (k - 1) as nat);
    }
}

/// The nodes the walk from the roots shows.
fn bfs_exec(nodes: &Vec<SelectNode>, roots: &Vec<usize>, max: usize) -> (r: Vec<bool>)
    requires
        graph_wf(nodes@, roots@, Seq::empty()),
    ensures
        r@ == bfs_selected(nodes@, roots@, max),
{
    let n = nodes.len();
    let ghost ns = nodes@;
    let ghost base = Seq::new(ns.len(), |x: int| roots@.contains(x as usize) && shows(ns, x));
    let mut visited = falses(n);
    let mut count: usize = 0;
    let mut queue: Vec<usize> = Vec::new();
    let mut j: usize = 0;
    proof {
        lemma_count_true_none(n as nat);
        assert(roots@.take(0) =~= Seq::<usize>::empty());
    }
    while j < roots.len()
        invariant
            j <= roots.len(),
            n == ns.len(),
            ns == nodes@,
            graph_wf(ns, roots@, Seq::empty()),
            visited@.len() == n,
            queue@ == roots@.take(j as int),
            forall|x: int| 0 <= x < n ==> #[trigger] visited@[x] == (roots@.take(j as int).contains(x as usize) && shows(ns, x)),
            count == count_true(visited@),
            count <= n,
        decreases roots.len() - j,
    {
        let r = roots[j];
        assert(roots@[j as int] < n);
        queue.push(r);
        let ghost old_visited = visited@;
        if !nodes[r].summary_empty && !visited[r] {
            proof {
                lemma_count_true_set(visited@, r as int);
                lemma_count_true_bounds(visited@.update(r as int, true));
            }
            visited.set(r, true);
            count += 1;
        }
        proof {
            let t0 = roots@.take(j as int);
            let t1 = roots@.take(j + 1);
            assert(t1 =~= t0.push(r));
            assert(t1[j as int] == r);
            assert forall|x: int| 0 <= x < n implies visited@[x] == (t1.contains(x as usize) && shows(ns, x)) by {
                assert(old_visited[x] == (t0.contains(x as usize) && shows(ns, x)));
                if x != r as int {
                    assert(visited@[x] == old_visited[x]);
                }
                if x == r as int {
                    assert(t1.contains(r));
                } else if t0.contains(x as usize) {
                    let k = choose|k: int| 0 <= k < t0.len() && #[trigger] t0[k] == x as usize;
                    assert(t1[k] == x as usize);
                }
                if x != r as int && t1.contains(x as usize) {
                    let k = choose|k: int| 0 <= k < t1.len() && #[trigger] t1[k] == x as usize;
                    assert(k < j);
                    assert(t0[k] == x as usize);
                }
            }
        }
        j += 1;
    }
    assert(roots@.take(roots@.len() as int) =~= roots@);
    assert(visited@ =~= base);
    let mut result = falses(n);
    let mut i: usize = 0;
    while i < n
        invariant
            i <= n,
            n == ns.len(),
            result@.len() == n,
            visited@.len() == n,
            visited@ == base,
            forall|x: int| 0 <= x < i ==> result@[x] == visited@[x],
            forall|x: int| i <= x < n ==> !result@[x],
        decreases n - i,
    {
        if visited[i] {
            result.set(i, true);
        }
        i += 1;
    }
    assert(result@ =~= base);
    let ghost st0 = bfs_start(ns, roots@);
    let ghost m0 = bfs_measure(ns, st0);
    let mut head: usize = 0;
    let ghost mut it: nat = 0;
    proof {
        lemma_count_true_bounds(base);
    }
    while head < queue.len() && count < max
        invariant
            n == ns.len(),
            ns == nodes@,
            graph_wf(ns, roots@, Seq::empty()),
            bfs_run(ns, max, st0, it) == (BfsState {
                queue: queue@,
                head: head as int,
                visited: visited@,
                result: result@,
                count: count as int,
                stopped: false,
            }),
            bfs_wf(ns, bfs_run(ns, max, st0, it)),
            count_true(visited@) <= n,
            it + bfs_measure(ns, bfs_run(ns, max, st0, it)) <= m0,
        decreases bfs_measure(ns, bfs_run(ns, max, st0, it)),
    {
        let ghost before = bfs_run(ns, max, st0, it);
        proof {
            lemma_step_measure(ns, max, before);
            lemma_run_split(ns, max, st0, it, 1);
        }
        let p = queue[head];
        head += 1;
        let ghost st1 = BfsState { head: head as int, ..before };
        let cs = &nodes[p].inputs;
        assert(p < n);
        let mut k: usize = 0;
        while k < cs.len()
            invariant
                n == ns.len(),
                ns == nodes@,
                graph_wf(ns, roots@, Seq::empty()),
                p < n,
                cs@ == ns[p as int].inputs@,
                k <= cs.len(),
                visit_children(ns, max, st1, cs@, k as int) == (BfsState {
                    queue: queue@,
                    head: head as int,
                    visited: visited@,
                    result: result@,
                    count: count as int,
                    stopped: false,
                }),
                bfs_wf(ns, st1),
                count_true(visited@) <= n,
            decreases cs.len() - k,
        {
            assert forall|i: int| 0 <= i < cs@.len() implies (#[trigger] cs@[i]) < ns.len() by {}
            proof {
                lemma_visit_children(ns, max, st1, cs@, k as int);
            }
            let c = cs[k];
            if count >= max || visited[c] {
            } else if !nodes[c].summary_empty {
                proof {
                    lemma_count_true_set(visited@, c as int);
                    lemma_count_true_bounds(visited@.update(c as int, true));
                }
                visited.set(c, true);
                if !result[c] {
                    result.set(c, true);
                    count += 1;
                } else {
                    result.set(c, true);
                }
                queue.push(c);
            } else {
                proof {
                    lemma_count_true_set(visited@, c as int);
                    lemma_count_true_bounds(visited@.update(c as int, true));
                }
                visited.set(c, true);
            }
            k += 1;
        }
        proof {
            lemma_run_split(ns, max, st0, it, 1);
            assert(bfs_run(ns, max, before, 1) == bfs_run(ns, max, bfs_step(ns, max, before), 0));
            assert(bfs_step(ns, max, before) == visit_children(ns, max, st1, cs@, cs@.len() as int));
            it = it + 1;
        }
    }
    proof {
        let fin = bfs_run(ns, max, st0, it);
        lemma_run_split(ns, max, st0, it, 1);
        assert(bfs_run(ns, max, fin, 1) == bfs_run(ns, max, bfs_step(ns, max, fin), 0));
        assert(bfs_step(ns, max, fin).stopped);
        assert(bfs_run(ns, max, st0, it + 1).stopped);
        let total = (2 * ns.len() + roots@.len() + 1) as nat;
        lemma_count_true_bounds(base);
        assert(it + 1 <= total);
        lemma_run_split(ns, max, st0, it + 1, (total - it - 1) as nat);
        lemma_run_stopped(ns, max, bfs_run(ns, max, st0, it + 1), (total - it - 1) as nat);
        assert((it + 1 + (total - it - 1)) as nat == total);
    }
    result
}


// ---------------------------------------------------------------------
// The selection
// ---------------------------------------------------------------------

/// The roots that show something and the ways up from the active
/// derivations.
pub open spec fn base_set(nodes: Seq<SelectNode>, roots: Seq<usize>, active: Seq<usize>) -> Seq<bool> {
    Seq::new(nodes.len(), |x: int| base_selected(nodes, roots, active, x))
}

/// What is left of `max` once `used` rows are taken, and nothing below zero.
pub open spec fn budget_left(max: usize, used: nat) -> nat {
    if used <= max {
        (max - used) as nat
    } else {
        0
    }
}

/// The derivations shown in a window of `max` rows: none for no row; where
/// derivations are active, the roots that show something, every way up from
/// an active derivation, and the first of the other inputs of those ways and
/// of the roots, by rank, as far as rows are left; else the walk from the
/// roots, level by level.
pub open spec fn selected(nodes: Seq<SelectNode>, roots: Seq<usize>, active: Seq<usize>, max: usize) -> Seq<bool> {
    let base = base_set(nodes, roots, active);
    let c = candidates(nodes, roots, active, base);
    let budget = budget_left(max, count_true(base));
    if max == 0 {
        Seq::new(nodes.len(), |x: int| false)
    } else if any_active(nodes, active) {
        Seq::new(
            nodes.len(),
            |x: int|
                base[x] || exists|i: int|
                    0 <= i < c.len() && c[i] == x as usize && #[trigger] picked(nodes, c, budget, i),
        )
    } else {
        bfs_selected(nodes, roots, max)
    }
}

fn count_marked(v: &Vec<bool>) -> (r: usize)
    ensures
        r == count_true(v@),
{
    let mut cnt: usize = 0;
    let mut i: usize = 0;
    while i < v.len()
        invariant
            i <= v.len(),
            cnt == count_true(v@.take(i as int)),
            cnt <= i,
        decreases v.len() - i,
    {
        assert(v@.take(i + 1).drop_last() =~= v@.take(i as int));
        if v[i] {
            cnt += 1;
        }
        i += 1;
    }
    assert(v@.take(v@.len() as int) =~= v@);
    cnt
}

/// Chooses the derivations that the dependency tree shows in a window of
/// `max_height` rows; `r[x]` says whether derivation `x` is shown.
pub fn select_derivations_to_show(nodes: &Vec<SelectNode>, roots: &Vec<usize>, active: &Vec<usize>, max_height: usize) -> (r: Vec<bool>)
    requires
        graph_wf(nodes@, roots@, active@),
    ensures
        r@ == selected(nodes@, roots@, active@, max_height),
{
    let n = nodes.len();
    if max_height == 0 {
        return falses(n);
    }
    let (paths, desc, any) = active_paths(nodes, active);
    if !any {
        return bfs_exec(nodes, roots, max_height);
    }
    let ghost base = base_set(nodes@, roots@, active@);
    let mut result = falses(n);
    let mut j: usize = 0;
    while j < roots.len()
        invariant
            j <= roots.len(),
            n == nodes@.len(),
            graph_wf(nodes@, roots@, active@),
            result@.len() == n,
            forall|x: int| 0 <= x < n ==> #[trigger] result@[x] == (roots@.take(j as int).contains(x as usize) && shows(nodes@, x)),
        decreases roots.len() - j,
    {
        let r = roots[j];
        assert(roots@[j as int] < n);
        let ghost old_result = result@;
        if !nodes[r].summary_empty {
            result.set(r, true);
        }
        proof {
            let t0 = roots@.take(j as int);
            let t1 = roots@.take(j + 1);
            assert(t1 =~= t0.push(r));
            assert(t1[j as int] == r);
            assert forall|x: int| 0 <= x < n implies result@[x] == (t1.contains(x as usize) && shows(nodes@, x)) by {
                assert(old_result[x] == (t0.contains(x as usize) && shows(nodes@, x)));
                if x == r as int {
                    assert(t1.contains(r));
                } else {
                    assert(result@[x] == old_result[x]);
                    if t0.contains(x as usize) {
                        let k = choose|k: int| 0 <= k < t0.len() && #[trigger] t0[k] == x as usize;
                        assert(t1[k] == x as usize);
                    }
                    if t1.contains(x as usize) {
                        let k = choose|k: int| 0 <= k < t1.len() && #[trigger] t1[k] == x as usize;
                        assert(t0[k] == x as usize);
                    }
                }
            }
        }
        j += 1;
    }
    assert(roots@.take(roots@.len() as int) =~= roots@);
    let mut i: usize = 0;
    while i < n
        invariant
            i <= n,
            n == nodes@.len(),
            result@.len() == n,
            paths@.len() == n,
            any,
            any == any_active(nodes@, active@),
            forall|x: int| 0 <= x < n ==> paths@[x] == on_active_path(nodes@, active@, x),
            forall|x: int| 0 <= x < i ==> #[trigger] result@[x] == base[x],
            forall|x: int| i <= x < n ==> #[trigger] result@[x] == (roots@.contains(x as usize) && shows(nodes@, x)),
            base == base_set(nodes@, roots@, active@),
        decreases n - i,
    {
        if paths[i] {
            result.set(i, true);
        }
        i += 1;
    }
    assert(result@ =~= base);
    let used = count_marked(&result);
    let budget = max_height.saturating_sub(used);
    let c = candidates_exec(nodes, roots, &desc, &result, Ghost(active@));
    pick_candidates(nodes, &c, budget, &mut result);
    proof {
        let sel = selected(nodes@, roots@, active@, max_height);
        assert(budget as nat == budget_left(max_height, count_true(base)));
        assert(result@ =~= sel);
    }
    result
}


proof fn lemma_visit_keeps(nodes: Seq<SelectNode>, max: usize, st: BfsState, cs: Seq<usize>, k: int, x: int)
    requires
        0 <= x < st.result.len(),
        st.result[x],
        st.result.len() == st.visited.len(),
        0 <= k <= cs.len(),
        forall|i: int| 0 <= i < cs.len() ==> 0 <= #[trigger] cs[i] < st.result.len(),
    ensures
        visit_children(nodes, max, st, cs, k).result[x],
        visit_children(nodes, max, st, cs, k).result.len() == st.result.len(),
        visit_children(nodes, max, st, cs, k).visited.len() == st.visited.len(),
    decreases k,
{
    if k > 0 {
        lemma_visit_keeps(nodes, max, st, cs, k - 1, x);
    }
}

proof fn lemma_run_keeps(nodes: Seq<SelectNode>, max: usize, st: BfsState, fuel: nat, x: int)
    requires
        bfs_wf(nodes, st),
        0 <= x < nodes.len(),
        st.result[x],
        forall|i: int, j: int| 0 <= i < nodes.len() && 0 <= j < nodes[i].inputs@.len() ==> #[trigger] nodes[i].inputs@[j] < nodes.len(),
    ensures
        bfs_run(nodes, max, st, fuel).result[x],
    decreases fuel,
{
    if fuel > 0 {
        let next = bfs_step(nodes, max, st);
        if !st.stopped && !(st.head >= st.queue.len() || st.count >= max) {
            let p = st.queue[st.head] as int;
            let st1 = BfsState { head: st.head + 1, ..st };
            assert forall|i: int| 0 <= i < nodes[p].inputs@.len() implies 0 <= #[trigger] nodes[p].inputs@[i] < st.result.len() by {}
            lemma_visit_keeps(nodes, max, st1, nodes[p].inputs@, nodes[p].inputs@.len() as int, x);
            lemma_visit_children(nodes, max, st1, nodes[p].inputs@, nodes[p].inputs@.len() as int);
        }
        lemma_run_keeps(nodes, max, next, (fuel - 1) as nat, x);
    }
}

/// Whenever the window has a row, every root that shows something is
/// shown, and where derivations are active, so is every derivation on the
/// way up from an active one: the chain from a running build to its root is
/// never cut.
pub proof fn lemma_active_chains_shown(nodes: Seq<SelectNode>, roots: Seq<usize>, active: Seq<usize>, max: usize, x: int)
    requires
        graph_wf(nodes, roots, active),
        max > 0,
        0 <= x < nodes.len(),
        base_selected(nodes, roots, active, x),
    ensures
        selected(nodes, roots, active, max)[x],
{
    if !any_active(nodes, active) {
        let st0 = bfs_start(nodes, roots);
        lemma_count_true_bounds(st0.visited);
        lemma_run_keeps(nodes, max, st0, (2 * nodes.len() + roots.len() + 1) as nat, x);
    }
}


// ---------------------------------------------------------------------
// How many rows the selection takes
// ---------------------------------------------------------------------

/// The larger of two counts.
pub open spec fn larger(a: nat, b: nat) -> nat {
    if a >= b {
        a
    } else {
        b
    }
}

/// The places of the `true` entries.
pub open spec fn trues(s: Seq<bool>) -> Set<int> {
    Set::new(|i: int| 0 <= i < s.len() && s[i])
}

proof fn lemma_trues_len(s: Seq<bool>)
    ensures
        trues(s).finite(),
        trues(s).len() == count_true(s),
    decreases s.len(),
{
    if s.len() == 0 {
        assert(trues(s) =~= Set::empty());
    } else {
        let d = s.drop_last();
        lemma_trues_len(d);
        if s.last() {
            assert(trues(s) =~= trues(d).insert(s.len() - 1));
        } else {
            assert(trues(s) =~= trues(d));
        }
    }
}

proof fn lemma_visit_count(nodes: Seq<SelectNode>, max: usize, st: BfsState, cs: Seq<usize>, k: int, bound: nat)
    requires
        bfs_wf(nodes, st),
        0 <= k <= cs.len(),
        forall|i: int| 0 <= i < cs.len() ==> (#[trigger] cs[i]) < nodes.len(),
        st.count == count_true(st.result),
        st.count <= bound,
        max <= bound,
    ensures
        visit_children(nodes, max, st, cs, k).count == count_true(visit_children(nodes, max, st, cs, k).result),
        visit_children(nodes, max, st, cs, k).count <= bound,
    decreases k,
{
    if k > 0 {
        lemma_visit_count(nodes, max, st, cs, k - 1, bound);
        lemma_visit_children(nodes, max, st, cs, k - 1);
        let s = visit_children(nodes, max, st, cs, k - 1);
        let c = cs[k - 1] as int;
        if !(s.count >= max || s.visited[c]) && shows(nodes, c) {
            if s.result[c] {
                assert(s.result.update(c, true) =~= s.result);
            } else {
                lemma_count_true_set(s.result, c);
            }
        }
    }
}

proof fn lemma_run_count(nodes: Seq<SelectNode>, max: usize, st: BfsState, fuel: nat, bound: nat)
    requires
        bfs_wf(nodes, st),
        st.count == count_true(st.result),
        st.count <= bound,
        max <= bound,
        forall|i: int, j: int| 0 <= i < nodes.len() && 0 <= j < nodes[i].inputs@.len() ==> #[trigger] nodes[i].inputs@[j] < nodes.len(),
    ensures
        bfs_run(nodes, max, st, fuel).count == count_true(bfs_run(nodes, max, st, fuel).result),
        bfs_run(nodes, max, st, fuel).count <= bound,
        bfs_wf(nodes, bfs_run(nodes, max, st, fuel)),
    decreases fuel,
{
    if fuel > 0 {
        let next = bfs_step(nodes, max, st);
        if !st.stopped && !(st.head >= st.queue.len() || st.count >= max) {
            let p = st.queue[st.head] as int;
            let st1 = BfsState { head: st.head + 1, ..st };
            assert forall|i: int| 0 <= i < nodes[p].inputs@.len() implies (#[trigger] nodes[p].inputs@[i]) < nodes.len() by {}
            lemma_visit_count(nodes, max, st1, nodes[p].inputs@, nodes[p].inputs@.len() as int, bound);
            lemma_visit_children(nodes, max, st1, nodes[p].inputs@, nodes[p].inputs@.len() as int);
        }
        lemma_run_count(nodes, max, next, (fuel - 1) as nat, bound);
    }
}

proof fn lemma_count_before_order(nodes: Seq<SelectNode>, c: Seq<usize>, i: int, j: int, k: int)
    requires
        0 <= i < c.len(),
        0 <= j < c.len(),
        0 <= k <= c.len(),
        comes_before(nodes, c, j, i),
        shows(nodes, c[j] as int),
    ensures
        count_before(nodes, c, i, k) >= count_before(nodes, c, j, k) + if j < k {
            1int
        } else {
            0int
        },
    decreases k,
{
    if k > 0 {
        lemma_count_before_order(nodes, c, i, j, k - 1);
    }
}

proof fn lemma_picked_at_most_budget(nodes: Seq<SelectNode>, c: Seq<usize>, budget: nat)
    ensures
        Set::new(|i: int| 0 <= i < c.len() && picked(nodes, c, budget, i)).finite(),
        Set::new(|i: int| 0 <= i < c.len() && picked(nodes, c, budget, i)).len() <= budget,
{
    let p = Set::new(|i: int| 0 <= i < c.len() && picked(nodes, c, budget, i));
    let f = |i: int| count_before(nodes, c, i, c.len() as int) as int;
    vstd::set_lib::lemma_int_range(0, c.len() as int);
    vstd::set_lib::lemma_len_subset(p, vstd::set_lib::set_int_range(0, c.len() as int));
    assert forall|a: int, b: int| p.contains(a) && p.contains(b) && #[trigger] f(a) == #[trigger] f(b) implies a == b by {
        if a != b {
            if comes_before(nodes, c, b, a) {
                lemma_count_before_order(nodes, c, a, b, c.len() as int);
            } else {
                assert(comes_before(nodes, c, a, b));
                lemma_count_before_order(nodes, c, b, a, c.len() as int);
            }
        }
    }
    vstd::set_lib::lemma_map_size(p, p.map(f), f);
    vstd::set_lib::lemma_int_range(0, budget as int);
    vstd::set_lib::lemma_len_subset(p.map(f), vstd::set_lib::set_int_range(0, budget as int));
}

/// The selection takes no more rows than the window has, unless what is
/// always shown (the roots that show something and the ways up from the
/// active derivations) alone takes more.
pub proof fn lemma_selection_fits_window(nodes: Seq<SelectNode>, roots: Seq<usize>, active: Seq<usize>, max: usize)
    requires
        graph_wf(nodes, roots, active),
        nodes.len() <= usize::MAX,
    ensures
        selected(nodes, roots, active, max).len() == nodes.len(),
        count_true(selected(nodes, roots, active, max)) <= larger(max as nat, count_true(base_set(nodes, roots, active))),
{
    let base = base_set(nodes, roots, active);
    let sel = selected(nodes, roots, active, max);
    lemma_count_true_bounds(base);
    if max == 0 {
        lemma_trues_len(sel);
        assert(trues(sel) =~= Set::empty());
    } else if any_active(nodes, active) {
        let c = candidates(nodes, roots, active, base);
        let budget = budget_left(max, count_true(base));
        let p = Set::new(|i: int| 0 <= i < c.len() && picked(nodes, c, budget, i));
        let g = |i: int| c[i] as int;
        lemma_picked_at_most_budget(nodes, c, budget);
        vstd::set_lib::lemma_map_size_bound(p, p.map(g), g);
        lemma_trues_len(base);
        lemma_trues_len(sel);
        assert(trues(sel).subset_of(trues(base).union(p.map(g)))) by {
            assert forall|x: int| trues(sel).contains(x) implies trues(base).union(p.map(g)).contains(x) by {
                if !base[x] {
                    let i = choose|i: int| 0 <= i < c.len() && c[i] == x as usize && #[trigger] picked(nodes, c, budget, i);
                    assert(p.contains(i));
                    assert(g(i) == x);
                }
            }
        }
        vstd::set_lib::lemma_len_union(trues(base), p.map(g));
        vstd::set_lib::lemma_len_subset(trues(sel), trues(base).union(p.map(g)));
    } else {
        let st0 = bfs_start(nodes, roots);
        assert(st0.visited =~= base);
        lemma_count_true_bounds(st0.visited);
        lemma_run_count(nodes, max, st0, (2 * nodes.len() + roots.len() + 1) as nat, larger(max as nat, count_true(base)));
    }
}


/// Every derivation the walk has shown shows something.
pub open spec fn all_shown_show(nodes: Seq<SelectNode>, result: Seq<bool>) -> bool {
    forall|x: int| 0 <= x < result.len() && #[trigger] result[x] ==> shows(nodes, x)
}

proof fn lemma_visit_shows(nodes: Seq<SelectNode>, max: usize, st: BfsState, cs: Seq<usize>, k: int)
    requires
        bfs_wf(nodes, st),
        all_shown_show(nodes, st.result),
        0 <= k <= cs.len(),
        forall|i: int| 0 <= i < cs.len() ==> (#[trigger] cs[i]) < nodes.len(),
    ensures
        all_shown_show(nodes, visit_children(nodes, max, st, cs, k).result),
    decreases k,
{
    if k > 0 {
        lemma_visit_shows(nodes, max, st, cs, k - 1);
        lemma_visit_children(nodes, max, st, cs, k - 1);
        let s = visit_children(nodes, max, st, cs, k - 1);
        let c = cs[k - 1] as int;
        let t = visit_children(nodes, max, st, cs, k);
        assert forall|x: int| 0 <= x < t.result.len() && #[trigger] t.result[x] implies shows(nodes, x) by {
            if x != c {
                assert(t.result[x] == s.result[x]);
            }
        }
    }
}

proof fn lemma_run_shows(nodes: Seq<SelectNode>, max: usize, st: BfsState, fuel: nat)
    requires
        bfs_wf(nodes, st),
        all_shown_show(nodes, st.result),
        forall|i: int, j: int| 0 <= i < nodes.len() && 0 <= j < nodes[i].inputs@.len() ==> #[trigger] nodes[i].inputs@[j] < nodes.len(),
    ensures
        all_shown_show(nodes, bfs_run(nodes, max, st, fuel).result),
    decreases fuel,
{
    if fuel > 0 {
        let next = bfs_step(nodes, max, st);
        if !st.stopped && !(st.head >= st.queue.len() || st.count >= max) {
            let p = st.queue[st.head] as int;
            let st1 = BfsState { head: st.head + 1, ..st };
            assert forall|i: int| 0 <= i < nodes[p].inputs@.len() implies (#[trigger] nodes[p].inputs@[i]) < nodes.len() by {}
            lemma_visit_shows(nodes, max, st1, nodes[p].inputs@, nodes[p].inputs@.len() as int);
            lemma_visit_children(nodes, max, st1, nodes[p].inputs@, nodes[p].inputs@.len() as int);
        }
        lemma_run_shows(nodes, max, next, (fuel - 1) as nat);
    }
}

/// Nothing inert is shown: every derivation selected shows something in
/// its summary, or is itself an active one.
pub proof fn lemma_selection_shows_only_live(nodes: Seq<SelectNode>, roots: Seq<usize>, active: Seq<usize>, max: usize, x: int)
    requires
        graph_wf(nodes, roots, active),
        nodes.len() <= usize::MAX,
        0 <= x < nodes.len(),
        selected(nodes, roots, active, max)[x],
    ensures
        shows(nodes, x) || is_active(nodes, active, x),
{
    if max > 0 {
        if any_active(nodes, active) {
            let base = base_set(nodes, roots, active);
            let c = candidates(nodes, roots, active, base);
            let budget = budget_left(max, count_true(base));
            if !base[x] {
                let i = choose|i: int| 0 <= i < c.len() && c[i] == x as usize && #[trigger] picked(nodes, c, budget, i);
                assert(c[i] as int == x);
            }
            if base[x] {
                if !(roots.contains(x as usize) && shows(nodes, x)) {
                    let path = choose|path: Seq<int>| up_path(nodes, path) && is_active(nodes, active, path[0]) && #[trigger] path.last() == x;
                    if path.len() > 1 {
                        assert(shows(nodes, path[path.len() - 1]));
                    }
                }
            }
        } else {
            let st0 = bfs_start(nodes, roots);
            let fuel = (2 * nodes.len() + roots.len() + 1) as nat;
            lemma_count_true_bounds(st0.visited);
            assert(all_shown_show(nodes, st0.result));
            lemma_run_shows(nodes, max, st0, fuel);
            lemma_run_count(nodes, max, st0, fuel, larger(max as nat, count_true(st0.result)));
            assert(bfs_run(nodes, max, st0, fuel).result[x]);
            assert(shows(nodes, x));
        }
    }
}

} // verus!
