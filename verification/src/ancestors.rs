//! The derivations above a changed one, whose dependency summaries change
//! with it.
use vstd::prelude::*;
use crate::render::selection::{
    count_true, falses, lemma_count_true_bounds, lemma_count_true_none, lemma_count_true_set,
};

verus! {

/// What the walk up reads of a derivation: the derivations that take it as
/// input, and whether it no longer matters to their summaries (built, or
/// unknown with every transfer of its output done).
#[derive(Clone, Debug)]
pub struct ParentNode {
    pub parents: Vec<usize>,
    pub irrelevant: bool,
}

/// A derivation the walk may pass: any, or only those that still matter.
pub open spec fn passable(nodes: Seq<ParentNode>, no_irrelevant: bool, x: int) -> bool {
    !(no_irrelevant && nodes[x].irrelevant)
}

/// `path` leads up from one of `start`: each next node takes the one before
/// as input, and the walk may pass every node on it.
pub open spec fn parent_path(nodes: Seq<ParentNode>, no_irrelevant: bool, start: Seq<usize>, path: Seq<int>) -> bool {
    &&& path.len() >= 1
    &&& forall|k: int| 0 <= k < path.len() ==> 0 <= #[trigger] path[k] < nodes.len()
    &&& forall|k: int| 0 <= k < path.len() ==> passable(nodes, no_irrelevant, #[trigger] path[k])
    &&& start.contains(path[0] as usize)
    &&& forall|k: int|
        1 <= k < path.len() ==> nodes[path[k - 1]].parents@.contains(#[trigger] path[k] as usize)
}

/// A derivation the walk from `start` reaches.
pub open spec fn reaches(nodes: Seq<ParentNode>, no_irrelevant: bool, start: Seq<usize>, x: int) -> bool {
    exists|path: Seq<int>| parent_path(nodes, no_irrelevant, start, path) && #[trigger] path.last() == x
}

proof fn lemma_path_visited(
    nodes: Seq<ParentNode>,
    no_irrelevant: bool,
    start: Seq<usize>,
    visited: Seq<bool>,
    path: Seq<int>,
    k: int,
)
    requires
        parent_path(nodes, no_irrelevant, start, path),
        visited.len() == nodes.len(),
        nodes.len() <= usize::MAX,
        forall|j: int|
            0 <= j < start.len() && start[j] < nodes.len() && passable(nodes, no_irrelevant, start[j] as int)
                ==> visited[#[trigger] start[j] as int],
        forall|x: int, j: int|
            0 <= x < nodes.len() && visited[x] && 0 <= j < nodes[x].parents@.len() && nodes[x].parents@[j] < nodes.len()
                && passable(nodes, no_irrelevant, nodes[x].parents@[j] as int) ==> visited[#[trigger] nodes[x].parents@[j] as int],
        0 <= k < path.len(),
    ensures
        visited[path[k]],
    decreases k,
{
    if k == 0 {
        let j = choose|j: int| 0 <= j < start.len() && start[j] == path[0] as usize;
        assert(start[j] as int == path[0]);
    } else {
        lemma_path_visited(nodes, no_irrelevant, start, visited, path, k - 1);
        let x = path[k - 1];
        assert(0 <= path[k] < nodes.len());
        assert(nodes[x].parents@.contains(path[k] as usize));
        let j = choose|j: int| 0 <= j < nodes[x].parents@.len() && nodes[x].parents@[j] == path[k] as usize;
        assert(nodes[x].parents@[j] as int == path[k]);
        assert(passable(nodes, no_irrelevant, path[k]));
    }
}

/// Walks up from `parents_to_scan`, passing only what `no_irrelevant`
/// allows, and returns which derivations it reached and in what order.
pub fn collect_parents_fast(nodes: &Vec<ParentNode>, no_irrelevant: bool, parents_to_scan: &Vec<usize>) -> (r: (Vec<bool>, Vec<usize>))
    ensures
        r.0@.len() == nodes@.len(),
        forall|x: int| 0 <= x < nodes@.len() ==> r.0@[x] == reaches(nodes@, no_irrelevant, parents_to_scan@, x),
        r.1@.no_duplicates(),
        forall|k: int| 0 <= k < r.1@.len() ==> (#[trigger] r.1@[k]) < nodes@.len(),
        forall|x: int| 0 <= x < nodes@.len() ==> (r.1@.contains(x as usize) <==> r.0@[x]),
{
    let n = nodes.len();
    let ghost ns = nodes@;
    let ghost start = parents_to_scan@;
    let mut visited = falses(n);
    let mut collected: Vec<usize> = Vec::new();
    let mut queue: Vec<usize> = parents_to_scan.clone();
    proof {
        lemma_count_true_none(n as nat);
        assert forall|k: int| 0 <= k < queue@.len() && queue@[k] < n && passable(ns, no_irrelevant, queue@[k] as int)
            implies reaches(ns, no_irrelevant, start, #[trigger] queue@[k] as int) by {
            let path = seq![queue@[k] as int];
            assert(start[k] == queue@[k]);
            assert(path.last() == queue@[k] as int);
            assert(parent_path(ns, no_irrelevant, start, path));
        }
        assert forall|j: int| 0 <= j < start.len() && start[j] < n && passable(ns, no_irrelevant, start[j] as int)
            implies visited@[#[trigger] start[j] as int] || queue@.contains(start[j]) by {
            assert(queue@[j] == start[j]);
        }
    }
    while queue.len() > 0
        invariant
            n == ns.len(),
            ns == nodes@,
            start == parents_to_scan@,
            visited@.len() == n,
            count_true(visited@) <= n,
            forall|x: int| 0 <= x < n && #[trigger] visited@[x] ==> reaches(ns, no_irrelevant, start, x),
            forall|k: int|
                0 <= k < queue@.len() && queue@[k] < n && passable(ns, no_irrelevant, queue@[k] as int)
                    ==> reaches(ns, no_irrelevant, start, #[trigger] queue@[k] as int),
            forall|j: int|
                0 <= j < start.len() && start[j] < n && passable(ns, no_irrelevant, start[j] as int)
                    ==> visited@[#[trigger] start[j] as int] || queue@.contains(start[j]),
            forall|x: int, j: int|
                0 <= x < n && visited@[x] && 0 <= j < ns[x].parents@.len() && ns[x].parents@[j] < n
                    && passable(ns, no_irrelevant, ns[x].parents@[j] as int)
                    ==> visited@[#[trigger] ns[x].parents@[j] as int] || queue@.contains(ns[x].parents@[j]),
            collected@.no_duplicates(),
            forall|k: int| 0 <= k < collected@.len() ==> (#[trigger] collected@[k]) < n,
            forall|x: int| 0 <= x < n ==> (collected@.contains(x as usize) <==> #[trigger] visited@[x]),
        decreases n - count_true(visited@), queue@.len(),
    {
        let ghost before_pop = queue@;
        let current = queue.pop().unwrap();
        proof {
            assert(before_pop =~= queue@.push(current));
            assert(before_pop[before_pop.len() - 1] == current);
        }
        if current < n && !visited[current] {
            let node = &nodes[current];
            if !(node.irrelevant && no_irrelevant) {
                proof {
                    lemma_count_true_set(visited@, current as int);
                    lemma_count_true_bounds(visited@.update(current as int, true));
                    assert(!collected@.contains(current));
                    assert(reaches(ns, no_irrelevant, start, current as int)) by {
                        assert(before_pop[before_pop.len() - 1] == current);
                    }
                }
                let ghost old_visited = visited@;
                let ghost old_collected = collected@;
                visited.set(current, true);
                collected.push(current);
                proof {
                    assert forall|x: int| 0 <= x < n implies (collected@.contains(x as usize) <==> #[trigger] visited@[x]) by {
                        if x == current as int {
                            assert(collected@[old_collected.len() as int] == current);
                        } else {
                            if collected@.contains(x as usize) {
                                let k = choose|k: int| 0 <= k < collected@.len() && collected@[k] == x as usize;
                                assert(k < old_collected.len());
                                assert(old_collected[k] == x as usize);
                            }
                            if old_collected.contains(x as usize) {
                                let k = choose|k: int| 0 <= k < old_collected.len() && old_collected[k] == x as usize;
                                assert(collected@[k] == x as usize);
                            }
                        }
                    }
                    assert forall|a: int, b: int| 0 <= a < b < collected@.len() implies collected@[a] != collected@[b] by {
                        if b == old_collected.len() {
                            assert(old_collected.contains(collected@[a]));
                        }
                    }
                }
                let ghost queue_base = queue@;
                let parents = &node.parents;
                let mut j: usize = 0;
                while j < parents.len()
                    invariant
                        n == ns.len(),
                        ns == nodes@,
                        start == parents_to_scan@,
                        current < n,
                        parents@ == ns[current as int].parents@,
                        j <= parents.len(),
                        visited@.len() == n,
                        visited@[current as int],
                        reaches(ns, no_irrelevant, start, current as int),
                        queue@.len() >= queue_base.len(),
                        forall|k: int| 0 <= k < queue_base.len() ==> #[trigger] queue@[k] == queue_base[k],
                        forall|k: int|
                            0 <= k < queue@.len() && queue@[k] < n && passable(ns, no_irrelevant, queue@[k] as int)
                                ==> reaches(ns, no_irrelevant, start, #[trigger] queue@[k] as int),
                        forall|i: int|
                            0 <= i < j && parents@[i] < n && passable(ns, no_irrelevant, parents@[i] as int)
                                ==> visited@[#[trigger] parents@[i] as int] || queue@.contains(parents@[i]),
                    decreases parents.len() - j,
                {
                    let p = parents[j];
                    if p < n && !visited[p] {
                        let ghost before_push = queue@;
                        queue.push(p);
                        proof {
                            assert(queue@[before_push.len() as int] == p);
                            assert forall|k: int|
                                0 <= k < queue@.len() && queue@[k] < n && passable(ns, no_irrelevant, queue@[k] as int)
                                    implies reaches(ns, no_irrelevant, start, #[trigger] queue@[k] as int) by {
                                if k == before_push.len() {
                                    let path = choose|path: Seq<int>| parent_path(ns, no_irrelevant, start, path) && #[trigger] path.last() == current as int;
                                    let np = path.push(p as int);
                                    assert(np.last() == p as int);
                                    assert(ns[current as int].parents@[j as int] == p);
                                    assert(np[np.len() - 2] == current as int);
                                    assert forall|m: int| 1 <= m < np.len() implies ns[np[m - 1]].parents@.contains(#[trigger] np[m] as usize) by {
                                        if m < path.len() {
                                            assert(np[m] == path[m]);
                                            assert(np[m - 1] == path[m - 1]);
                                        }
                                    }
                                    assert(parent_path(ns, no_irrelevant, start, np));
                                } else {
                                    assert(queue@[k] == before_push[k]);
                                }
                            }
                            assert forall|i: int|
                                0 <= i < j + 1 && parents@[i] < n && passable(ns, no_irrelevant, parents@[i] as int)
                                    implies visited@[#[trigger] parents@[i] as int] || queue@.contains(parents@[i]) by {
                                if i < j && !visited@[parents@[i] as int] {
                                    let k = choose|k: int| 0 <= k < before_push.len() && before_push[k] == parents@[i];
                                    assert(queue@[k] == parents@[i]);
                                }
                                if i == j {
                                    assert(queue@[before_push.len() as int] == p);
                                }
                            }
                        }
                    }
                    j += 1;
                }
                proof {
                    assert forall|k: int|
                        0 <= k < queue_base.len() ==> #[trigger] queue@[k] == queue_base[k] by {}
                    assert forall|js: int|
                        0 <= js < start.len() && start[js] < n && passable(ns, no_irrelevant, start[js] as int)
                            implies visited@[#[trigger] start[js] as int] || queue@.contains(start[js]) by {
                        if !visited@[start[js] as int] {
                            assert(!old_visited[start[js] as int]);
                            assert(before_pop.contains(start[js]));
                            let k = choose|k: int| 0 <= k < before_pop.len() && before_pop[k] == start[js];
                            if k < queue_base.len() {
                                assert(queue@[k] == start[js]);
                            } else {
                                assert(start[js] == current);
                            }
                        }
                    }
                    assert forall|x: int, jj: int|
                        0 <= x < n && visited@[x] && 0 <= jj < ns[x].parents@.len() && ns[x].parents@[jj] < n
                            && passable(ns, no_irrelevant, ns[x].parents@[jj] as int)
                            implies visited@[#[trigger] ns[x].parents@[jj] as int] || queue@.contains(ns[x].parents@[jj]) by {
                        if x != current as int && !visited@[ns[x].parents@[jj] as int] {
                            assert(old_visited[x]);
                            assert(before_pop.contains(ns[x].parents@[jj]));
                            let k = choose|k: int| 0 <= k < before_pop.len() && before_pop[k] == ns[x].parents@[jj];
                            if k < queue_base.len() {
                                assert(queue@[k] == ns[x].parents@[jj]);
                            } else {
                                assert(ns[x].parents@[jj] == current);
                            }
                        }
                    }
                }
            } else {
                proof {
                    assert forall|js: int|
                        0 <= js < start.len() && start[js] < n && passable(ns, no_irrelevant, start[js] as int)
                            implies visited@[#[trigger] start[js] as int] || queue@.contains(start[js]) by {
                        if !visited@[start[js] as int] {
                            let k = choose|k: int| 0 <= k < before_pop.len() && before_pop[k] == start[js];
                            if k < queue@.len() {
                                assert(queue@[k] == start[js]);
                            }
                        }
                    }
                    assert forall|x: int, jj: int|
                        0 <= x < n && visited@[x] && 0 <= jj < ns[x].parents@.len() && ns[x].parents@[jj] < n
                            && passable(ns, no_irrelevant, ns[x].parents@[jj] as int)
                            implies visited@[#[trigger] ns[x].parents@[jj] as int] || queue@.contains(ns[x].parents@[jj]) by {
                        if !visited@[ns[x].parents@[jj] as int] {
                            let k = choose|k: int| 0 <= k < before_pop.len() && before_pop[k] == ns[x].parents@[jj];
                            if k < queue@.len() {
                                assert(queue@[k] == ns[x].parents@[jj]);
                            }
                        }
                    }
                }
            }
        } else {
            proof {
                assert forall|js: int|
                    0 <= js < start.len() && start[js] < n && passable(ns, no_irrelevant, start[js] as int)
                        implies visited@[#[trigger] start[js] as int] || queue@.contains(start[js]) by {
                    if !visited@[start[js] as int] {
                        let k = choose|k: int| 0 <= k < before_pop.len() && before_pop[k] == start[js];
                        if k < queue@.len() {
                            assert(queue@[k] == start[js]);
                        }
                    }
                }
                assert forall|x: int, jj: int|
                    0 <= x < n && visited@[x] && 0 <= jj < ns[x].parents@.len() && ns[x].parents@[jj] < n
                        && passable(ns, no_irrelevant, ns[x].parents@[jj] as int)
                        implies visited@[#[trigger] ns[x].parents@[jj] as int] || queue@.contains(ns[x].parents@[jj]) by {
                    if !visited@[ns[x].parents@[jj] as int] {
                        let k = choose|k: int| 0 <= k < before_pop.len() && before_pop[k] == ns[x].parents@[jj];
                        if k < queue@.len() {
                            assert(queue@[k] == ns[x].parents@[jj]);
                        }
                    }
                }
            }
        }
    }
    proof {
        assert forall|x: int| 0 <= x < n implies visited@[x] == reaches(ns, no_irrelevant, start, x) by {
            if reaches(ns, no_irrelevant, start, x) {
                let path = choose|path: Seq<int>| parent_path(ns, no_irrelevant, start, path) && #[trigger] path.last() == x;
                lemma_path_visited(ns, no_irrelevant, start, visited@, path, path.len() - 1);
            }
        }
    }
    (visited, collected)
}


/// Which summaries change when derivations `direct` change: those to update,
/// those to clear, and all those touched.
pub struct ParentUpdates {
    pub update: Vec<usize>,
    pub clear: Vec<usize>,
    pub touched: Vec<usize>,
}

/// The summaries to update: those of the derivations above `direct` that
/// the walk reaches through derivations that still matter, and, where
/// `force_direct` holds, those of `direct` themselves.
pub open spec fn to_update(nodes: Seq<ParentNode>, force_direct: bool, direct: Seq<usize>, x: int) -> bool {
    reaches(nodes, true, direct, x) || (force_direct && direct.contains(x as usize))
}

/// Exactly the derivations `pred` holds of, each once.
pub open spec fn lists_exactly(v: Seq<usize>, n: nat, pred: spec_fn(int) -> bool) -> bool {
    &&& v.no_duplicates()
    &&& forall|k: int| 0 <= k < v.len() ==> (#[trigger] v[k]) < n
    &&& forall|x: int|
        #![trigger v.contains(x as usize)]
        #![trigger pred(x)]
        0 <= x < n ==> (v.contains(x as usize) <==> pred(x))
}

/// The entries of `s` that `marks` leaves unmarked, in order.
pub open spec fn unmarked(s: Seq<usize>, marks: Seq<bool>) -> Seq<usize>
    decreases s.len(),
{
    if s.len() == 0 {
        Seq::empty()
    } else {
        let rest = unmarked(s.drop_last(), marks);
        if marks[s.last() as int] {
            rest
        } else {
            rest.push(s.last())
        }
    }
}

proof fn lemma_unmarked(s: Seq<usize>, marks: Seq<bool>)
    requires
        s.no_duplicates(),
        forall|i: int| 0 <= i < s.len() ==> (#[trigger] s[i]) < marks.len(),
    ensures
        unmarked(s, marks).no_duplicates(),
        forall|i: int| 0 <= i < unmarked(s, marks).len() ==> (#[trigger] unmarked(s, marks)[i]) < marks.len(),
        forall|x: usize| unmarked(s, marks).contains(x) <==> (s.contains(x) && !marks[x as int]),
    decreases s.len(),
{
    if s.len() > 0 {
        let d = s.drop_last();
        assert forall|i: int, j: int| 0 <= i < j < d.len() implies d[i] != d[j] by {
            assert(s[i] != s[j]);
        }
        lemma_unmarked(d, marks);
        let rest = unmarked(d, marks);
        let y = s.last();
        assert forall|x: usize| s.contains(x) <==> (d.contains(x) || x == y) by {
            if s.contains(x) {
                let i = choose|i: int| 0 <= i < s.len() && s[i] == x;
                if i < d.len() {
                    assert(d[i] == x);
                }
            }
            if d.contains(x) {
                let i = choose|i: int| 0 <= i < d.len() && d[i] == x;
                assert(s[i] == x);
            }
            if x == y {
                assert(s[s.len() - 1] == x);
            }
        }
        assert(!d.contains(y)) by {
            if d.contains(y) {
                let i = choose|i: int| 0 <= i < d.len() && d[i] == y;
                assert(s[i] == s[s.len() - 1]);
            }
        }
        if !marks[y as int] {
            let r = rest.push(y);
            assert forall|x: usize| r.contains(x) <==> (rest.contains(x) || x == y) by {
                if r.contains(x) {
                    let i = choose|i: int| 0 <= i < r.len() && r[i] == x;
                    if i < rest.len() {
                        assert(rest[i] == x);
                    }
                }
                if rest.contains(x) {
                    let i = choose|i: int| 0 <= i < rest.len() && rest[i] == x;
                    assert(r[i] == x);
                }
                if x == y {
                    assert(r[r.len() - 1] == x);
                }
            }
            assert forall|i: int, j: int| 0 <= i < j < r.len() implies r[i] != r[j] by {
                if j == rest.len() {
                    assert(rest.contains(r[i]));
                }
            }
        }
    }
}

/// Decides, for a change of the derivations `direct_parents`, which
/// dependency summaries above them are updated, which are cleared (those
/// reached only through derivations that no longer matter) and which are
/// touched.
pub fn update_parents(nodes: &Vec<ParentNode>, force_direct: bool, direct_parents: &Vec<usize>) -> (r: ParentUpdates)
    ensures
        lists_exactly(r.update@, nodes@.len(), |x: int| to_update(nodes@, force_direct, direct_parents@, x)),
        lists_exactly(
            r.clear@,
            nodes@.len(),
            |x: int| reaches(nodes@, false, direct_parents@, x) && !to_update(nodes@, force_direct, direct_parents@, x),
        ),
        lists_exactly(r.touched@, nodes@.len(), |x: int| reaches(nodes@, false, direct_parents@, x)),
{
    let n = nodes.len();
    let ghost ns = nodes@;
    let ghost direct = direct_parents@;
    let (mut rel_visited, mut rel_parents) = collect_parents_fast(nodes, true, direct_parents);
    if force_direct {
        let mut j: usize = 0;
        while j < direct_parents.len()
            invariant
                n == ns.len(),
                ns == nodes@,
                direct == direct_parents@,
                force_direct,
                j <= direct_parents.len(),
                rel_visited@.len() == n,
                forall|x: int| 0 <= x < n ==> #[trigger] rel_visited@[x] == (reaches(ns, true, direct, x) || direct.take(j as int).contains(x as usize)),
                rel_parents@.no_duplicates(),
                forall|k: int| 0 <= k < rel_parents@.len() ==> (#[trigger] rel_parents@[k]) < n,
                forall|x: int| 0 <= x < n ==> (rel_parents@.contains(x as usize) <==> rel_visited@[x]),
            decreases direct_parents.len() - j,
        {
            let dp = direct_parents[j];
            let ghost old_visited = rel_visited@;
            let ghost old_parents = rel_parents@;
            if dp < n && !rel_visited[dp] {
                rel_visited.set(dp, true);
                rel_parents.push(dp);
                proof {
                    assert(!old_parents.contains(dp));
                    assert(rel_parents@[old_parents.len() as int] == dp);
                    assert forall|a: int, b: int| 0 <= a < b < rel_parents@.len() implies rel_parents@[a] != rel_parents@[b] by {
                        if b == old_parents.len() {
                            assert(old_parents.contains(rel_parents@[a]));
                        }
                    }
                    assert forall|x: int| 0 <= x < n implies (rel_parents@.contains(x as usize) <==> rel_visited@[x]) by {
                        if x != dp as int {
                            if rel_parents@.contains(x as usize) {
                                let k = choose|k: int| 0 <= k < rel_parents@.len() && rel_parents@[k] == x as usize;
                                assert(old_parents[k] == x as usize);
                            }
                            if old_parents.contains(x as usize) {
                                let k = choose|k: int| 0 <= k < old_parents.len() && old_parents[k] == x as usize;
                                assert(rel_parents@[k] == x as usize);
                            }
                        }
                    }
                }
            }
            proof {
                let t0 = direct.take(j as int);
                let t1 = direct.take(j + 1);
                assert(t1 =~= t0.push(dp));
                assert(t1[j as int] == dp);
                assert forall|x: int| 0 <= x < n implies #[trigger] rel_visited@[x] == (reaches(ns, true, direct, x) || t1.contains(x as usize)) by {
                    assert(old_visited[x] == (reaches(ns, true, direct, x) || t0.contains(x as usize)));
                    if x == dp as int {
                        assert(t1.contains(dp));
                    } else {
                        assert(rel_visited@[x] == old_visited[x]);
                        if t0.contains(x as usize) {
                            let k = choose|k: int| 0 <= k < t0.len() && #[trigger] t0[k] == x as usize;
                            assert(t1[k] == x as usize);
                        }
                        if t1.contains(x as usize) {
                            let k = choose|k: int| 0 <= k < t1.len() && #[trigger] t1[k] == x as usize;
                            assert(t0[k] == x as usize);
                        }
                    }
                }
            }
            j += 1;
        }
        assert(direct.take(direct.len() as int) =~= direct);
    }
    proof {
        assert forall|x: int| 0 <= x < n implies #[trigger] rel_visited@[x] == to_update(ns, force_direct, direct, x) by {
            if !force_direct {
                assert(rel_visited@[x] == reaches(ns, true, direct, x));
            }
        }
        assert forall|x: int| 0 <= x < n implies (rel_parents@.contains(x as usize) <==> #[trigger] to_update(ns, force_direct, direct, x)) by {
            assert(rel_visited@[x] == to_update(ns, force_direct, direct, x));
        }
    }
    let (all_visited, all_parents) = collect_parents_fast(nodes, false, direct_parents);
    proof {
        assert forall|x: int| 0 <= x < n implies (all_parents@.contains(x as usize) <==> #[trigger] reaches(ns, false, direct, x)) by {
            assert(all_visited@[x] == reaches(ns, false, direct, x));
        }
    }
    let mut clear: Vec<usize> = Vec::new();
    let mut k: usize = 0;
    while k < all_parents.len()
        invariant
            k <= all_parents.len(),
            rel_visited@.len() == n,
            forall|i: int| 0 <= i < all_parents@.len() ==> (#[trigger] all_parents@[i]) < n,
            clear@ == unmarked(all_parents@.take(k as int), rel_visited@),
        decreases all_parents.len() - k,
    {
        let p = all_parents[k];
        assert(all_parents@.take(k + 1).drop_last() =~= all_parents@.take(k as int));
        if !rel_visited[p] {
            clear.push(p);
        }
        k += 1;
    }
    proof {
        assert(all_parents@.take(all_parents@.len() as int) =~= all_parents@);
        lemma_unmarked(all_parents@, rel_visited@);
        assert forall|x: int| 0 <= x < n implies (clear@.contains(x as usize) <==> (reaches(ns, false, direct, x) && !to_update(ns, force_direct, direct, x))) by {
            assert(rel_visited@[x] == to_update(ns, force_direct, direct, x));
            assert(all_parents@.contains(x as usize) <==> reaches(ns, false, direct, x));
        }
    }
    ParentUpdates { update: rel_parents, clear, touched: all_parents }
}


/// Every summary that a change reaches is either updated or cleared, never
/// both: the derivations updated are among those touched, and the touched
/// ones not updated are exactly those cleared.
pub proof fn lemma_updates_and_clears_partition_touched(
    nodes: Seq<ParentNode>,
    force_direct: bool,
    direct: Seq<usize>,
    x: int,
)
    requires
        0 <= x < nodes.len(),
        nodes.len() <= usize::MAX,
    ensures
        to_update(nodes, force_direct, direct, x) ==> reaches(nodes, false, direct, x),
        reaches(nodes, false, direct, x) <==> (to_update(nodes, force_direct, direct, x) || (reaches(
            nodes,
            false,
            direct,
            x,
        ) && !to_update(nodes, force_direct, direct, x))),
{
    if reaches(nodes, true, direct, x) {
        let path = choose|path: Seq<int>| parent_path(nodes, true, direct, path) && #[trigger] path.last() == x;
        assert forall|k: int| 0 <= k < path.len() implies passable(nodes, false, #[trigger] path[k]) by {}
        assert(parent_path(nodes, false, direct, path));
    } else if force_direct && direct.contains(x as usize) {
        let path = seq![x];
        assert(path.last() == x);
        assert(path[0] as usize == x as usize);
        assert(parent_path(nodes, false, direct, path));
    }
}

} // verus!
