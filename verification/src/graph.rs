//! The dependency graph of the derivations seen so far: which derivations
//! take a derivation as input, which derivation produces a store path, which
//! derivations take a store path as a source, and the derivations that no
//! other takes as input (the roots of the shown forest).
use vstd::prelude::*;

verus! {

/// The graph, by the indices of derivations and store paths.
pub struct DrvGraph {
    /// For each derivation, the derivations that take it as input.
    pub parents: Vec<Vec<usize>>,
    /// For each store path, the derivation that produces it, if known.
    pub producer: Vec<Option<usize>>,
    /// For each store path, the derivations that take it as a source.
    pub input_for: Vec<Vec<usize>>,
    /// The derivations shown at the top of the forest.
    pub roots: Vec<usize>,
}

/// The graph as plain sequences.
pub struct GraphModel {
    pub parents: Seq<Seq<usize>>,
    pub producer: Seq<Option<usize>>,
    pub input_for: Seq<Seq<usize>>,
    pub roots: Seq<usize>,
}

pub open spec fn id_lists(v: Seq<Vec<usize>>) -> Seq<Seq<usize>> {
    v.map_values(|l: Vec<usize>| l@)
}

impl View for DrvGraph {
    type V = GraphModel;

    open spec fn view(&self) -> GraphModel {
        GraphModel {
            parents: id_lists(self.parents@),
            producer: self.producer@,
            input_for: id_lists(self.input_for@),
            roots: self.roots@,
        }
    }
}

/// A list of ids below `n`, each once.
pub open spec fn id_set_below(s: Seq<usize>, n: int) -> bool {
    &&& s.no_duplicates()
    &&& forall|j: int| 0 <= j < s.len() ==> #[trigger] s[j] < n
}

/// Every id names a derivation or store path of the graph, and no list
/// names one twice.
pub open spec fn graph_wf(g: GraphModel) -> bool {
    let n = g.parents.len() as int;
    &&& forall|i: int| 0 <= i < n ==> id_set_below(#[trigger] g.parents[i], n)
    &&& g.input_for.len() == g.producer.len()
    &&& forall|p: int| 0 <= p < g.producer.len() ==> (#[trigger] g.producer[p] matches Some(d) ==> d < n)
    &&& forall|p: int| 0 <= p < g.input_for.len() ==> id_set_below(#[trigger] g.input_for[p], n)
    &&& id_set_below(g.roots, n)
}

/// `s` with `x` added unless it is there already.
pub open spec fn with_member(s: Seq<usize>, x: usize) -> Seq<usize> {
    if s.contains(x) {
        s
    } else {
        s.push(x)
    }
}

/// Whether `i` is the first place of `x` in `r`.
pub open spec fn first_place(r: Seq<usize>, x: usize, i: int) -> bool {
    0 <= i < r.len() && r[i] == x && forall|j: int| 0 <= j < i ==> r[j] != x
}

/// `r` without `x`: its first place takes the last element
/// (`Vec::swap_remove`).
pub open spec fn without_root(r: Seq<usize>, x: usize) -> Seq<usize> {
    if r.contains(x) {
        let i = choose|i: int| first_place(r, x, i);
        r.update(i, r.last()).drop_last()
    } else {
        r
    }
}

/// The roots after the first `k` dependencies were given their new parent:
/// a dependency that had no parent before leaves the roots.
pub open spec fn roots_after_deps(
    roots: Seq<usize>,
    parents: Seq<Seq<usize>>,
    deps: Seq<usize>,
    k: int,
) -> Seq<usize>
    decreases k,
{
    if k <= 0 {
        roots
    } else {
        let r = roots_after_deps(roots, parents, deps, k - 1);
        let d = deps[k - 1];
        if parents[d as int].len() == 0 && !deps.take(k - 1).contains(d) {
            without_root(r, d)
        } else {
            r
        }
    }
}

/// The graph once derivation `drv` is known to produce `outs`, to take the
/// store paths `srcs` as sources and the derivations `deps` as inputs: `drv`
/// becomes the producer of each output, a user of each source and a parent
/// of each dependency; a dependency that gets its first parent leaves the
/// roots, and `drv` joins them where nothing takes it as input.
pub open spec fn recorded(g: GraphModel, drv: usize, outs: Seq<usize>, srcs: Seq<usize>, deps: Seq<usize>) -> GraphModel {
    let parents = Seq::new(
        g.parents.len(),
        |x: int| if deps.contains(x as usize) { with_member(g.parents[x], drv) } else { g.parents[x] },
    );
    let roots = roots_after_deps(g.roots, g.parents, deps, deps.len() as int);
    GraphModel {
        parents,
        producer: Seq::new(
            g.producer.len(),
            |x: int| if outs.contains(x as usize) { Some(drv) } else { g.producer[x] },
        ),
        input_for: Seq::new(
            g.input_for.len(),
            |x: int| if srcs.contains(x as usize) { with_member(g.input_for[x], drv) } else { g.input_for[x] },
        ),
        roots: if parents[drv as int].len() == 0 && !roots.contains(drv) {
            roots.push(drv)
        } else {
            roots
        },
    }
}

/// The first place of `x` in `v`, if any.
fn place_of(v: &Vec<usize>, x: usize) -> (r: Option<usize>)
    ensures
        match r {
            Some(i) => first_place(v@, x, i as int),
            None => !v@.contains(x),
        },
{
    let mut i: usize = 0;
    while i < v.len()
        invariant
            i <= v.len(),
            forall|j: int| 0 <= j < i ==> v@[j] != x,
        decreases v.len() - i,
    {
        if v[i] == x {
            return Some(i);
        }
        i += 1;
    }
    None
}

/// Adds `x` to `v` unless it is there already.
fn add_member(v: &mut Vec<usize>, x: usize)
    ensures
        final(v)@ == with_member(old(v)@, x),
{
    if place_of(v, x).is_none() {
        v.push(x);
    }
}

proof fn lemma_first_place_unique(r: Seq<usize>, x: usize, i: int)
    requires
        first_place(r, x, i),
    ensures
        r.contains(x),
        without_root(r, x) == r.update(i, r.last()).drop_last(),
{
    assert(r[i] == x);
    let c = choose|c: int| first_place(r, x, c);
    assert(first_place(r, x, c));
    if c < i {
        assert(r[c] != x);
    }
    if i < c {
        assert(r[i] != x);
    }
    assert(c == i);
}

/// Removes `x` from the roots as `Vec::swap_remove` does.
fn remove_root(roots: &mut Vec<usize>, x: usize)
    ensures
        final(roots)@ == without_root(old(roots)@, x),
{
    match place_of(roots, x) {
        Some(i) => {
            proof {
                lemma_first_place_unique(roots@, x, i as int);
            }
            roots.swap_remove(i);
        },
        None => {},
    }
}

proof fn lemma_with_member_set(s: Seq<usize>, x: usize, n: int)
    requires
        id_set_below(s, n),
        x < n,
    ensures
        id_set_below(with_member(s, x), n),
        with_member(s, x).contains(x),
        with_member(with_member(s, x), x) == with_member(s, x),
{
    if !s.contains(x) {
        let t = s.push(x);
        assert(t[s.len() as int] == x);
        assert forall|a: int, b: int| 0 <= a < b < t.len() implies t[a] != t[b] by {
            if b == s.len() {
                assert(s[a] == t[a]);
            }
        }
        assert(t.contains(x));
    }
}

proof fn lemma_without_root_set(r: Seq<usize>, x: usize, n: int)
    requires
        id_set_below(r, n),
    ensures
        id_set_below(without_root(r, x), n),
        !without_root(r, x).contains(x),
        forall|y: usize| y != x ==> (without_root(r, x).contains(y) <==> r.contains(y)),
{
    if r.contains(x) {
        let i = choose|i: int| first_place(r, x, i);
        let j = choose|j: int| 0 <= j < r.len() && r[j] == x;
        assert(first_place(r, x, i)) by {
            if !first_place(r, x, i) {
                assert(first_place(r, x, j)) by {
                    assert forall|k: int| 0 <= k < j implies r[k] != x by {
                        if r[k] == x {
                            assert(r.no_duplicates());
                        }
                    }
                }
            }
        }
        let t = r.update(i, r.last()).drop_last();
        let m = r.len() - 1;
        assert forall|a: int, b: int| 0 <= a < b < t.len() implies t[a] != t[b] by {
            if a == i {
                assert(t[a] == r[m]);
                assert(t[b] == r[b]);
            } else if b == i {
                assert(t[b] == r[m]);
                assert(t[a] == r[a]);
            } else {
                assert(t[a] == r[a] && t[b] == r[b]);
            }
        }
        assert forall|k: int| 0 <= k < t.len() implies #[trigger] t[k] < n by {
            if k == i {
                assert(t[k] == r[m]);
            } else {
                assert(t[k] == r[k]);
            }
        }
        assert(!t.contains(x)) by {
            if t.contains(x) {
                let k = choose|k: int| 0 <= k < t.len() && t[k] == x;
                if k == i {
                    assert(r[m] == x);
                    assert(m != i);
                } else {
                    assert(r[k] == x);
                }
            }
        }
        assert forall|y: usize| y != x implies (t.contains(y) <==> r.contains(y)) by {
            if r.contains(y) {
                let k = choose|k: int| 0 <= k < r.len() && r[k] == y;
                if k == i {
                } else if k == m {
                    assert(t[i] == y);
                } else {
                    assert(t[k] == y);
                }
            }
            if t.contains(y) {
                let k = choose|k: int| 0 <= k < t.len() && t[k] == y;
                if k == i {
                    assert(r[m] == y);
                } else {
                    assert(r[k] == y);
                }
            }
        }
    }
}

proof fn lemma_roots_after_deps_set(roots: Seq<usize>, parents: Seq<Seq<usize>>, deps: Seq<usize>, k: int, n: int)
    requires
        id_set_below(roots, n),
        0 <= k <= deps.len(),
    ensures
        id_set_below(roots_after_deps(roots, parents, deps, k), n),
    decreases k,
{
    if k > 0 {
        lemma_roots_after_deps_set(roots, parents, deps, k - 1, n);
        lemma_without_root_set(roots_after_deps(roots, parents, deps, k - 1), deps[k - 1], n);
    }
}

impl DrvGraph {
    pub open spec fn wf(&self) -> bool {
        graph_wf(self@)
    }

    /// A graph with no derivation and no store path.
    pub fn new() -> (g: Self)
        ensures
            g.wf(),
            g@.parents.len() == 0,
            g@.producer.len() == 0,
            g@.roots.len() == 0,
    {
        DrvGraph { parents: Vec::new(), producer: Vec::new(), input_for: Vec::new(), roots: Vec::new() }
    }

    /// Adds a derivation that nothing takes as input yet, and gives its index.
    pub fn add_derivation(&mut self) -> (id: usize)
        requires
            old(self).wf(),
            old(self)@.parents.len() < usize::MAX,
        ensures
            final(self).wf(),
            id == old(self)@.parents.len(),
            final(self)@.parents == old(self)@.parents.push(Seq::empty()),
            final(self)@.producer == old(self)@.producer,
            final(self)@.input_for == old(self)@.input_for,
            final(self)@.roots == old(self)@.roots,
    {
        let id = self.parents.len();
        self.parents.push(Vec::new());
        proof {
            assert(id_lists(self.parents@) =~= id_lists(old(self).parents@).push(Seq::empty()));
            let g = self@;
            assert forall|i: int| 0 <= i < g.parents.len() implies id_set_below(
                #[trigger] g.parents[i],
                g.parents.len() as int,
            ) by {
                if i < id {
                    assert(g.parents[i] == old(self)@.parents[i]);
                    assert(id_set_below(old(self)@.parents[i], id as int));
                }
            }
            assert forall|p: int| 0 <= p < g.input_for.len() implies id_set_below(
                #[trigger] g.input_for[p],
                g.parents.len() as int,
            ) by {
                assert(id_set_below(old(self)@.input_for[p], id as int));
            }
        }
        id
    }

    /// Adds a store path that no derivation produces or uses yet, and gives
    /// its index.
    pub fn add_store_path(&mut self) -> (id: usize)
        requires
            old(self).wf(),
            old(self)@.producer.len() < usize::MAX,
        ensures
            final(self).wf(),
            id == old(self)@.producer.len(),
            final(self)@.parents == old(self)@.parents,
            final(self)@.producer == old(self)@.producer.push(None),
            final(self)@.input_for == old(self)@.input_for.push(Seq::empty()),
            final(self)@.roots == old(self)@.roots,
    {
        let id = self.producer.len();
        self.producer.push(None);
        self.input_for.push(Vec::new());
        proof {
            assert(id_lists(self.input_for@) =~= id_lists(old(self).input_for@).push(Seq::empty()));
            let g = self@;
            assert forall|p: int| 0 <= p < g.producer.len() implies (#[trigger] g.producer[p] matches Some(
                d,
            ) ==> d < g.parents.len()) by {
                if p < id {
                    assert(g.producer[p] == old(self)@.producer[p]);
                }
            }
            assert forall|p: int| 0 <= p < g.input_for.len() implies id_set_below(
                #[trigger] g.input_for[p],
                g.parents.len() as int,
            ) by {
                if p < id {
                    assert(g.input_for[p] == old(self)@.input_for[p]);
                }
            }
        }
        id
    }
}


pub(crate) proof fn lemma_take_next(s: Seq<usize>, k: int)
    requires
        0 <= k < s.len(),
    ensures
        forall|v: usize| #[trigger] s.take(k + 1).contains(v) <==> (s.take(k).contains(v) || v == s[k]),
{
    let t = s.take(k + 1);
    assert forall|v: usize| #[trigger] t.contains(v) <==> (s.take(k).contains(v) || v == s[k]) by {
        if v == s[k] {
            assert(t[k] == v);
        }
        if t.contains(v) {
            let j = choose|j: int| 0 <= j < t.len() && t[j] == v;
            if j < k {
                assert(s.take(k)[j] == t[j]);
            }
        }
        if s.take(k).contains(v) {
            let j = choose|j: int| 0 <= j < k && s.take(k)[j] == v;
            assert(t[j] == v);
        }
    }
}

/// Records what a derivation's file says of its place in the graph: `drv`
/// produces the store paths `output_ids`, takes the store paths `src_ids` as
/// sources and the derivations `dep_ids` as inputs. Each output gets `drv`
/// as its producer, each source and each dependency gets `drv` as a user; a
/// dependency that had no parent before leaves the roots, and `drv` joins
/// them where no derivation takes it as input.
pub fn record_derivation(
    graph: &mut DrvGraph,
    drv: usize,
    output_ids: &Vec<usize>,
    src_ids: &Vec<usize>,
    dep_ids: &Vec<usize>,
)
    requires
        old(graph).wf(),
        drv < old(graph)@.parents.len(),
        forall|i: int| 0 <= i < output_ids.len() ==> #[trigger] output_ids@[i] < old(graph)@.producer.len(),
        forall|i: int| 0 <= i < src_ids.len() ==> #[trigger] src_ids@[i] < old(graph)@.producer.len(),
        forall|i: int| 0 <= i < dep_ids.len() ==> #[trigger] dep_ids@[i] < old(graph)@.parents.len(),
    ensures
        final(graph).wf(),
        final(graph)@ == recorded(old(graph)@, drv, output_ids@, src_ids@, dep_ids@),
{
    let ghost g0 = graph@;
    let ghost n = g0.parents.len() as int;
    assert(g0.parents.len() == graph.parents.len() && g0.producer.len() == graph.producer.len());
    let mut k: usize = 0;
    while k < output_ids.len()
        invariant
            k <= output_ids.len(),
            drv < n,
            n == g0.parents.len(),
            n <= usize::MAX,
            g0.producer.len() <= usize::MAX,
            forall|i: int| 0 <= i < output_ids.len() ==> #[trigger] output_ids@[i] < g0.producer.len(),
            graph.producer@ == Seq::new(
                g0.producer.len(),
                |x: int| if output_ids@.take(k as int).contains(x as usize) { Some(drv) } else { g0.producer[x] },
            ),
            graph.parents@ == old(graph).parents@,
            graph.input_for@ == old(graph).input_for@,
            graph.roots@ == old(graph).roots@,
        decreases output_ids.len() - k,
    {
        let p = output_ids[k];
        graph.producer.set(p, Some(drv));
        proof {
            let t = output_ids@.take(k + 1);
            assert(t =~= output_ids@.take(k as int).push(p));
            lemma_take_next(output_ids@, k as int);
            assert forall|x: int| 0 <= x < g0.producer.len() implies graph.producer@[x] == (if t.contains(
                x as usize,
            ) {
                Some(drv)
            } else {
                g0.producer[x]
            }) by {
                assert(t.contains(x as usize) <==> (output_ids@.take(k as int).contains(x as usize) || x as usize == p));
                if x != p as int {
                    assert(x as usize != p);
                }
            }
            assert(graph.producer@ =~= Seq::new(
                g0.producer.len(),
                |x: int| if t.contains(x as usize) { Some(drv) } else { g0.producer[x] },
            ));
        }
        k += 1;
    }
    assert(output_ids@.take(output_ids.len() as int) =~= output_ids@);
    k = 0;
    while k < src_ids.len()
        invariant
            k <= src_ids.len(),
            drv < n,
            n == g0.parents.len(),
            n <= usize::MAX,
            g0.producer.len() <= usize::MAX,
            graph_wf(g0),
            g0.input_for.len() == old(graph).input_for@.len(),
            forall|i: int| 0 <= i < src_ids.len() ==> #[trigger] src_ids@[i] < g0.producer.len(),
            graph.input_for@.len() == g0.input_for.len(),
            id_lists(graph.input_for@) == Seq::new(
                g0.input_for.len(),
                |x: int| if src_ids@.take(k as int).contains(x as usize) { with_member(g0.input_for[x], drv) } else { g0.input_for[x] },
            ),
            graph.producer@ == Seq::new(
                g0.producer.len(),
                |x: int| if output_ids@.contains(x as usize) { Some(drv) } else { g0.producer[x] },
            ),
            graph.parents@ == old(graph).parents@,
            graph.roots@ == old(graph).roots@,
        decreases src_ids.len() - k,
    {
        let p = src_ids[k];
        let mut l = graph.input_for[p].clone();
        assert(l@ =~= g0.input_for[p as int] || l@ == with_member(g0.input_for[p as int], drv)) by {
            assert(l@ =~= id_lists(graph.input_for@)[p as int]);
        }
        proof {
            assert(id_set_below(g0.input_for[p as int], n));
            lemma_with_member_set(g0.input_for[p as int], drv, n);
        }
        add_member(&mut l, drv);
        let ghost before = id_lists(graph.input_for@);
        let ghost lv = l@;
        graph.input_for.set(p, l);
        proof {
            let t = src_ids@.take(k + 1);
            assert(t =~= src_ids@.take(k as int).push(p));
            lemma_take_next(src_ids@, k as int);
            assert forall|x: int| 0 <= x < g0.input_for.len() implies id_lists(graph.input_for@)[x] == (
            if t.contains(x as usize) {
                with_member(g0.input_for[x], drv)
            } else {
                g0.input_for[x]
            }) by {
                assert(t.contains(x as usize) <==> (src_ids@.take(k as int).contains(x as usize) || x as usize == p));
                if x != p as int {
                    assert(x as usize != p);
                    assert(id_lists(graph.input_for@)[x] == before[x]);
                } else {
                    assert(id_lists(graph.input_for@)[x] == lv);
                }
            }
            assert(id_lists(graph.input_for@) =~= Seq::new(
                g0.input_for.len(),
                |x: int| if t.contains(x as usize) { with_member(g0.input_for[x], drv) } else { g0.input_for[x] },
            ));
        }
        k += 1;
    }
    assert(src_ids@.take(src_ids.len() as int) =~= src_ids@);
    k = 0;
    while k < dep_ids.len()
        invariant
            k <= dep_ids.len(),
            drv < n,
            n <= usize::MAX,
            g0.producer.len() <= usize::MAX,
            graph_wf(g0),
            n == g0.parents.len(),
            forall|i: int| 0 <= i < dep_ids.len() ==> #[trigger] dep_ids@[i] < n,
            graph.parents@.len() == n,
            id_lists(graph.parents@) == Seq::new(
                g0.parents.len(),
                |x: int| if dep_ids@.take(k as int).contains(x as usize) { with_member(g0.parents[x], drv) } else { g0.parents[x] },
            ),
            graph.roots@ == roots_after_deps(g0.roots, g0.parents, dep_ids@, k as int),
            id_lists(graph.input_for@) == Seq::new(
                g0.input_for.len(),
                |x: int| if src_ids@.contains(x as usize) { with_member(g0.input_for[x], drv) } else { g0.input_for[x] },
            ),
            graph.producer@ == Seq::new(
                g0.producer.len(),
                |x: int| if output_ids@.contains(x as usize) { Some(drv) } else { g0.producer[x] },
            ),
        decreases dep_ids.len() - k,
    {
        let d = dep_ids[k];
        let mut l = graph.parents[d].clone();
        assert(l@ =~= id_lists(graph.parents@)[d as int]);
        let first = l.len() == 0;
        proof {
            assert(id_set_below(g0.parents[d as int], n));
            lemma_with_member_set(g0.parents[d as int], drv, n);
            if first {
                assert(!dep_ids@.take(k as int).contains(d)) by {
                    if dep_ids@.take(k as int).contains(d) {
                        assert(with_member(g0.parents[d as int], drv).contains(drv));
                    }
                }
                assert(g0.parents[d as int].len() == 0);
            } else {
                if !dep_ids@.take(k as int).contains(d) {
                    assert(g0.parents[d as int].len() != 0);
                }
            }
        }
        add_member(&mut l, drv);
        let ghost pbefore = id_lists(graph.parents@);
        let ghost lv = l@;
        graph.parents.set(d, l);
        if first {
            remove_root(&mut graph.roots, d);
        }
        proof {
            let t = dep_ids@.take(k + 1);
            assert(t =~= dep_ids@.take(k as int).push(d));
            assert(t[k as int] == d);
            lemma_take_next(dep_ids@, k as int);
            assert forall|x: int| 0 <= x < n implies id_lists(graph.parents@)[x] == (
            if t.contains(x as usize) {
                with_member(g0.parents[x], drv)
            } else {
                g0.parents[x]
            }) by {
                assert(t.contains(x as usize) <==> (dep_ids@.take(k as int).contains(x as usize) || x as usize == d));
                if x != d as int {
                    assert(x as usize != d);
                    assert(id_lists(graph.parents@)[x] == pbefore[x]);
                } else {
                    assert(id_lists(graph.parents@)[x] == lv);
                }
            }
            assert(id_lists(graph.parents@) =~= Seq::new(
                g0.parents.len(),
                |x: int| if t.contains(x as usize) { with_member(g0.parents[x], drv) } else { g0.parents[x] },
            ));
            assert(dep_ids@[k as int] == d);
        }
        k += 1;
    }
    assert(dep_ids@.take(dep_ids.len() as int) =~= dep_ids@);
    let ghost parents_now = id_lists(graph.parents@);
    assert(graph.parents@[drv as int]@ == parents_now[drv as int]);
    if graph.parents[drv].len() == 0 && place_of(&graph.roots, drv).is_none() {
        graph.roots.push(drv);
    }
    proof {
        let g = graph@;
        let r = roots_after_deps(g0.roots, g0.parents, dep_ids@, dep_ids.len() as int);
        lemma_roots_after_deps_set(g0.roots, g0.parents, dep_ids@, dep_ids.len() as int, n);
        if !r.contains(drv) {
            lemma_with_member_set(r, drv, n);
            assert(r.push(drv) == with_member(r, drv));
        }
        assert forall|i: int| 0 <= i < n implies id_set_below(#[trigger] g.parents[i], n) by {
            assert(id_set_below(g0.parents[i], n));
            if dep_ids@.contains(i as usize) {
                lemma_with_member_set(g0.parents[i], drv, n);
            }
        }
        assert forall|p: int| 0 <= p < g.input_for.len() implies id_set_below(#[trigger] g.input_for[p], n) by {
            assert(id_set_below(g0.input_for[p], n));
            if src_ids@.contains(p as usize) {
                lemma_with_member_set(g0.input_for[p], drv, n);
            }
        }
        assert forall|p: int| 0 <= p < g.producer.len() implies (#[trigger] g.producer[p] matches Some(d) ==> d < n) by {
            assert(g0.producer[p] matches Some(d) ==> d < n);
        }
        assert(g =~= recorded(g0, drv, output_ids@, src_ids@, dep_ids@));
    }
}


/// What recording a derivation links: `drv` produces each of its outputs,
/// is a user of each of its sources and a parent of each of its
/// dependencies; nothing else changes its producer, users or parents; a
/// dependency that had no parent is no root afterwards; and `drv` is a root
/// exactly where nothing takes it as input and it was a root already or is
/// new to the roots.
pub proof fn lemma_recorded_links(g: GraphModel, drv: usize, outs: Seq<usize>, srcs: Seq<usize>, deps: Seq<usize>)
    requires
        graph_wf(g),
        drv < g.parents.len(),
        forall|i: int| 0 <= i < outs.len() ==> #[trigger] outs[i] < g.producer.len(),
        forall|i: int| 0 <= i < srcs.len() ==> #[trigger] srcs[i] < g.producer.len(),
        forall|i: int| 0 <= i < deps.len() ==> #[trigger] deps[i] < g.parents.len(),
    ensures
        ({
            let r = recorded(g, drv, outs, srcs, deps);
            &&& forall|i: int| 0 <= i < outs.len() ==> r.producer[#[trigger] outs[i] as int] == Some(drv)
            &&& forall|i: int| 0 <= i < srcs.len() ==> r.input_for[#[trigger] srcs[i] as int].contains(drv)
            &&& forall|i: int| 0 <= i < deps.len() ==> r.parents[#[trigger] deps[i] as int].contains(drv)
            &&& forall|p: int| 0 <= p < g.producer.len() && !outs.contains(p as usize) ==> #[trigger] r.producer[p] == g.producer[p]
            &&& forall|x: int| 0 <= x < g.parents.len() && !deps.contains(x as usize) ==> #[trigger] r.parents[x] == g.parents[x]
            &&& forall|i: int| 0 <= i < deps.len() && g.parents[deps[i] as int].len() == 0 ==> !r.roots.contains(#[trigger] deps[i])
            &&& (r.parents[drv as int].len() == 0 ==> r.roots.contains(drv))
        }),
{
    let r = recorded(g, drv, outs, srcs, deps);
    let n = g.parents.len() as int;
    assert forall|i: int| 0 <= i < outs.len() implies r.producer[#[trigger] outs[i] as int] == Some(drv) by {
        assert(outs.contains(outs[i]));
    }
    assert forall|i: int| 0 <= i < srcs.len() implies r.input_for[#[trigger] srcs[i] as int].contains(drv) by {
        assert(srcs.contains(srcs[i]));
        let x = srcs[i] as int;
        assert(id_set_below(g.input_for[x], n));
        lemma_with_member_set(g.input_for[x], drv, n);
    }
    assert forall|i: int| 0 <= i < deps.len() implies r.parents[#[trigger] deps[i] as int].contains(drv) by {
        assert(deps.contains(deps[i]));
        let x = deps[i] as int;
        assert(id_set_below(g.parents[x], n));
        lemma_with_member_set(g.parents[x], drv, n);
    }
    assert forall|i: int| 0 <= i < deps.len() && g.parents[deps[i] as int].len() == 0 implies !r.roots.contains(#[trigger] deps[i]) by {
        lemma_roots_leave(g.roots, g.parents, deps, deps.len() as int, i, n);
        let rr = roots_after_deps(g.roots, g.parents, deps, deps.len() as int);
        if r.roots != rr {
            assert(r.roots == rr.push(drv));
            assert(r.parents[drv as int].len() == 0);
            if deps[i] == drv {
                assert(deps.contains(drv));
                assert(id_set_below(g.parents[drv as int], n));
                lemma_with_member_set(g.parents[drv as int], drv, n);
            }
            if r.roots.contains(deps[i]) {
                let k = choose|k: int| 0 <= k < r.roots.len() && r.roots[k] == deps[i];
                if k < rr.len() {
                    assert(rr[k] == deps[i]);
                }
            }
        }
    }
    if r.parents[drv as int].len() == 0 {
        let rr = roots_after_deps(g.roots, g.parents, deps, deps.len() as int);
        if !rr.contains(drv) {
            assert(r.roots[rr.len() as int] == drv);
        }
    }
}

/// Once a dependency with no parent has been given one, it is no root, and
/// no later dependency brings it back.
proof fn lemma_roots_leave(roots: Seq<usize>, parents: Seq<Seq<usize>>, deps: Seq<usize>, k: int, i: int, n: int)
    requires
        id_set_below(roots, n),
        0 <= i < k <= deps.len(),
        parents[deps[i] as int].len() == 0,
    ensures
        !roots_after_deps(roots, parents, deps, k).contains(deps[i]),
    decreases k,
{
    lemma_roots_after_deps_set(roots, parents, deps, k - 1, n);
    let prev = roots_after_deps(roots, parents, deps, k - 1);
    let d = deps[k - 1];
    if i < k - 1 {
        lemma_roots_leave(roots, parents, deps, k - 1, i, n);
        if parents[d as int].len() == 0 && !deps.take(k - 1).contains(d) {
            lemma_without_root_set(prev, d, n);
        }
    } else {
        if deps.take(k - 1).contains(d) {
            let j = choose|j: int| 0 <= j < k - 1 && #[trigger] deps.take(k - 1)[j] == d;
            assert(deps[j] == d);
            lemma_roots_leave(roots, parents, deps, j + 1, j, n);
            lemma_roots_stay_out(roots, parents, deps, j + 1, k - 1, d, n);
        } else {
            lemma_without_root_set(prev, d, n);
        }
    }
}

/// A root that is gone stays gone.
proof fn lemma_roots_stay_out(roots: Seq<usize>, parents: Seq<Seq<usize>>, deps: Seq<usize>, a: int, b: int, x: usize, n: int)
    requires
        id_set_below(roots, n),
        0 <= a <= b <= deps.len(),
        !roots_after_deps(roots, parents, deps, a).contains(x),
    ensures
        !roots_after_deps(roots, parents, deps, b).contains(x),
    decreases b - a,
{
    if a < b {
        lemma_roots_stay_out(roots, parents, deps, a, b - 1, x, n);
        lemma_roots_after_deps_set(roots, parents, deps, b - 1, n);
        let prev = roots_after_deps(roots, parents, deps, b - 1);
        lemma_without_root_set(prev, deps[b - 1], n);
    }
}

} // verus!
