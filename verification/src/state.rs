//! The plain parts of the monitor's state: how far it has got, what a
//! derivation takes from its inputs, and what is known of an activity.
use vstd::prelude::*;
use crate::parser::json::{Activity, ActivityProgress};
use crate::parser::derivation::output_names_view;
use crate::text::chars_of;
use crate::types::{Derivation, DerivationId, OutputName, OutputNameModel, StorePath};

verus! {

/// How far the monitor has got with its input.
#[derive(Clone, Copy, Debug, PartialEq, Eq, Structural, PartialOrd, Ord, Hash)]
pub enum ProgressState {
    JustStarted,
    InputReceived,
    Finished,
}

/// The state after input has arrived: one that had just started has
/// received input; any other stays as it is.
pub open spec fn after_input(s: ProgressState) -> ProgressState {
    if s == ProgressState::JustStarted {
        ProgressState::InputReceived
    } else {
        s
    }
}

impl ProgressState {
    /// Records that input has arrived, and says whether the state changed.
    pub fn set_input_received(&mut self) -> (changed: bool)
        ensures
            *final(self) == after_input(*old(self)),
            changed == (*old(self) != *final(self)),
    {
        if *self == ProgressState::JustStarted {
            *self = ProgressState::InputReceived;
            true
        } else {
            false
        }
    }
}

/// Input changes the state at most once: a second arrival changes nothing,
/// and only a state that had just started changes at all.
pub proof fn lemma_input_received_once(s: ProgressState)
    ensures
        after_input(after_input(s)) == after_input(s),
        after_input(s) != s <==> s == ProgressState::JustStarted,
        after_input(s) != ProgressState::JustStarted,
{
}

/// A derivation that another takes as input, with the outputs it takes.
#[derive(Clone, Debug, PartialEq, Eq, PartialOrd, Ord)]
pub struct InputDerivation {
    pub derivation: DerivationId,
    pub outputs: Vec<OutputName>,
}

/// What is known of a running activity: what it is, its phase and its
/// progress.
#[derive(Clone, Debug, PartialEq)]
pub struct ActivityStatus {
    pub activity: Activity,
    pub phase: Option<String>,
    pub progress: Option<ActivityProgress>,
}


/// The place of an output name's kind in the order of output names.
pub open spec fn output_rank(o: OutputNameModel) -> int {
    match o {
        OutputNameModel::Out => 0,
        OutputNameModel::Doc => 1,
        OutputNameModel::Dev => 2,
        OutputNameModel::Bin => 3,
        OutputNameModel::Info => 4,
        OutputNameModel::Lib => 5,
        OutputNameModel::Man => 6,
        OutputNameModel::Dist => 7,
        OutputNameModel::Other(_) => 8,
    }
}

/// Whether text `a` comes before text `b`, character by character.
pub open spec fn text_before(a: Seq<char>, b: Seq<char>) -> bool
    decreases a.len(),
{
    if a.len() == 0 {
        b.len() > 0
    } else if b.len() == 0 {
        false
    } else if a[0] != b[0] {
        a[0] < b[0]
    } else {
        text_before(a.drop_first(), b.drop_first())
    }
}

/// The order of output names: the common names first, in the order `out`,
/// `doc`, `dev`, `bin`, `info`, `lib`, `man`, `dist`, then the others by
/// their text.
pub open spec fn output_before(a: OutputNameModel, b: OutputNameModel) -> bool {
    output_rank(a) < output_rank(b) || match (a, b) {
        (OutputNameModel::Other(x), OutputNameModel::Other(y)) => text_before(x, y),
        _ => false,
    }
}

/// Each name comes before every later one (so none is there twice).
pub open spec fn names_increasing(s: Seq<OutputNameModel>) -> bool {
    forall|i: int, j: int| 0 <= i < j < s.len() ==> output_before(#[trigger] s[i], #[trigger] s[j])
}

proof fn lemma_text_before_irreflexive(a: Seq<char>)
    ensures
        !text_before(a, a),
    decreases a.len(),
{
    if a.len() > 0 {
        lemma_text_before_irreflexive(a.drop_first());
    }
}

proof fn lemma_text_before_transitive(a: Seq<char>, b: Seq<char>, c: Seq<char>)
    requires
        text_before(a, b),
        text_before(b, c),
    ensures
        text_before(a, c),
    decreases a.len(),
{
    if a.len() > 0 && b.len() > 0 && c.len() > 0 && a[0] == b[0] && b[0] == c[0] {
        lemma_text_before_transitive(a.drop_first(), b.drop_first(), c.drop_first());
    }
}

proof fn lemma_text_before_total(a: Seq<char>, b: Seq<char>)
    requires
        a != b,
    ensures
        text_before(a, b) || text_before(b, a),
    decreases a.len(),
{
    if a.len() > 0 && b.len() > 0 && a[0] == b[0] {
        if a.drop_first() == b.drop_first() {
            assert(a =~= seq![a[0]] + a.drop_first());
            assert(b =~= seq![b[0]] + b.drop_first());
        }
        lemma_text_before_total(a.drop_first(), b.drop_first());
    }
    if a.len() == 0 && b.len() == 0 {
        assert(a =~= b);
    }
}

proof fn lemma_output_before_order(a: OutputNameModel, b: OutputNameModel, c: OutputNameModel)
    ensures
        !output_before(a, a),
        output_before(a, b) && output_before(b, c) ==> output_before(a, c),
        a != b ==> output_before(a, b) || output_before(b, a),
{
    match a {
        OutputNameModel::Other(x) => {
            lemma_text_before_irreflexive(x);
            match (b, c) {
                (OutputNameModel::Other(y), OutputNameModel::Other(z)) => {
                    if text_before(x, y) && text_before(y, z) {
                        lemma_text_before_transitive(x, y, z);
                    }
                },
                _ => {},
            }
            match b {
                OutputNameModel::Other(y) => {
                    if x != y {
                        lemma_text_before_total(x, y);
                    }
                },
                _ => {},
            }
        },
        _ => {},
    }
}

fn text_precedes(a: &Vec<char>, b: &Vec<char>) -> (r: bool)
    ensures
        r == text_before(a@, b@),
{
    let mut i: usize = 0;
    assert(a@.skip(0) =~= a@ && b@.skip(0) =~= b@);
    while i < a.len() && i < b.len() && a[i] == b[i]
        invariant
            i <= a.len(),
            i <= b.len(),
            text_before(a@, b@) == text_before(a@.skip(i as int), b@.skip(i as int)),
        decreases a.len() - i,
    {
        assert(a@.skip(i as int).drop_first() =~= a@.skip(i + 1));
        assert(b@.skip(i as int).drop_first() =~= b@.skip(i + 1));
        i += 1;
    }
    if i == a.len() {
        i < b.len()
    } else if i == b.len() {
        false
    } else {
        a[i] < b[i]
    }
}

fn rank_of(o: &OutputName) -> (r: u8)
    ensures
        r == output_rank(o@),
{
    match o {
        OutputName::Out => 0,
        OutputName::Doc => 1,
        OutputName::Dev => 2,
        OutputName::Bin => 3,
        OutputName::Info => 4,
        OutputName::Lib => 5,
        OutputName::Man => 6,
        OutputName::Dist => 7,
        OutputName::Other(_) => 8,
    }
}

/// Whether output name `a` comes before `b` (see [`output_before`]).
pub fn output_precedes(a: &OutputName, b: &OutputName) -> (r: bool)
    ensures
        r == output_before(a@, b@),
{
    let ra = rank_of(a);
    let rb = rank_of(b);
    if ra < rb {
        return true;
    }
    match (a, b) {
        (OutputName::Other(x), OutputName::Other(y)) => {
            let xs = chars_of(x.as_str());
            let ys = chars_of(y.as_str());
            text_precedes(&xs, &ys)
        },
        _ => false,
    }
}

/// The names of `v` in increasing order, each once.
pub fn sorted_outputs(v: &Vec<OutputName>) -> (r: Vec<OutputName>)
    ensures
        names_increasing(output_names_view(r@)),
        forall|o: OutputNameModel| output_names_view(r@).contains(o) <==> output_names_view(v@).contains(o),
{
    let mut r: Vec<OutputName> = Vec::new();
    let mut k: usize = 0;
    while k < v.len()
        invariant
            k <= v.len(),
            names_increasing(output_names_view(r@)),
            forall|o: OutputNameModel| output_names_view(r@).contains(o) <==> output_names_view(v@).take(k as int).contains(o),
        decreases v.len() - k,
    {
        let x = &v[k];
        let ghost rv = output_names_view(r@);
        let ghost xv = x@;
        let mut p: usize = 0;
        while p < r.len() && output_precedes(&r[p], x)
            invariant
                p <= r.len(),
                rv == output_names_view(r@),
                xv == x@,
                forall|j: int| 0 <= j < p ==> output_before(#[trigger] rv[j], xv),
            decreases r.len() - p,
        {
            assert(rv[p as int] == r@[p as int]@);
            p += 1;
        }
        let present = p < r.len() && r[p].same_as(x);
        proof {
            if p < r.len() {
                assert(rv[p as int] == r@[p as int]@);
            }
        }
        if !present {
            r.insert(p, x.copied());
            proof {
                let nv = output_names_view(r@);
                assert(nv =~= rv.insert(p as int, xv));
                if p < rv.len() {
                    assert(!output_before(rv[p as int], xv));
                    assert(rv[p as int] != xv);
                    lemma_output_before_order(rv[p as int], xv, xv);
                    assert(output_before(xv, rv[p as int]));
                }
                assert forall|i: int, j: int| 0 <= i < j < nv.len() implies output_before(#[trigger] nv[i], #[trigger] nv[j]) by {
                    if j < p {
                        assert(nv[i] == rv[i] && nv[j] == rv[j]);
                    } else if j == p {
                        assert(nv[i] == rv[i]);
                    } else if i == p {
                        assert(nv[j] == rv[j - 1]);
                        if j - 1 > p {
                            assert(output_before(rv[p as int], rv[j - 1]));
                            lemma_output_before_order(xv, rv[p as int], rv[j - 1]);
                        }
                    } else if i < p {
                        assert(nv[i] == rv[i] && nv[j] == rv[j - 1]);
                        assert(output_before(rv[i], xv));
                        lemma_output_before_order(rv[i], xv, rv[p as int]);
                        if j - 1 > p {
                            assert(output_before(rv[p as int], rv[j - 1]));
                            lemma_output_before_order(rv[i], rv[p as int], rv[j - 1]);
                        }
                    } else {
                        assert(nv[i] == rv[i - 1] && nv[j] == rv[j - 1]);
                    }
                }
            }
        }
        proof {
            let t = output_names_view(v@).take(k + 1);
            assert(t =~= output_names_view(v@).take(k as int).push(xv));
            assert forall|o: OutputNameModel| output_names_view(r@).contains(o) <==> t.contains(o) by {
                let nv = output_names_view(r@);
                if !present {
                    assert(nv =~= rv.insert(p as int, xv));
                    if nv.contains(o) {
                        let i = choose|i: int| 0 <= i < nv.len() && nv[i] == o;
                        if i < p {
                            assert(rv[i] == o);
                        } else if i > p {
                            assert(rv[i - 1] == o);
                        }
                    }
                    if rv.contains(o) {
                        let i = choose|i: int| 0 <= i < rv.len() && rv[i] == o;
                        if i < p {
                            assert(nv[i] == o);
                        } else {
                            assert(nv[i + 1] == o);
                        }
                    }
                    if o == xv {
                        assert(nv[p as int] == xv);
                    }
                } else {
                    assert(nv == rv);
                    assert(rv[p as int] == xv);
                }
                if t.contains(o) {
                    let i = choose|i: int| 0 <= i < t.len() && t[i] == o;
                    if i < k {
                        assert(output_names_view(v@).take(k as int)[i] == o);
                    }
                }
                if output_names_view(v@).take(k as int).contains(o) {
                    let i = choose|i: int| 0 <= i < k && output_names_view(v@).take(k as int)[i] == o;
                    assert(t[i] == o);
                }
                if o == xv {
                    assert(t[k as int] == xv);
                }
            }
        }
        k += 1;
    }
    assert(output_names_view(v@).take(v.len() as int) =~= output_names_view(v@));
    r
}

/// The inputs of a derivation from what its file lists: each dependency,
/// by its index in `dep_ids`, with the names of the outputs it takes in
/// increasing order, each once.
pub fn input_derivations(inputs: &Vec<(Derivation, Vec<OutputName>)>, dep_ids: &Vec<usize>) -> (r: Vec<InputDerivation>)
    requires
        inputs.len() == dep_ids.len(),
    ensures
        r.len() == inputs.len(),
        forall|i: int| 0 <= i < r.len() ==> (#[trigger] r@[i]).derivation == DerivationId(dep_ids@[i]),
        forall|i: int| 0 <= i < r.len() ==> names_increasing(output_names_view((#[trigger] r@[i]).outputs@)),
        forall|i: int, o: OutputNameModel| 0 <= i < r.len() ==> (#[trigger] output_names_view(r@[i].outputs@).contains(o)
            <==> output_names_view(inputs@[i].1@).contains(o)),
{
    let mut r: Vec<InputDerivation> = Vec::new();
    let mut i: usize = 0;
    while i < inputs.len()
        invariant
            i <= inputs.len(),
            inputs.len() == dep_ids.len(),
            r.len() == i,
            forall|j: int| 0 <= j < i ==> (#[trigger] r@[j]).derivation == DerivationId(dep_ids@[j]),
            forall|j: int| 0 <= j < i ==> names_increasing(output_names_view((#[trigger] r@[j]).outputs@)),
            forall|j: int, o: OutputNameModel| 0 <= j < i ==> (#[trigger] output_names_view(r@[j].outputs@).contains(o)
                <==> output_names_view(inputs@[j].1@).contains(o)),
        decreases inputs.len() - i,
    {
        let outputs = sorted_outputs(&inputs[i].1);
        r.push(InputDerivation { derivation: DerivationId(dep_ids[i]), outputs });
        i += 1;
    }
    r
}


/// The order of store paths (and of derivations, by their store paths): by
/// hash, then by name, each by its text.
pub open spec fn path_before(a: (Seq<char>, Seq<char>), b: (Seq<char>, Seq<char>)) -> bool {
    text_before(a.0, b.0) || (a.0 == b.0 && text_before(a.1, b.1))
}

proof fn lemma_path_before_order(a: (Seq<char>, Seq<char>), b: (Seq<char>, Seq<char>), c: (Seq<char>, Seq<char>))
    ensures
        !path_before(a, a),
        path_before(a, b) && path_before(b, c) ==> path_before(a, c),
        a != b ==> path_before(a, b) || path_before(b, a),
{
    lemma_text_before_irreflexive(a.0);
    lemma_text_before_irreflexive(a.1);
    lemma_text_before_irreflexive(b.0);
    if text_before(a.0, b.0) && text_before(b.0, c.0) {
        lemma_text_before_transitive(a.0, b.0, c.0);
    }
    if text_before(a.1, b.1) && text_before(b.1, c.1) {
        lemma_text_before_transitive(a.1, b.1, c.1);
    }
    if a.0 != b.0 {
        lemma_text_before_total(a.0, b.0);
    } else if a.1 != b.1 {
        lemma_text_before_total(a.1, b.1);
    }
}

fn path_precedes(a: &StorePath, b: &StorePath) -> (r: bool)
    ensures
        r == path_before(a@, b@),
{
    let ah = chars_of(a.hash.as_str());
    let bh = chars_of(b.hash.as_str());
    if text_precedes(&ah, &bh) {
        return true;
    }
    if !crate::text::chars_eq(&ah, &bh) {
        return false;
    }
    let an = chars_of(a.name.as_str());
    let bn = chars_of(b.name.as_str());
    text_precedes(&an, &bn)
}

pub open spec fn path_views(s: Seq<StorePath>) -> Seq<(Seq<char>, Seq<char>)> {
    s.map_values(|p: StorePath| p@)
}

/// Each store path comes before every later one.
pub open spec fn paths_increasing(s: Seq<(Seq<char>, Seq<char>)>) -> bool {
    forall|i: int, j: int| 0 <= i < j < s.len() ==> path_before(#[trigger] s[i], #[trigger] s[j])
}

/// The store paths of `v` in increasing order, each once (the order in
/// which a set of them is walked).
pub fn sorted_store_paths(v: &Vec<StorePath>) -> (r: Vec<StorePath>)
    ensures
        paths_increasing(path_views(r@)),
        forall|o: (Seq<char>, Seq<char>)| path_views(r@).contains(o) <==> path_views(v@).contains(o),
{
    let mut r: Vec<StorePath> = Vec::new();
    let mut k: usize = 0;
    while k < v.len()
        invariant
            k <= v.len(),
            paths_increasing(path_views(r@)),
            forall|o: (Seq<char>, Seq<char>)| path_views(r@).contains(o) <==> path_views(v@).take(k as int).contains(o),
        decreases v.len() - k,
    {
        let x = &v[k];
        let ghost rv = path_views(r@);
        let ghost xv = x@;
        assert(path_views(v@)[k as int] == xv);
        let mut p: usize = 0;
        while p < r.len() && path_precedes(&r[p], x)
            invariant
                p <= r.len(),
                rv == path_views(r@),
                xv == x@,
                forall|j: int| 0 <= j < p ==> path_before(#[trigger] rv[j], xv),
            decreases r.len() - p,
        {
            assert(rv[p as int] == r@[p as int]@);
            p += 1;
        }
        let present = p < r.len() && !path_precedes(x, &r[p]);
        proof {
            if p < r.len() {
                assert(rv[p as int] == r@[p as int]@);
                lemma_path_before_order(rv[p as int], xv, xv);
            }
        }
        if !present {
            r.insert(p, x.copied());
            proof {
                let nv = path_views(r@);
                assert(nv =~= rv.insert(p as int, xv));
                if p < rv.len() {
                    assert(path_before(xv, rv[p as int]));
                }
                assert forall|i: int, j: int| 0 <= i < j < nv.len() implies path_before(#[trigger] nv[i], #[trigger] nv[j]) by {
                    if j < p {
                        assert(nv[i] == rv[i] && nv[j] == rv[j]);
                    } else if j == p {
                        assert(nv[i] == rv[i]);
                    } else if i == p {
                        assert(nv[j] == rv[j - 1]);
                        if j - 1 > p {
                            assert(path_before(rv[p as int], rv[j - 1]));
                            lemma_path_before_order(xv, rv[p as int], rv[j - 1]);
                        }
                    } else if i < p {
                        assert(nv[i] == rv[i] && nv[j] == rv[j - 1]);
                        lemma_path_before_order(rv[i], xv, rv[p as int]);
                        if j - 1 > p {
                            assert(path_before(rv[p as int], rv[j - 1]));
                            lemma_path_before_order(rv[i], rv[p as int], rv[j - 1]);
                        }
                    } else {
                        assert(nv[i] == rv[i - 1] && nv[j] == rv[j - 1]);
                    }
                }
            }
        }
        proof {
            let t = path_views(v@).take(k + 1);
            assert(t =~= path_views(v@).take(k as int).push(xv));
            assert forall|o: (Seq<char>, Seq<char>)| path_views(r@).contains(o) <==> t.contains(o) by {
                let nv = path_views(r@);
                if !present {
                    assert(nv =~= rv.insert(p as int, xv));
                    if nv.contains(o) {
                        let i = choose|i: int| 0 <= i < nv.len() && nv[i] == o;
                        if i < p {
                            assert(rv[i] == o);
                        } else if i > p {
                            assert(rv[i - 1] == o);
                        }
                    }
                    if rv.contains(o) {
                        let i = choose|i: int| 0 <= i < rv.len() && rv[i] == o;
                        if i < p {
                            assert(nv[i] == o);
                        } else {
                            assert(nv[i + 1] == o);
                        }
                    }
                    if o == xv {
                        assert(nv[p as int] == xv);
                    }
                } else {
                    assert(nv == rv);
                    assert(rv[p as int] == xv);
                }
                if t.contains(o) {
                    let i = choose|i: int| 0 <= i < t.len() && t[i] == o;
                    if i < k {
                        assert(path_views(v@).take(k as int)[i] == o);
                    }
                }
                if path_views(v@).take(k as int).contains(o) {
                    let i = choose|i: int| 0 <= i < k && path_views(v@).take(k as int)[i] == o;
                    assert(t[i] == o);
                }
                if o == xv {
                    assert(t[k as int] == xv);
                }
            }
        }
        k += 1;
    }
    assert(path_views(v@).take(v.len() as int) =~= path_views(v@));
    r
}

pub open spec fn derivation_views(s: Seq<Derivation>) -> Seq<(Seq<char>, Seq<char>)> {
    s.map_values(|d: Derivation| d@)
}

/// The derivations of `v` in increasing order of their store paths, each
/// once (the order in which a set of them is walked).
pub fn sorted_derivations(v: &Vec<Derivation>) -> (r: Vec<Derivation>)
    ensures
        paths_increasing(derivation_views(r@)),
        forall|o: (Seq<char>, Seq<char>)| derivation_views(r@).contains(o) <==> derivation_views(v@).contains(o),
{
    let mut paths: Vec<StorePath> = Vec::new();
    let mut i: usize = 0;
    while i < v.len()
        invariant
            i <= v.len(),
            path_views(paths@) == derivation_views(v@).take(i as int),
        decreases v.len() - i,
    {
        let ghost before = path_views(paths@);
        let c = v[i].store_path.copied();
        paths.push(c);
        assert(path_views(paths@) =~= before.push(c@));
        assert(derivation_views(v@).take(i + 1) =~= derivation_views(v@).take(i as int).push(v@[i as int]@));
        i += 1;
    }
    assert(derivation_views(v@).take(v.len() as int) =~= derivation_views(v@));
    let sorted = sorted_store_paths(&paths);
    let mut r: Vec<Derivation> = Vec::new();
    let mut j: usize = 0;
    while j < sorted.len()
        invariant
            j <= sorted.len(),
            derivation_views(r@) == path_views(sorted@).take(j as int),
        decreases sorted.len() - j,
    {
        let ghost before = derivation_views(r@);
        let d = Derivation { store_path: sorted[j].copied() };
        r.push(d);
        assert(derivation_views(r@) =~= before.push(d@));
        assert(path_views(sorted@).take(j + 1) =~= path_views(sorted@).take(j as int).push(sorted@[j as int]@));
        j += 1;
    }
    assert(path_views(sorted@).take(sorted.len() as int) =~= path_views(sorted@));
    r
}

} // verus!
