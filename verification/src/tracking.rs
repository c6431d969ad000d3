//! The state of the whole build as the monitor follows it: the dependency
//! graph, the status of each derivation, the states of each store path, the
//! dependency summary of each derivation and of the whole build, and the
//! derivations whose summaries changed. Events that nix reports move it from
//! one state to the next.
use vstd::prelude::*;
use crate::ancestors::{reaches, to_update, update_parents, ParentNode};
use crate::build_state::{
    building_status, built_status, build_seconds, clear_derivation_from_summary,
    clear_path_states_from_summary, copy_states, failed_status, same_status, seconds_between,
    states_on_finish, states_on_start, states_taken_out, states_view, states_with_download_planned,
    states_with_transfer_finished, states_with_transfer_started, status_cleared, status_on_failure,
    status_on_finish, status_on_start, summary_after_path_states, summary_after_states,
    summary_after_status, summary_step, with_state, empty_summary, BuildStatus, BuildStatusModel, DependencySummary,
    StorePathState, StorePathStateModel, SummaryModel,
};
use crate::graph::{lemma_take_next, record_derivation, recorded, DrvGraph, GraphModel};
use crate::idmap::IdSet;
use crate::render::order::{is_order_of, sorted_stably, stable_order, SortKey};
use crate::types::{FailType, Host, HostModel};

verus! {

/// The state of the build: each vector is indexed by derivation, except
/// `path_states`, which is indexed by store path.
pub struct BuildState {
    pub graph: DrvGraph,
    pub statuses: Vec<BuildStatus>,
    pub summaries: Vec<DependencySummary>,
    /// The store path of each derivation's `out` output, where known.
    pub out_paths: Vec<Option<usize>>,
    pub path_states: Vec<Vec<StorePathState>>,
    pub full_summary: DependencySummary,
    /// The derivations whose summaries changed since the set was emptied.
    pub touched: IdSet,
}

pub struct BuildStateModel {
    pub graph: GraphModel,
    pub statuses: Seq<BuildStatusModel>,
    pub summaries: Seq<SummaryModel>,
    pub out_paths: Seq<Option<usize>>,
    pub path_states: Seq<Seq<StorePathStateModel>>,
    pub full_summary: SummaryModel,
    pub touched: Set<usize>,
}

impl View for BuildState {
    type V = BuildStateModel;

    open spec fn view(&self) -> BuildStateModel {
        BuildStateModel {
            graph: self.graph@,
            statuses: self.statuses@.map_values(|s: BuildStatus| s@),
            summaries: self.summaries@.map_values(|s: DependencySummary| s@),
            out_paths: self.out_paths@,
            path_states: self.path_states@.map_values(|v: Vec<StorePathState>| states_view(v@)),
            full_summary: self.full_summary@,
            touched: self.touched@,
        }
    }
}

/// Every transfer of derivation `x`'s `out` output is done (or it has none
/// known).
pub open spec fn transfers_done(m: BuildStateModel, x: int) -> bool {
    match m.out_paths[x] {
        None => true,
        Some(p) => forall|j: int|
            0 <= j < m.path_states[p as int].len() ==> (#[trigger] m.path_states[p as int][j] is Downloaded
                || m.path_states[p as int][j] is Uploaded),
    }
}

/// Derivation `x` no longer matters to the summaries above it: it is built,
/// or unknown with every transfer of its output done.
pub open spec fn no_longer_matters(m: BuildStateModel, x: int) -> bool {
    m.statuses[x] is Built || (m.statuses[x] is Unknown && transfers_done(m, x))
}

/// `nodes` is what the walk up reads of the state.
pub open spec fn nodes_match(m: BuildStateModel, nodes: Seq<ParentNode>) -> bool {
    &&& nodes.len() == m.statuses.len()
    &&& forall|x: int| 0 <= x < nodes.len() ==> #[trigger] nodes[x].parents@ == m.graph.parents[x]
    &&& forall|x: int| 0 <= x < nodes.len() ==> #[trigger] nodes[x].irrelevant == no_longer_matters(m, x)
}

/// The state once derivation `id` has the status `new`: the whole summary
/// moves it; the summaries above it that it still matters to move it, the
/// others it reaches forget it, and all it reaches are touched, with `id`.
pub open spec fn status_set(m: BuildStateModel, id: usize, new: BuildStatusModel) -> BuildStateModel {
    let old = m.statuses[id as int];
    let m1 = BuildStateModel { statuses: m.statuses.update(id as int, new), ..m };
    let nodes = choose|nodes: Seq<ParentNode>| nodes_match(m1, nodes);
    let direct = m.graph.parents[id as int];
    BuildStateModel {
        summaries: Seq::new(
            m.summaries.len(),
            |x: int|
                if to_update(nodes, false, direct, x) {
                    summary_step(m.summaries[x], old, new, id)
                } else if reaches(nodes, false, direct, x) {
                    status_cleared(m.summaries[x], old, id)
                } else {
                    m.summaries[x]
                },
        ),
        full_summary: summary_step(m.full_summary, old, new, id),
        touched: m.touched.union(
            Set::new(|x: usize| x < m.statuses.len() && reaches(nodes, false, direct, x as int)),
        ).insert(id),
        ..m1
    }
}

/// The state once derivation `id` has the status `new`, where that changes
/// it.
pub open spec fn status_changed(m: BuildStateModel, id: usize, new: BuildStatusModel) -> BuildStateModel {
    if m.statuses[id as int] == new {
        m
    } else {
        status_set(m, id, new)
    }
}

/// The derivations whose summaries a change of store path `p` reaches
/// first: those that take it as a source, and its producer.
pub open spec fn path_users(g: GraphModel, p: int) -> Seq<usize> {
    match g.producer[p] {
        Some(d) => g.input_for[p].push(d),
        None => g.input_for[p],
    }
}

/// The state once store path `p` has the states `news`: the whole summary
/// moves it; the summaries of its users and of all above them that still
/// matter move it, the others it reaches forget it, and all it reaches are
/// touched.
pub open spec fn states_set(m: BuildStateModel, p: usize, news: Seq<StorePathStateModel>) -> BuildStateModel {
    let olds = m.path_states[p as int];
    let nodes = choose|nodes: Seq<ParentNode>| nodes_match(m, nodes);
    let direct = path_users(m.graph, p as int);
    BuildStateModel {
        summaries: Seq::new(
            m.summaries.len(),
            |x: int|
                if to_update(nodes, true, direct, x) {
                    summary_after_states(m.summaries[x], olds, news, p)
                } else if reaches(nodes, false, direct, x) {
                    states_taken_out(m.summaries[x], olds, Seq::empty(), p, olds.len() as int)
                } else {
                    m.summaries[x]
                },
        ),
        full_summary: summary_after_states(m.full_summary, olds, news, p),
        touched: m.touched.union(
            Set::new(|x: usize| x < m.statuses.len() && reaches(nodes, false, direct, x as int)),
        ),
        path_states: m.path_states.update(p as int, news),
        ..m
    }
}

/// What nix reports that changes the state, by the indices of the
/// derivations and store paths it is about.
#[derive(Debug)]
pub enum BuildEvent {
    /// A derivation is in the build plan.
    PlanBuild(usize),
    /// A store path is in the download plan.
    PlanDownload(usize),
    /// A build starts on a host, with its expected duration.
    BuildStarted { drv: usize, host: Host, estimate: Option<i64>, activity_id: Option<u64> },
    /// A build failed.
    BuildFailed { drv: usize, fail_type: FailType },
    /// A build's output is there.
    BuildFinished(usize),
    /// A download from a host, or an upload to one, starts.
    TransferStarted { path: usize, download: bool, host: Host, activity_id: Option<u64> },
    /// A download from a host, or an upload to one, ends.
    TransferFinished { path: usize, download: bool, host: Host },
}

pub enum BuildEventModel {
    PlanBuild(usize),
    PlanDownload(usize),
    BuildStarted { drv: usize, host: HostModel, estimate: Option<i64>, activity_id: Option<u64> },
    BuildFailed { drv: usize, fail_type: FailType },
    BuildFinished(usize),
    TransferStarted { path: usize, download: bool, host: HostModel, activity_id: Option<u64> },
    TransferFinished { path: usize, download: bool, host: HostModel },
}

impl View for BuildEvent {
    type V = BuildEventModel;

    open spec fn view(&self) -> BuildEventModel {
        match self {
            BuildEvent::PlanBuild(d) => BuildEventModel::PlanBuild(*d),
            BuildEvent::PlanDownload(p) => BuildEventModel::PlanDownload(*p),
            BuildEvent::BuildStarted { drv, host, estimate, activity_id } => BuildEventModel::BuildStarted {
                drv: *drv,
                host: host@,
                estimate: *estimate,
                activity_id: *activity_id,
            },
            BuildEvent::BuildFailed { drv, fail_type } => BuildEventModel::BuildFailed { drv: *drv, fail_type: *fail_type },
            BuildEvent::BuildFinished(d) => BuildEventModel::BuildFinished(*d),
            BuildEvent::TransferStarted { path, download, host, activity_id } => BuildEventModel::TransferStarted {
                path: *path,
                download: *download,
                host: host@,
                activity_id: *activity_id,
            },
            BuildEvent::TransferFinished { path, download, host } => BuildEventModel::TransferFinished {
                path: *path,
                download: *download,
                host: host@,
            },
        }
    }
}

/// What a copy of a store path between two hosts is to the monitor: a
/// download from `from` where it goes to the local machine, else an upload
/// to `to` where it comes from the local machine, else neither.
pub open spec fn copy_kind(from: HostModel, to: HostModel) -> Option<(bool, HostModel)> {
    if to is Localhost {
        Some((true, from))
    } else if from is Localhost {
        Some((false, to))
    } else {
        None
    }
}

/// Whether a copy is a download (`true`) or an upload, with the other host
/// (see [`copy_kind`]).
pub fn copy_direction(from: &Host, to: &Host) -> (r: Option<(bool, Host)>)
    ensures
        match r {
            Some((d, h)) => copy_kind(from@, to@) == Some((d, h@)),
            None => copy_kind(from@, to@) is None,
        },
{
    match (from, to) {
        (_, Host::Localhost) => Some((true, from.copied())),
        (Host::Localhost, _) => Some((false, to.copied())),
        _ => None,
    }
}

/// The event names a derivation or store path of the state.
pub open spec fn event_in_range(m: BuildStateModel, e: BuildEventModel) -> bool {
    match e {
        BuildEventModel::PlanBuild(d) => d < m.statuses.len(),
        BuildEventModel::PlanDownload(p) => p < m.path_states.len(),
        BuildEventModel::BuildStarted { drv, .. } => drv < m.statuses.len(),
        BuildEventModel::BuildFailed { drv, .. } => drv < m.statuses.len(),
        BuildEventModel::BuildFinished(d) => d < m.statuses.len(),
        BuildEventModel::TransferStarted { path, .. } => path < m.path_states.len(),
        BuildEventModel::TransferFinished { path, .. } => path < m.path_states.len(),
    }
}

/// The state after an event at `now`: a planned build becomes planned; a
/// planned download joins the path's states; a build that starts, fails or
/// finishes takes the status that [`status_on_start`],
/// [`status_on_failure`] and [`status_on_finish`] give (a failure or finish
/// of a build that is not running changes nothing); a transfer that starts
/// or ends changes the path's states as [`states_on_start`] and
/// [`states_on_finish`] say.
pub open spec fn event_applied(m: BuildStateModel, e: BuildEventModel, now: u64) -> BuildStateModel {
    match e {
        BuildEventModel::PlanBuild(d) => status_changed(m, d, BuildStatusModel::Planned),
        BuildEventModel::PlanDownload(p) => states_set(
            m,
            p,
            with_state(m.path_states[p as int], StorePathStateModel::DownloadPlanned),
        ),
        BuildEventModel::BuildStarted { drv, host, estimate, activity_id } => status_changed(
            m,
            drv,
            status_on_start(m.statuses[drv as int], host, now, estimate, activity_id),
        ),
        BuildEventModel::BuildFailed { drv, fail_type } => match status_on_failure(m.statuses[drv as int], fail_type, now) {
            Some(st) => status_changed(m, drv, st),
            None => m,
        },
        BuildEventModel::BuildFinished(d) => match status_on_finish(m.statuses[d as int], now) {
            Some(st) => status_changed(m, d, st),
            None => m,
        },
        BuildEventModel::TransferStarted { path, download, host, activity_id } => states_set(
            m,
            path,
            states_on_start(m.path_states[path as int], download, host, now, activity_id),
        ),
        BuildEventModel::TransferFinished { path, download, host } => states_set(
            m,
            path,
            states_on_finish(m.path_states[path as int], download, host, now),
        ),
    }
}

/// For a running build that finishes at `now`, the whole seconds it took.
pub open spec fn finished_seconds(m: BuildStateModel, e: BuildEventModel, now: u64) -> Option<int> {
    match e {
        BuildEventModel::BuildFinished(d) => match m.statuses[d as int] {
            BuildStatusModel::Building(b) => Some(seconds_between(b.start, now)),
            _ => None,
        },
        _ => None,
    }
}

proof fn lemma_reaches_by_views(a: Seq<ParentNode>, b: Seq<ParentNode>, no_irrelevant: bool, start: Seq<usize>, x: int)
    requires
        a.len() == b.len(),
        forall|k: int| 0 <= k < a.len() ==> #[trigger] a[k].parents@ == b[k].parents@,
        forall|k: int| 0 <= k < a.len() ==> #[trigger] a[k].irrelevant == b[k].irrelevant,
    ensures
        reaches(a, no_irrelevant, start, x) == reaches(b, no_irrelevant, start, x),
{
    if reaches(a, no_irrelevant, start, x) {
        let path = choose|path: Seq<int>| crate::ancestors::parent_path(a, no_irrelevant, start, path) && #[trigger] path.last() == x;
        assert(crate::ancestors::parent_path(b, no_irrelevant, start, path));
    }
    if reaches(b, no_irrelevant, start, x) {
        let path = choose|path: Seq<int>| crate::ancestors::parent_path(b, no_irrelevant, start, path) && #[trigger] path.last() == x;
        assert(crate::ancestors::parent_path(a, no_irrelevant, start, path));
    }
}

proof fn lemma_reaches_nothing_from_nothing(nodes: Seq<ParentNode>, no_irrelevant: bool, start: Seq<usize>, x: int)
    requires
        start.len() == 0,
    ensures
        !reaches(nodes, no_irrelevant, start, x),
{
    if reaches(nodes, no_irrelevant, start, x) {
        let path = choose|path: Seq<int>| crate::ancestors::parent_path(nodes, no_irrelevant, start, path) && #[trigger] path.last() == x;
        assert(start.contains(path[0] as usize));
    }
}

fn copy_ids(v: &Vec<usize>) -> (r: Vec<usize>)
    ensures
        r@ == v@,
{
    let mut r: Vec<usize> = Vec::new();
    let mut i: usize = 0;
    while i < v.len()
        invariant
            i <= v.len(),
            r@ == v@.take(i as int),
        decreases v.len() - i,
    {
        r.push(v[i]);
        assert(r@ =~= v@.take(i + 1));
        i += 1;
    }
    assert(v@.take(v.len() as int) =~= v@);
    r
}

impl BuildState {
    pub open spec fn wf(&self) -> bool {
        let m = self@;
        let n = m.graph.parents.len();
        &&& self.graph.wf()
        &&& m.statuses.len() == n
        &&& m.summaries.len() == n
        &&& m.out_paths.len() == n
        &&& m.path_states.len() == m.graph.producer.len()
        &&& forall|x: int| 0 <= x < n ==> (#[trigger] m.out_paths[x] matches Some(p) ==> p < m.path_states.len())
        &&& forall|x: int| 0 <= x < n ==> (#[trigger] self.summaries@[x]).wf()
        &&& self.full_summary.wf()
        &&& self.touched.wf()
    }

    /// A state with no derivation and no store path.
    pub fn new() -> (s: Self)
        ensures
            s.wf(),
            s@.statuses.len() == 0,
            s@.path_states.len() == 0,
            s@.touched == Set::<usize>::empty(),
            builds_summarised(s@),
    {
        let s = BuildState {
            graph: DrvGraph::new(),
            statuses: Vec::new(),
            summaries: Vec::new(),
            out_paths: Vec::new(),
            path_states: Vec::new(),
            full_summary: DependencySummary::new(),
            touched: IdSet::new(),
        };
        assert(s@.statuses =~= Seq::<BuildStatusModel>::empty());
        assert(s@.path_states =~= Seq::<Seq<StorePathStateModel>>::empty());
        assert(s@.full_summary == empty_summary());
        s
    }

    /// Whether derivation `x` no longer matters to the summaries above it.
    fn is_irrelevant(&self, x: usize) -> (b: bool)
        requires
            self.wf(),
            x < self.statuses.len(),
        ensures
            b == no_longer_matters(self@, x as int),
    {
        let m = Ghost(self@);
        assert(m@.statuses[x as int] == self.statuses@[x as int]@);
        match &self.statuses[x] {
            BuildStatus::Built(_) => true,
            BuildStatus::Unknown => {
                match self.out_paths[x] {
                    None => true,
                    Some(p) => {
                        let states = &self.path_states[p];
                        assert(m@.path_states[p as int] == states_view(states@));
                        let mut i: usize = 0;
                        while i < states.len()
                            invariant
                                i <= states.len(),
                                m@ == self@,
                                x < self.statuses.len(),
                                m@.statuses[x as int] is Unknown,
                                m@.out_paths[x as int] == Some(p),
                                m@.path_states[p as int] == states_view(states@),
                                forall|j: int| 0 <= j < i ==> (#[trigger] m@.path_states[p as int][j] is Downloaded
                                    || m@.path_states[p as int][j] is Uploaded),
                            decreases states.len() - i,
                        {
                            assert(m@.path_states[p as int][i as int] == states@[i as int]@);
                            match &states[i] {
                                StorePathState::Downloaded(_) => {},
                                StorePathState::Uploaded(_) => {},
                                _ => {
                                    assert(!(m@.path_states[p as int][i as int] is Downloaded
                                        || m@.path_states[p as int][i as int] is Uploaded));
                                    return false;
                                },
                            }
                            i += 1;
                        }
                        true
                    },
                }
            },
            _ => false,
        }
    }

    /// What the walk up reads of each derivation.
    fn parent_nodes(&self) -> (r: Vec<ParentNode>)
        requires
            self.wf(),
        ensures
            nodes_match(self@, r@),
    {
        let mut r: Vec<ParentNode> = Vec::new();
        let mut x: usize = 0;
        while x < self.statuses.len()
            invariant
                self.wf(),
                x <= self.statuses.len(),
                r@.len() == x,
                forall|k: int| 0 <= k < x ==> #[trigger] r@[k].parents@ == self@.graph.parents[k],
                forall|k: int| 0 <= k < x ==> #[trigger] r@[k].irrelevant == no_longer_matters(self@, k),
            decreases self.statuses.len() - x,
        {
            let parents = copy_ids(&self.graph.parents[x]);
            assert(parents@ == self@.graph.parents[x as int]);
            let irrelevant = self.is_irrelevant(x);
            r.push(ParentNode { parents, irrelevant });
            x += 1;
        }
        r
    }

    /// Gives derivation `id` the status `new_status`, and says whether that
    /// changed its status; see [`status_set`] for what a change does.
    pub fn set_build_status(&mut self, id: usize, new_status: BuildStatus) -> (changed: bool)
        requires
            old(self).wf(),
            id < old(self)@.statuses.len(),
        ensures
            final(self).wf(),
            changed == (old(self)@.statuses[id as int] != new_status@),
            final(self)@ == status_changed(old(self)@, id, new_status@),
    {
        let ghost m0 = self@;
        let ghost n = m0.statuses.len() as int;
        let old_status = self.statuses[id].copied();
        assert(old_status@ == m0.statuses[id as int]);
        if same_status(&old_status, &new_status) {
            return false;
        }
        let ghost new_v = new_status@;
        let new_copy = new_status.copied();
        self.statuses.set(id, new_status);
        proof {
            assert(self@.statuses =~= m0.statuses.update(id as int, new_v));
        }
        summary_after_status(&mut self.full_summary, &old_status, &new_copy, id);
        let ghost m1 = BuildStateModel { statuses: m0.statuses.update(id as int, new_v), ..m0 };
        let ghost target = status_set(m0, id, new_v);
        let direct = copy_ids(&self.graph.parents[id]);
        assert(direct@ == m0.graph.parents[id as int]);
        if direct.len() == 0 {
            self.touched.insert(id);
            proof {
                let c = choose|nodes: Seq<ParentNode>| nodes_match(m1, nodes);
                assert forall|x: int| 0 <= x < n implies !reaches(c, false, direct@, x) && !reaches(c, true, direct@, x) by {
                    lemma_reaches_nothing_from_nothing(c, false, direct@, x);
                    lemma_reaches_nothing_from_nothing(c, true, direct@, x);
                }
                assert(self@.summaries =~= target.summaries);
                assert(self@.touched =~= target.touched);
                assert(self@ == target);
            }
            return true;
        }
        let nodes = self.parent_nodes();
        proof {
            assert(self@.statuses == m1.statuses);
            assert(nodes_match(m1, nodes@));
        }
        let plan = update_parents(&nodes, false, &direct);
        let ghost s0 = self@.summaries;
        assert(s0 == m0.summaries);
        assert(n <= usize::MAX) by {
            assert(n == nodes.len());
        }
        let ghost fs = self@.full_summary;
        let mut k: usize = 0;
        while k < plan.update.len()
            invariant
                k <= plan.update.len(),
                self.graph.wf(),
                self@.graph == m0.graph,
                self@.statuses == m1.statuses,
                self@.out_paths == m0.out_paths,
                self@.path_states == m0.path_states,
                self@.full_summary == fs,
                self@.touched == m0.touched,
                self.full_summary.wf(),
                self.touched.wf(),
                self.summaries@.len() == n,
                n == nodes@.len(),
                n <= usize::MAX,
                id < n,
                forall|j: int| 0 <= j < plan.update@.len() ==> (#[trigger] plan.update@[j]) < n,
                plan.update@.no_duplicates(),
                forall|x: int| 0 <= x < n ==> (#[trigger] self.summaries@[x]).wf(),
                forall|x: int| 0 <= x < n ==> #[trigger] self@.summaries[x] == (if plan.update@.take(k as int).contains(x as usize) {
                    summary_step(s0[x], old_status@, new_copy@, id)
                } else {
                    s0[x]
                }),
            decreases plan.update.len() - k,
        {
            let u = plan.update[k];
            let ghost before = self.summaries@;
            let ghost before_m = self@.summaries;
            assert(before_m[u as int] == before[u as int]@);
            summary_after_status(&mut self.summaries[u], &old_status, &new_copy, id);
            proof {
                assert(self.summaries@.len() == before.len());
                assert(self.summaries@[u as int]@ == summary_step(before[u as int]@, old_status@, new_copy@, id));
                assert(forall|x: int| 0 <= x < n && x != u ==> self.summaries@[x] == before[x]);
                let t = plan.update@.take(k + 1);
                assert(t =~= plan.update@.take(k as int).push(u));
                assert forall|x: int| 0 <= x < n implies #[trigger] self@.summaries[x] == (if t.contains(x as usize) {
                    summary_step(s0[x], old_status@, new_copy@, id)
                } else {
                    s0[x]
                }) by {
                    assert(self@.summaries[x] == self.summaries@[x]@);
                    assert(before_m[x] == before[x]@);
                    lemma_take_next(plan.update@, k as int);
                    assert(t.contains(x as usize) <==> (plan.update@.take(k as int).contains(x as usize) || x as usize == u));
                    if x != u as int {
                        assert(x as usize != u);
                    }
                    if x == u {
                        assert(!plan.update@.take(k as int).contains(u)) by {
                            if plan.update@.take(k as int).contains(u) {
                                let j = choose|j: int| 0 <= j < k && plan.update@.take(k as int)[j] == u;
                                assert(plan.update@[j] == plan.update@[k as int]);
                            }
                        }
                    } else {
                        assert(self.summaries@[x] == before[x]);
                    }
                }
                assert forall|x: int| 0 <= x < n implies (#[trigger] self.summaries@[x]).wf() by {
                    if x != u {
                        assert(self.summaries@[x] == before[x]);
                    }
                }
            }
            k += 1;
        }
        assert(plan.update@.take(plan.update@.len() as int) =~= plan.update@);
        let ghost s1 = self@.summaries;
        k = 0;
        while k < plan.clear.len()
            invariant
                k <= plan.clear.len(),
                self.graph.wf(),
                self@.graph == m0.graph,
                self@.statuses == m1.statuses,
                self@.out_paths == m0.out_paths,
                self@.path_states == m0.path_states,
                self@.full_summary == fs,
                self@.touched == m0.touched,
                self.full_summary.wf(),
                self.touched.wf(),
                self.summaries@.len() == n,
                n == nodes@.len(),
                n <= usize::MAX,
                id < n,
                forall|j: int| 0 <= j < plan.clear@.len() ==> (#[trigger] plan.clear@[j]) < n,
                plan.clear@.no_duplicates(),
                forall|x: int| 0 <= x < n ==> (#[trigger] self.summaries@[x]).wf(),
                forall|x: int| 0 <= x < n ==> #[trigger] self@.summaries[x] == (if plan.clear@.take(k as int).contains(x as usize) {
                    status_cleared(s1[x], old_status@, id)
                } else {
                    s1[x]
                }),
            decreases plan.clear.len() - k,
        {
            let c = plan.clear[k];
            let ghost before = self.summaries@;
            let ghost before_m = self@.summaries;
            assert(before_m[c as int] == before[c as int]@);
            clear_derivation_from_summary(&mut self.summaries[c], &old_status, id);
            proof {
                assert(self.summaries@.len() == before.len());
                assert(self.summaries@[c as int]@ == status_cleared(before[c as int]@, old_status@, id));
                assert(forall|x: int| 0 <= x < n && x != c ==> self.summaries@[x] == before[x]);
                let t = plan.clear@.take(k + 1);
                assert(t =~= plan.clear@.take(k as int).push(c));
                assert forall|x: int| 0 <= x < n implies #[trigger] self@.summaries[x] == (if t.contains(x as usize) {
                    status_cleared(s1[x], old_status@, id)
                } else {
                    s1[x]
                }) by {
                    assert(self@.summaries[x] == self.summaries@[x]@);
                    assert(before_m[x] == before[x]@);
                    lemma_take_next(plan.clear@, k as int);
                    assert(t.contains(x as usize) <==> (plan.clear@.take(k as int).contains(x as usize) || x as usize == c));
                    if x != c as int {
                        assert(x as usize != c);
                    }
                    if x == c {
                        assert(!plan.clear@.take(k as int).contains(c)) by {
                            if plan.clear@.take(k as int).contains(c) {
                                let j = choose|j: int| 0 <= j < k && plan.clear@.take(k as int)[j] == c;
                                assert(plan.clear@[j] == plan.clear@[k as int]);
                            }
                        }
                    } else {
                        assert(self.summaries@[x] == before[x]);
                    }
                }
                assert forall|x: int| 0 <= x < n implies (#[trigger] self.summaries@[x]).wf() by {
                    if x != c {
                        assert(self.summaries@[x] == before[x]);
                    }
                }
            }
            k += 1;
        }
        assert(plan.clear@.take(plan.clear@.len() as int) =~= plan.clear@);
        let ghost s2 = self.summaries@;
        assert(forall|x: int| 0 <= x < n ==> #[trigger] s2[x]@ == (if plan.clear@.contains(x as usize) {
            status_cleared(s1[x], old_status@, id)
        } else {
            s1[x]
        })) by {
            assert forall|x: int| 0 <= x < n implies #[trigger] s2[x]@ == (if plan.clear@.contains(x as usize) {
                status_cleared(s1[x], old_status@, id)
            } else {
                s1[x]
            }) by {
                assert(self@.summaries[x] == s2[x]@);
            }
        }
        k = 0;
        while k < plan.touched.len()
            invariant
                k <= plan.touched.len(),
                self.touched.wf(),
                self.summaries@ == s2,
                self.graph.wf(),
                self@.graph == m0.graph,
                self@.statuses == m1.statuses,
                self@.out_paths == m0.out_paths,
                self@.path_states == m0.path_states,
                self@.full_summary == fs,
                self.full_summary.wf(),
                self@.touched == m0.touched.union(plan.touched@.take(k as int).to_set()),
            decreases plan.touched.len() - k,
        {
            self.touched.insert(plan.touched[k]);
            proof {
                assert(plan.touched@.take(k + 1) =~= plan.touched@.take(k as int).push(plan.touched@[k as int]));
                lemma_take_next(plan.touched@, k as int);
                assert(plan.touched@.take(k + 1).to_set() =~= plan.touched@.take(k as int).to_set().insert(plan.touched@[k as int]));
                assert(self@.touched =~= m0.touched.union(plan.touched@.take(k + 1).to_set()));
            }
            k += 1;
        }
        self.touched.insert(id);
        proof {
            assert(plan.touched@.take(plan.touched@.len() as int) =~= plan.touched@);
            let c = choose|nodes: Seq<ParentNode>| nodes_match(m1, nodes);
            assert(nodes_match(m1, c));
            assert forall|x: int| 0 <= x < n implies reaches(c, false, direct@, x) == reaches(nodes@, false, direct@, x)
                && reaches(c, true, direct@, x) == reaches(nodes@, true, direct@, x) by {
                lemma_reaches_by_views(c, nodes@, false, direct@, x);
                lemma_reaches_by_views(c, nodes@, true, direct@, x);
            }
            assert forall|x: int| 0 <= x < n implies #[trigger] self@.summaries[x] == target.summaries[x] by {
                assert(s1[x] == (if plan.update@.contains(x as usize) {
                    summary_step(s0[x], old_status@, new_copy@, id)
                } else {
                    s0[x]
                }));
                assert(self@.summaries[x] == s2[x]@);
                assert(self@.summaries[x] == (if plan.clear@.contains(x as usize) {
                    status_cleared(s1[x], old_status@, id)
                } else {
                    s1[x]
                }));
                assert(to_update(c, false, direct@, x) == to_update(nodes@, false, direct@, x));
                assert(target.summaries[x] == (if to_update(c, false, direct@, x) {
                    summary_step(m0.summaries[x], m0.statuses[id as int], new_v, id)
                } else if reaches(c, false, direct@, x) {
                    status_cleared(m0.summaries[x], m0.statuses[id as int], id)
                } else {
                    m0.summaries[x]
                }));
                assert(plan.update@.contains(x as usize) <==> to_update(nodes@, false, direct@, x));
                assert(plan.clear@.contains(x as usize) <==> (reaches(nodes@, false, direct@, x) && !to_update(nodes@, false, direct@, x)));
            }
            assert(self@.summaries =~= target.summaries);
            assert forall|x: usize| #[trigger] plan.touched@.to_set().contains(x) <==> (x < n && reaches(c, false, direct@, x as int)) by {
                if plan.touched@.to_set().contains(x) {
                    let j = choose|j: int| 0 <= j < plan.touched@.len() && plan.touched@[j] == x;
                    assert(plan.touched@[j] < n);
                }
                if x < n {
                    let xi = x as int;
                    assert(xi as usize == x);
                    assert(plan.touched@.contains(xi as usize) <==> reaches(nodes@, false, direct@, xi));
                    lemma_reaches_by_views(c, nodes@, false, direct@, xi);
                }
            }
            assert(self@.touched =~= target.touched);
            assert(self@.statuses =~= target.statuses);
            assert(self@ == target);
        }
        true
    }

    /// Gives store path `p` the states `news`; see [`states_set`] for what
    /// that does.
    pub fn set_path_states(&mut self, p: usize, news: Vec<StorePathState>)
        requires
            old(self).wf(),
            p < old(self)@.path_states.len(),
        ensures
            final(self).wf(),
            final(self)@ == states_set(old(self)@, p, states_view(news@)),
    {
        let ghost m0 = self@;
        let ghost n = m0.statuses.len() as int;
        let ghost nv = states_view(news@);
        let olds = copy_states(&self.path_states[p]);
        assert(states_view(olds@) == m0.path_states[p as int]);
        summary_after_path_states(&mut self.full_summary, &olds, &news, p);
        let ghost target = states_set(m0, p, nv);
        let mut direct = copy_ids(&self.graph.input_for[p]);
        assert(direct@ == m0.graph.input_for[p as int]);
        match self.graph.producer[p] {
            Some(d) => direct.push(d),
            None => {},
        }
        assert(direct@ == path_users(m0.graph, p as int));
        let ghost fs = self@.full_summary;
        if direct.len() == 0 {
            self.path_states.set(p, news);
            proof {
                let c = choose|nodes: Seq<ParentNode>| nodes_match(m0, nodes);
                assert forall|x: int| 0 <= x < n implies !reaches(c, false, direct@, x) && !reaches(c, true, direct@, x) by {
                    lemma_reaches_nothing_from_nothing(c, false, direct@, x);
                    lemma_reaches_nothing_from_nothing(c, true, direct@, x);
                }
                assert(self@.summaries =~= target.summaries);
                assert(self@.touched =~= target.touched);
                assert(self@.path_states =~= target.path_states);
                assert(self@ == target);
            }
            return;
        }
        let nodes = self.parent_nodes();
        proof {
            assert(nodes_match(m0, nodes@));
        }
        let plan = update_parents(&nodes, true, &direct);
        let ghost s0 = self@.summaries;
        assert(s0 == m0.summaries);
        assert(n <= usize::MAX) by {
            assert(n == nodes.len());
        }
        let mut k: usize = 0;
        while k < plan.update.len()
            invariant
                k <= plan.update.len(),
                self.graph.wf(),
                self@.graph == m0.graph,
                self@.statuses == m0.statuses,
                self@.out_paths == m0.out_paths,
                self@.path_states == m0.path_states,
                self@.full_summary == fs,
                self@.touched == m0.touched,
                self.full_summary.wf(),
                self.touched.wf(),
                self.summaries@.len() == n,
                n == nodes@.len(),
                n <= usize::MAX,
                forall|j: int| 0 <= j < plan.update@.len() ==> (#[trigger] plan.update@[j]) < n,
                plan.update@.no_duplicates(),
                nv == states_view(news@),
                forall|x: int| 0 <= x < n ==> (#[trigger] self.summaries@[x]).wf(),
                forall|x: int| 0 <= x < n ==> #[trigger] self@.summaries[x] == (if plan.update@.take(k as int).contains(x as usize) {
                    summary_after_states(s0[x], states_view(olds@), nv, p)
                } else {
                    s0[x]
                }),
            decreases plan.update.len() - k,
        {
            let u = plan.update[k];
            let ghost before = self.summaries@;
            let ghost before_m = self@.summaries;
            assert(before_m[u as int] == before[u as int]@);
            summary_after_path_states(&mut self.summaries[u], &olds, &news, p);
            proof {
                assert(self.summaries@.len() == before.len());
                assert(self.summaries@[u as int]@ == summary_after_states(before[u as int]@, states_view(olds@), nv, p));
                assert(forall|x: int| 0 <= x < n && x != u ==> self.summaries@[x] == before[x]);
                let t = plan.update@.take(k + 1);
                assert(t =~= plan.update@.take(k as int).push(u));
                assert forall|x: int| 0 <= x < n implies #[trigger] self@.summaries[x] == (if t.contains(x as usize) {
                    summary_after_states(s0[x], states_view(olds@), nv, p)
                } else {
                    s0[x]
                }) by {
                    assert(self@.summaries[x] == self.summaries@[x]@);
                    assert(before_m[x] == before[x]@);
                    lemma_take_next(plan.update@, k as int);
                    assert(t.contains(x as usize) <==> (plan.update@.take(k as int).contains(x as usize) || x as usize == u));
                    if x != u as int {
                        assert(x as usize != u);
                    } else {
                        assert(!plan.update@.take(k as int).contains(u)) by {
                            if plan.update@.take(k as int).contains(u) {
                                let j = choose|j: int| 0 <= j < k && plan.update@.take(k as int)[j] == u;
                                assert(plan.update@[j] == plan.update@[k as int]);
                            }
                        }
                    }
                }
                assert forall|x: int| 0 <= x < n implies (#[trigger] self.summaries@[x]).wf() by {
                    if x != u {
                        assert(self.summaries@[x] == before[x]);
                    }
                }
            }
            k += 1;
        }
        assert(plan.update@.take(plan.update@.len() as int) =~= plan.update@);
        let ghost s1 = self@.summaries;
        k = 0;
        while k < plan.clear.len()
            invariant
                k <= plan.clear.len(),
                self.graph.wf(),
                self@.graph == m0.graph,
                self@.statuses == m0.statuses,
                self@.out_paths == m0.out_paths,
                self@.path_states == m0.path_states,
                self@.full_summary == fs,
                self@.touched == m0.touched,
                self.full_summary.wf(),
                self.touched.wf(),
                self.summaries@.len() == n,
                n == nodes@.len(),
                n <= usize::MAX,
                forall|j: int| 0 <= j < plan.clear@.len() ==> (#[trigger] plan.clear@[j]) < n,
                plan.clear@.no_duplicates(),
                forall|x: int| 0 <= x < n ==> (#[trigger] self.summaries@[x]).wf(),
                forall|x: int| 0 <= x < n ==> #[trigger] self@.summaries[x] == (if plan.clear@.take(k as int).contains(x as usize) {
                    states_taken_out(s1[x], states_view(olds@), Seq::empty(), p, olds@.len() as int)
                } else {
                    s1[x]
                }),
            decreases plan.clear.len() - k,
        {
            let c = plan.clear[k];
            let ghost before = self.summaries@;
            let ghost before_m = self@.summaries;
            assert(before_m[c as int] == before[c as int]@);
            clear_path_states_from_summary(&mut self.summaries[c], &olds, p);
            proof {
                assert(self.summaries@.len() == before.len());
                assert(self.summaries@[c as int]@ == states_taken_out(before[c as int]@, states_view(olds@), Seq::empty(), p, olds@.len() as int));
                assert(forall|x: int| 0 <= x < n && x != c ==> self.summaries@[x] == before[x]);
                let t = plan.clear@.take(k + 1);
                assert(t =~= plan.clear@.take(k as int).push(c));
                assert forall|x: int| 0 <= x < n implies #[trigger] self@.summaries[x] == (if t.contains(x as usize) {
                    states_taken_out(s1[x], states_view(olds@), Seq::empty(), p, olds@.len() as int)
                } else {
                    s1[x]
                }) by {
                    assert(self@.summaries[x] == self.summaries@[x]@);
                    assert(before_m[x] == before[x]@);
                    lemma_take_next(plan.clear@, k as int);
                    assert(t.contains(x as usize) <==> (plan.clear@.take(k as int).contains(x as usize) || x as usize == c));
                    if x != c as int {
                        assert(x as usize != c);
                    } else {
                        assert(!plan.clear@.take(k as int).contains(c)) by {
                            if plan.clear@.take(k as int).contains(c) {
                                let j = choose|j: int| 0 <= j < k && plan.clear@.take(k as int)[j] == c;
                                assert(plan.clear@[j] == plan.clear@[k as int]);
                            }
                        }
                    }
                }
                assert forall|x: int| 0 <= x < n implies (#[trigger] self.summaries@[x]).wf() by {
                    if x != c {
                        assert(self.summaries@[x] == before[x]);
                    }
                }
            }
            k += 1;
        }
        assert(plan.clear@.take(plan.clear@.len() as int) =~= plan.clear@);
        let ghost s2 = self.summaries@;
        assert(forall|x: int| 0 <= x < n ==> #[trigger] s2[x]@ == (if plan.clear@.contains(x as usize) {
            states_taken_out(s1[x], states_view(olds@), Seq::empty(), p, olds@.len() as int)
        } else {
            s1[x]
        })) by {
            assert forall|x: int| 0 <= x < n implies #[trigger] s2[x]@ == (if plan.clear@.contains(x as usize) {
                states_taken_out(s1[x], states_view(olds@), Seq::empty(), p, olds@.len() as int)
            } else {
                s1[x]
            }) by {
                assert(self@.summaries[x] == s2[x]@);
            }
        }
        k = 0;
        while k < plan.touched.len()
            invariant
                k <= plan.touched.len(),
                self.touched.wf(),
                self.summaries@ == s2,
                self.graph.wf(),
                self@.graph == m0.graph,
                self@.statuses == m0.statuses,
                self@.out_paths == m0.out_paths,
                self@.path_states == m0.path_states,
                self@.full_summary == fs,
                self.full_summary.wf(),
                self@.touched == m0.touched.union(plan.touched@.take(k as int).to_set()),
            decreases plan.touched.len() - k,
        {
            self.touched.insert(plan.touched[k]);
            proof {
                lemma_take_next(plan.touched@, k as int);
                assert(plan.touched@.take(k + 1).to_set() =~= plan.touched@.take(k as int).to_set().insert(plan.touched@[k as int]));
                assert(self@.touched =~= m0.touched.union(plan.touched@.take(k + 1).to_set()));
            }
            k += 1;
        }
        self.path_states.set(p, news);
        proof {
            assert(plan.touched@.take(plan.touched@.len() as int) =~= plan.touched@);
            let c = choose|nodes: Seq<ParentNode>| nodes_match(m0, nodes);
            assert(nodes_match(m0, c));
            assert forall|x: int| 0 <= x < n implies reaches(c, false, direct@, x) == reaches(nodes@, false, direct@, x)
                && reaches(c, true, direct@, x) == reaches(nodes@, true, direct@, x) by {
                lemma_reaches_by_views(c, nodes@, false, direct@, x);
                lemma_reaches_by_views(c, nodes@, true, direct@, x);
            }
            assert forall|x: int| 0 <= x < n implies #[trigger] self@.summaries[x] == target.summaries[x] by {
                assert(s1[x] == (if plan.update@.contains(x as usize) {
                    summary_after_states(s0[x], states_view(olds@), nv, p)
                } else {
                    s0[x]
                }));
                assert(self@.summaries[x] == s2[x]@);
                assert(to_update(c, true, direct@, x) == to_update(nodes@, true, direct@, x));
                assert(plan.update@.contains(x as usize) <==> to_update(nodes@, true, direct@, x));
                assert(plan.clear@.contains(x as usize) <==> (reaches(nodes@, false, direct@, x) && !to_update(nodes@, true, direct@, x)));
            }
            assert(self@.summaries =~= target.summaries);
            assert forall|x: usize| #[trigger] plan.touched@.to_set().contains(x) <==> (x < n && reaches(c, false, direct@, x as int)) by {
                if plan.touched@.to_set().contains(x) {
                    let j = choose|j: int| 0 <= j < plan.touched@.len() && plan.touched@[j] == x;
                    assert(plan.touched@[j] < n);
                }
                if x < n {
                    let xi = x as int;
                    assert(xi as usize == x);
                    assert(plan.touched@.contains(xi as usize) <==> reaches(nodes@, false, direct@, xi));
                    lemma_reaches_by_views(c, nodes@, false, direct@, xi);
                }
            }
            assert(self@.touched =~= target.touched);
            assert(self@.path_states =~= target.path_states);
            assert(self@ == target);
        }
    }

    /// Adds a derivation with an unknown status, an empty summary and no
    /// known output, and gives its index.
    pub fn add_derivation(&mut self) -> (id: usize)
        requires
            old(self).wf(),
            old(self)@.statuses.len() < usize::MAX,
        ensures
            final(self).wf(),
            id == old(self)@.statuses.len(),
            final(self)@.graph.parents == old(self)@.graph.parents.push(Seq::empty()),
            final(self)@.graph.producer == old(self)@.graph.producer,
            final(self)@.graph.input_for == old(self)@.graph.input_for,
            final(self)@.graph.roots == old(self)@.graph.roots,
            final(self)@.statuses == old(self)@.statuses.push(BuildStatusModel::Unknown),
            final(self)@.summaries == old(self)@.summaries.push(empty_summary()),
            final(self)@.out_paths == old(self)@.out_paths.push(None),
            final(self)@.path_states == old(self)@.path_states,
            final(self)@.full_summary == old(self)@.full_summary,
            final(self)@.touched == old(self)@.touched,
            builds_summarised(old(self)@) ==> builds_summarised(final(self)@),
    {
        let ghost m0 = self@;
        let id = self.graph.add_derivation();
        self.statuses.push(BuildStatus::Unknown);
        self.summaries.push(DependencySummary::new());
        self.out_paths.push(None);
        proof {
            assert(self@.statuses =~= m0.statuses.push(BuildStatusModel::Unknown));
            assert(self@.summaries =~= m0.summaries.push(empty_summary()));
            assert forall|x: int| 0 <= x < self@.statuses.len() implies (#[trigger] self.summaries@[x]).wf() by {
                if x < id {
                    assert(self.summaries@[x] == old(self).summaries@[x]);
                }
            }
            assert forall|x: int| 0 <= x < self@.statuses.len() implies (#[trigger] self@.out_paths[x] matches Some(q) ==> q < self@.path_states.len()) by {
                if x < id {
                    assert(self@.out_paths[x] == m0.out_paths[x]);
                }
            }
            if builds_summarised(m0) {
                lemma_new_derivation_keeps_builds_summarised(m0);
                assert(self@ == BuildStateModel { statuses: m0.statuses.push(BuildStatusModel::Unknown), ..self@ });
            }
        }
        id
    }

    /// Adds a store path with no state, and gives its index.
    pub fn add_store_path(&mut self) -> (id: usize)
        requires
            old(self).wf(),
            old(self)@.path_states.len() < usize::MAX,
        ensures
            final(self).wf(),
            id == old(self)@.path_states.len(),
            final(self)@.graph.parents == old(self)@.graph.parents,
            final(self)@.graph.producer == old(self)@.graph.producer.push(None),
            final(self)@.graph.input_for == old(self)@.graph.input_for.push(Seq::empty()),
            final(self)@.graph.roots == old(self)@.graph.roots,
            final(self)@.path_states == old(self)@.path_states.push(Seq::empty()),
            final(self)@.statuses == old(self)@.statuses,
            final(self)@.summaries == old(self)@.summaries,
            final(self)@.out_paths == old(self)@.out_paths,
            final(self)@.full_summary == old(self)@.full_summary,
            final(self)@.touched == old(self)@.touched,
    {
        let ghost m0 = self@;
        let id = self.graph.add_store_path();
        self.path_states.push(Vec::new());
        proof {
            assert(self.path_states@[id as int]@ =~= Seq::<StorePathState>::empty());
            assert(states_view(self.path_states@[id as int]@) =~= Seq::<StorePathStateModel>::empty());
            assert(self@.path_states =~= m0.path_states.push(Seq::empty()));
            assert forall|x: int| 0 <= x < self@.statuses.len() implies (#[trigger] self@.out_paths[x] matches Some(q) ==> q < self@.path_states.len()) by {
                assert(self@.out_paths[x] == m0.out_paths[x]);
            }
        }
        id
    }

    /// Records that store path `p` is derivation `drv`'s `out` output.
    pub fn set_out_path(&mut self, drv: usize, p: usize)
        requires
            old(self).wf(),
            drv < old(self)@.statuses.len(),
            p < old(self)@.path_states.len(),
        ensures
            final(self).wf(),
            final(self)@ == (BuildStateModel { out_paths: old(self)@.out_paths.update(drv as int, Some(p)), ..old(self)@ }),
    {
        self.out_paths.set(drv, Some(p));
    }

    /// Records what derivation `drv`'s file says of its place in the graph
    /// (see [`record_derivation`]).
    pub fn record(&mut self, drv: usize, output_ids: &Vec<usize>, src_ids: &Vec<usize>, dep_ids: &Vec<usize>)
        requires
            old(self).wf(),
            drv < old(self)@.statuses.len(),
            forall|i: int| 0 <= i < output_ids.len() ==> #[trigger] output_ids@[i] < old(self)@.path_states.len(),
            forall|i: int| 0 <= i < src_ids.len() ==> #[trigger] src_ids@[i] < old(self)@.path_states.len(),
            forall|i: int| 0 <= i < dep_ids.len() ==> #[trigger] dep_ids@[i] < old(self)@.statuses.len(),
        ensures
            final(self).wf(),
            final(self)@ == (BuildStateModel {
                graph: recorded(old(self)@.graph, drv, output_ids@, src_ids@, dep_ids@),
                ..old(self)@
            }),
    {
        record_derivation(&mut self.graph, drv, output_ids, src_ids, dep_ids);
    }

    /// Puts the roots in the order of their keys (`keys[i]` is the key of
    /// the `i`th root), roots with equal keys in their old order, and gives
    /// that order as the old positions of the roots.
    pub fn sort_roots(&mut self, keys: &Vec<SortKey>) -> (order: Vec<usize>)
        requires
            old(self).wf(),
            keys.len() == old(self)@.graph.roots.len(),
        ensures
            final(self).wf(),
            is_order_of(order@, keys@.len() as int),
            sorted_stably(keys@, order@),
            final(self)@ == (BuildStateModel {
                graph: GraphModel {
                    roots: Seq::new(order@.len(), |i: int| old(self)@.graph.roots[order@[i] as int]),
                    ..old(self)@.graph
                },
                ..old(self)@
            }),
    {
        let ghost m0 = self@;
        let order = stable_order(keys);
        let mut roots: Vec<usize> = Vec::new();
        let mut i: usize = 0;
        while i < order.len()
            invariant
                i <= order.len(),
                is_order_of(order@, keys@.len() as int),
                keys@.len() == self.graph.roots@.len(),
                self@ == m0,
                roots@ == Seq::new(i as nat, |j: int| m0.graph.roots[order@[j] as int]),
            decreases order.len() - i,
        {
            roots.push(self.graph.roots[order[i]]);
            assert(roots@ =~= Seq::new((i + 1) as nat, |j: int| m0.graph.roots[order@[j] as int]));
            i += 1;
        }
        proof {
            let n = m0.graph.parents.len() as int;
            let old_r = m0.graph.roots;
            assert(crate::graph::id_set_below(old_r, n));
            assert forall|a: int, b: int| 0 <= a < b < roots@.len() implies roots@[a] != roots@[b] by {
                assert(order@[a] != order@[b]);
                assert(old_r[order@[a] as int] != old_r[order@[b] as int]);
            }
            assert forall|j: int| 0 <= j < roots@.len() implies #[trigger] roots@[j] < n by {
                assert(order@[j] < old_r.len());
            }
        }
        self.graph.roots = roots;
        proof {
            assert(self@.graph =~= GraphModel {
                roots: Seq::new(order@.len(), |i: int| m0.graph.roots[order@[i] as int]),
                ..m0.graph
            });
        }
        order
    }

    /// The touched derivations, in increasing order; the set is emptied.
    pub fn take_touched(&mut self) -> (r: Vec<usize>)
        requires
            old(self).wf(),
        ensures
            final(self).wf(),
            r@.to_set() == old(self)@.touched,
            final(self)@ == (BuildStateModel { touched: Set::empty(), ..old(self)@ }),
    {
        let mut t = IdSet::new();
        std::mem::swap(&mut t, &mut self.touched);
        proof {
            assert(self@.touched =~= Set::<usize>::empty());
        }
        t.ids
    }

    /// Applies what nix reported, at `now` (milliseconds since the monitor
    /// started); see [`event_applied`]. For a build that finished, gives the
    /// whole seconds it took.
    pub fn apply_event(&mut self, event: &BuildEvent, now: u64) -> (secs: Option<i64>)
        requires
            old(self).wf(),
            event_in_range(old(self)@, event@),
        ensures
            final(self).wf(),
            final(self)@ == event_applied(old(self)@, event@, now),
            builds_summarised(old(self)@) ==> builds_summarised(final(self)@),
            match finished_seconds(old(self)@, event@, now) {
                Some(n) => secs == Some(n as i64),
                None => secs is None,
            },
    {
        let ghost m0 = self@;
        proof {
            if builds_summarised(m0) {
                lemma_events_keep_builds_summarised(m0, event@, now);
            }
        }
        match event {
            BuildEvent::PlanBuild(d) => {
                self.set_build_status(*d, BuildStatus::Planned);
                None
            },
            BuildEvent::PlanDownload(p) => {
                assert(m0.path_states[*p as int] == states_view(self.path_states@[*p as int]@));
                let news = states_with_download_planned(&self.path_states[*p]);
                self.set_path_states(*p, news);
                None
            },
            BuildEvent::BuildStarted { drv, host, estimate, activity_id } => {
                assert(m0.statuses[*drv as int] == self.statuses@[*drv as int]@);
                let st = building_status(&self.statuses[*drv], host, now, *estimate, *activity_id);
                self.set_build_status(*drv, st);
                None
            },
            BuildEvent::BuildFailed { drv, fail_type } => {
                assert(m0.statuses[*drv as int] == self.statuses@[*drv as int]@);
                match failed_status(&self.statuses[*drv], *fail_type, now) {
                    Some(st) => {
                        self.set_build_status(*drv, st);
                    },
                    None => {},
                }
                None
            },
            BuildEvent::BuildFinished(d) => {
                assert(m0.statuses[*d as int] == self.statuses@[*d as int]@);
                let secs = match &self.statuses[*d] {
                    BuildStatus::Building(b) => Some(build_seconds(b.start, now)),
                    _ => None,
                };
                match built_status(&self.statuses[*d], now) {
                    Some(st) => {
                        self.set_build_status(*d, st);
                    },
                    None => {},
                }
                secs
            },
            BuildEvent::TransferStarted { path, download, host, activity_id } => {
                assert(m0.path_states[*path as int] == states_view(self.path_states@[*path as int]@));
                let news = states_with_transfer_started(&self.path_states[*path], *download, host, now, *activity_id);
                self.set_path_states(*path, news);
                None
            },
            BuildEvent::TransferFinished { path, download, host } => {
                assert(m0.path_states[*path as int] == states_view(self.path_states@[*path as int]@));
                let news = states_with_transfer_finished(&self.path_states[*path], *download, host, now);
                self.set_path_states(*path, news);
                None
            },
        }
    }
}


// ---------------------------------------------------------------------
// Laws
// ---------------------------------------------------------------------

/// The whole summary's builds are exactly the derivations with that status:
/// the planned ones, and the running, failed and built ones with their
/// builds.
pub open spec fn builds_summarised(m: BuildStateModel) -> bool {
    let f = m.full_summary;
    let n = m.statuses.len();
    &&& forall|x: usize| #[trigger] f.planned_builds.contains(x) <==> (x < n && m.statuses[x as int] is Planned)
    &&& forall|x: usize|
        #[trigger] f.running_builds.dom().contains(x) <==> (x < n && m.statuses[x as int] is Building)
    &&& forall|x: usize|
        #[trigger] f.failed_builds.dom().contains(x) <==> (x < n && m.statuses[x as int] is Failed)
    &&& forall|x: usize|
        #[trigger] f.completed_builds.dom().contains(x) <==> (x < n && m.statuses[x as int] is Built)
    &&& forall|x: usize|
        #[trigger] f.running_builds.dom().contains(x) ==> m.statuses[x as int] == BuildStatusModel::Building(
            f.running_builds[x],
        )
    &&& forall|x: usize|
        #[trigger] f.failed_builds.dom().contains(x) ==> m.statuses[x as int] == BuildStatusModel::Failed(
            f.failed_builds[x],
        )
    &&& forall|x: usize|
        #[trigger] f.completed_builds.dom().contains(x) ==> m.statuses[x as int] == BuildStatusModel::Built(
            f.completed_builds[x],
        )
}

proof fn lemma_step_keeps_builds(m: BuildStateModel, id: usize, new: BuildStatusModel)
    requires
        builds_summarised(m),
        id < m.statuses.len(),
    ensures
        builds_summarised(BuildStateModel {
            statuses: m.statuses.update(id as int, new),
            full_summary: summary_step(m.full_summary, m.statuses[id as int], new, id),
            ..m
        }),
{
    let m2 = BuildStateModel {
        statuses: m.statuses.update(id as int, new),
        full_summary: summary_step(m.full_summary, m.statuses[id as int], new, id),
        ..m
    };
    let f = m2.full_summary;
    assert forall|x: usize| #[trigger] f.planned_builds.contains(x) <==> (x < m2.statuses.len() && m2.statuses[x as int] is Planned) by {
        if x != id && x < m.statuses.len() {
            assert(m2.statuses[x as int] == m.statuses[x as int]);
        }
    }
    assert forall|x: usize| #[trigger] f.running_builds.dom().contains(x) <==> (x < m2.statuses.len() && m2.statuses[x as int] is Building) by {
        if x != id && x < m.statuses.len() {
            assert(m2.statuses[x as int] == m.statuses[x as int]);
        }
    }
    assert forall|x: usize| #[trigger] f.failed_builds.dom().contains(x) <==> (x < m2.statuses.len() && m2.statuses[x as int] is Failed) by {
        if x != id && x < m.statuses.len() {
            assert(m2.statuses[x as int] == m.statuses[x as int]);
        }
    }
    assert forall|x: usize| #[trigger] f.completed_builds.dom().contains(x) <==> (x < m2.statuses.len() && m2.statuses[x as int] is Built) by {
        if x != id && x < m.statuses.len() {
            assert(m2.statuses[x as int] == m.statuses[x as int]);
        }
    }
    assert forall|x: usize| #[trigger] f.running_builds.dom().contains(x) implies m2.statuses[x as int] == BuildStatusModel::Building(f.running_builds[x]) by {
        if x != id && x < m.statuses.len() {
            assert(m2.statuses[x as int] == m.statuses[x as int]);
        }
    }
    assert forall|x: usize| #[trigger] f.failed_builds.dom().contains(x) implies m2.statuses[x as int] == BuildStatusModel::Failed(f.failed_builds[x]) by {
        if x != id && x < m.statuses.len() {
            assert(m2.statuses[x as int] == m.statuses[x as int]);
        }
    }
    assert forall|x: usize| #[trigger] f.completed_builds.dom().contains(x) implies m2.statuses[x as int] == BuildStatusModel::Built(f.completed_builds[x]) by {
        if x != id && x < m.statuses.len() {
            assert(m2.statuses[x as int] == m.statuses[x as int]);
        }
    }
}

proof fn lemma_taken_out_keeps_builds(
    s: SummaryModel,
    olds: Seq<StorePathStateModel>,
    news: Seq<StorePathStateModel>,
    p: usize,
    k: int,
)
    ensures
        ({
            let r = states_taken_out(s, olds, news, p, k);
            &&& r.planned_builds == s.planned_builds
            &&& r.running_builds == s.running_builds
            &&& r.failed_builds == s.failed_builds
            &&& r.completed_builds == s.completed_builds
        }),
    decreases k,
{
    if k > 0 {
        lemma_taken_out_keeps_builds(s, olds, news, p, k - 1);
    }
}

proof fn lemma_added_keeps_builds(
    s: SummaryModel,
    news: Seq<StorePathStateModel>,
    olds: Seq<StorePathStateModel>,
    p: usize,
    k: int,
)
    ensures
        ({
            let r = crate::build_state::states_taken_out_added(s, news, olds, p, k);
            &&& r.planned_builds == s.planned_builds
            &&& r.running_builds == s.running_builds
            &&& r.failed_builds == s.failed_builds
            &&& r.completed_builds == s.completed_builds
        }),
    decreases k,
{
    if k > 0 {
        lemma_added_keeps_builds(s, news, olds, p, k - 1);
    }
}

/// Every event keeps the whole summary's builds exactly those of the
/// derivations with each status (see [`builds_summarised`]).
pub proof fn lemma_events_keep_builds_summarised(m: BuildStateModel, e: BuildEventModel, now: u64)
    requires
        builds_summarised(m),
        event_in_range(m, e),
    ensures
        builds_summarised(event_applied(m, e, now)),
{
    match e {
        BuildEventModel::PlanBuild(d) => {
            if m.statuses[d as int] != BuildStatusModel::Planned {
                lemma_step_keeps_builds(m, d, BuildStatusModel::Planned);
            }
        },
        BuildEventModel::BuildStarted { drv, host, estimate, activity_id } => {
            let st = status_on_start(m.statuses[drv as int], host, now, estimate, activity_id);
            if m.statuses[drv as int] != st {
                lemma_step_keeps_builds(m, drv, st);
            }
        },
        BuildEventModel::BuildFailed { drv, fail_type } => {
            match status_on_failure(m.statuses[drv as int], fail_type, now) {
                Some(st) => {
                    if m.statuses[drv as int] != st {
                        lemma_step_keeps_builds(m, drv, st);
                    }
                },
                None => {},
            }
        },
        BuildEventModel::BuildFinished(d) => {
            match status_on_finish(m.statuses[d as int], now) {
                Some(st) => {
                    if m.statuses[d as int] != st {
                        lemma_step_keeps_builds(m, d, st);
                    }
                },
                None => {},
            }
        },
        BuildEventModel::PlanDownload(p) => {
            let news = with_state(m.path_states[p as int], StorePathStateModel::DownloadPlanned);
            let olds = m.path_states[p as int];
            lemma_taken_out_keeps_builds(m.full_summary, olds, news, p, olds.len() as int);
            lemma_added_keeps_builds(
                states_taken_out(m.full_summary, olds, news, p, olds.len() as int),
                news,
                olds,
                p,
                news.len() as int,
            );
        },
        BuildEventModel::TransferStarted { path, download, host, activity_id } => {
            let news = states_on_start(m.path_states[path as int], download, host, now, activity_id);
            let olds = m.path_states[path as int];
            lemma_taken_out_keeps_builds(m.full_summary, olds, news, path, olds.len() as int);
            lemma_added_keeps_builds(
                states_taken_out(m.full_summary, olds, news, path, olds.len() as int),
                news,
                olds,
                path,
                news.len() as int,
            );
        },
        BuildEventModel::TransferFinished { path, download, host } => {
            let news = states_on_finish(m.path_states[path as int], download, host, now);
            let olds = m.path_states[path as int];
            lemma_taken_out_keeps_builds(m.full_summary, olds, news, path, olds.len() as int);
            lemma_added_keeps_builds(
                states_taken_out(m.full_summary, olds, news, path, olds.len() as int),
                news,
                olds,
                path,
                news.len() as int,
            );
        },
    }
}

/// A new derivation is unknown, so it keeps the whole summary's builds
/// exactly those of the derivations with each status.
pub proof fn lemma_new_derivation_keeps_builds_summarised(m: BuildStateModel)
    requires
        builds_summarised(m),
    ensures
        builds_summarised(BuildStateModel { statuses: m.statuses.push(BuildStatusModel::Unknown), ..m }),
{
    let m2 = BuildStateModel { statuses: m.statuses.push(BuildStatusModel::Unknown), ..m };
    assert forall|x: usize| x < m.statuses.len() implies m2.statuses[x as int] == m.statuses[x as int] by {}
    assert(m2.statuses[m.statuses.len() as int] is Unknown);
}

/// A build's life through events: one that starts (and was not running)
/// runs from then on, on its host; once it finishes it is built, keeping its
/// start and host, ends then, and reports the whole seconds between; once it
/// fails instead it is failed at that time, for that reason. Events about
/// one derivation leave the status of every other as it was.
pub proof fn lemma_build_lifecycle(
    m: BuildStateModel,
    d: usize,
    host: HostModel,
    estimate: Option<i64>,
    activity_id: Option<u64>,
    t1: u64,
    t2: u64,
    fail_type: FailType,
)
    requires
        d < m.statuses.len(),
        !(m.statuses[d as int] is Building),
    ensures
        ({
            let m1 = event_applied(m, BuildEventModel::BuildStarted { drv: d, host, estimate, activity_id }, t1);
            let b = crate::build_state::BuildInfoModel { start: t1, host, estimate, activity_id, end: () };
            &&& m1.statuses[d as int] == BuildStatusModel::Building(b)
            &&& finished_seconds(m1, BuildEventModel::BuildFinished(d), t2) == Some(seconds_between(t1, t2))
            &&& event_applied(m1, BuildEventModel::BuildFinished(d), t2).statuses[d as int] == BuildStatusModel::Built(
                crate::build_state::BuildInfoModel { start: t1, host, estimate, activity_id, end: t2 },
            )
            &&& event_applied(m1, BuildEventModel::BuildFailed { drv: d, fail_type }, t2).statuses[d as int]
                == BuildStatusModel::Failed(crate::build_state::BuildInfoModel {
                start: t1,
                host,
                estimate,
                activity_id,
                end: crate::build_state::BuildFail { at: t2, fail_type },
            })
            &&& forall|x: int| 0 <= x < m.statuses.len() && x != d ==> #[trigger] m1.statuses[x] == m.statuses[x]
        }),
{
}

} // verus!
