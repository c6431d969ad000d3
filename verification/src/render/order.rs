//! The order of derivations in the tree: failed builds first, then running
//! builds, downloads and uploads (the earliest first), then waiting ones,
//! then finished ones (the latest first).
use vstd::prelude::*;
use crate::build_state::{
    BuildStatus, BuildStatusModel, DependencySummary, StorePathState, StorePathStateModel,
    SummaryModel, TransferInfo, states_view,
};
use crate::idmap::{entries_map, lemma_entries_map_at, IdMap};
use crate::parser::old_style::sat_usize;

verus! {

/// Where a derivation or its summary stands, with the time that orders it
/// among others that stand there (milliseconds).
#[derive(Clone, Copy, Debug, PartialEq, Eq, Structural)]
pub enum SortOrder {
    Failed(u64),
    Building(u64),
    Downloading(u64),
    Uploading(u64),
    Waiting,
    DownloadWaiting,
    Done(u64),
    Downloaded(u64),
    Uploaded(u64),
    Unknown,
}

pub open spec fn order_tag(o: SortOrder) -> int {
    match o {
        SortOrder::Failed(_) => 0,
        SortOrder::Building(_) => 1,
        SortOrder::Downloading(_) => 2,
        SortOrder::Uploading(_) => 3,
        SortOrder::Waiting => 4,
        SortOrder::DownloadWaiting => 5,
        SortOrder::Done(_) => 6,
        SortOrder::Downloaded(_) => 7,
        SortOrder::Uploaded(_) => 8,
        SortOrder::Unknown => 9,
    }
}

/// Whether `a` comes before `b`: by where they stand, then the earlier
/// time first among failed, running, downloading and uploading ones, and
/// the later time first among finished ones.
pub open spec fn order_before(a: SortOrder, b: SortOrder) -> bool {
    match (a, b) {
        (SortOrder::Failed(x), SortOrder::Failed(y)) => x < y,
        (SortOrder::Building(x), SortOrder::Building(y)) => x < y,
        (SortOrder::Downloading(x), SortOrder::Downloading(y)) => x < y,
        (SortOrder::Uploading(x), SortOrder::Uploading(y)) => x < y,
        (SortOrder::Done(x), SortOrder::Done(y)) => x > y,
        (SortOrder::Downloaded(x), SortOrder::Downloaded(y)) => x > y,
        (SortOrder::Uploaded(x), SortOrder::Uploaded(y)) => x > y,
        _ => order_tag(a) < order_tag(b),
    }
}

/// What orders a derivation among its siblings.
#[derive(Clone, Copy, Debug, PartialEq, Eq, Structural)]
pub struct SortKey {
    pub order_this: SortOrder,
    pub order_summary: SortOrder,
    /// Running builds, the derivation's own included (more comes first).
    pub running_builds: usize,
    /// Running downloads (more comes first).
    pub running_downloads: usize,
    /// Planned builds and downloads, the derivation's own included.
    pub waiting_count: usize,
}

/// Whether key `a` comes before key `b`: by the derivation's own order, then
/// its summary's, then more running builds, then more running downloads,
/// then fewer waiting ones.
pub open spec fn key_before(a: SortKey, b: SortKey) -> bool {
    if a.order_this != b.order_this {
        order_before(a.order_this, b.order_this)
    } else if a.order_summary != b.order_summary {
        order_before(a.order_summary, b.order_summary)
    } else if a.running_builds != b.running_builds {
        a.running_builds > b.running_builds
    } else if a.running_downloads != b.running_downloads {
        a.running_downloads > b.running_downloads
    } else {
        a.waiting_count < b.waiting_count
    }
}

fn tag_of(o: SortOrder) -> (r: u8)
    ensures
        r == order_tag(o),
{
    match o {
        SortOrder::Failed(_) => 0,
        SortOrder::Building(_) => 1,
        SortOrder::Downloading(_) => 2,
        SortOrder::Uploading(_) => 3,
        SortOrder::Waiting => 4,
        SortOrder::DownloadWaiting => 5,
        SortOrder::Done(_) => 6,
        SortOrder::Downloaded(_) => 7,
        SortOrder::Uploaded(_) => 8,
        SortOrder::Unknown => 9,
    }
}

/// Whether order `a` comes before `b` (see [`order_before`]).
pub fn order_precedes(a: SortOrder, b: SortOrder) -> (r: bool)
    ensures
        r == order_before(a, b),
{
    match (a, b) {
        (SortOrder::Failed(x), SortOrder::Failed(y)) => x < y,
        (SortOrder::Building(x), SortOrder::Building(y)) => x < y,
        (SortOrder::Downloading(x), SortOrder::Downloading(y)) => x < y,
        (SortOrder::Uploading(x), SortOrder::Uploading(y)) => x < y,
        (SortOrder::Done(x), SortOrder::Done(y)) => x > y,
        (SortOrder::Downloaded(x), SortOrder::Downloaded(y)) => x > y,
        (SortOrder::Uploaded(x), SortOrder::Uploaded(y)) => x > y,
        _ => tag_of(a) < tag_of(b),
    }
}

/// Whether key `a` comes before key `b` (see [`key_before`]).
pub fn key_precedes(a: &SortKey, b: &SortKey) -> (r: bool)
    ensures
        r == key_before(*a, *b),
{
    if a.order_this != b.order_this {
        order_precedes(a.order_this, b.order_this)
    } else if a.order_summary != b.order_summary {
        order_precedes(a.order_summary, b.order_summary)
    } else if a.running_builds != b.running_builds {
        a.running_builds > b.running_builds
    } else if a.running_downloads != b.running_downloads {
        a.running_downloads > b.running_downloads
    } else {
        a.waiting_count < b.waiting_count
    }
}

// ---------------------------------------------------------------------
// The least and the greatest of times
// ---------------------------------------------------------------------

pub open spec fn min_opt(a: Option<u64>, t: u64) -> Option<u64> {
    match a {
        Some(x) => Some(if x <= t { x } else { t }),
        None => Some(t),
    }
}

pub open spec fn max_opt(a: Option<u64>, t: u64) -> Option<u64> {
    match a {
        Some(x) => Some(if x >= t { x } else { t }),
        None => Some(t),
    }
}

/// `t` is the least of the values `f` gives the entries of `m`.
pub open spec fn is_least<V>(m: Map<usize, V>, f: spec_fn(V) -> u64, t: u64) -> bool {
    &&& exists|k: usize| #[trigger] m.dom().contains(k) && f(m[k]) == t
    &&& forall|k: usize| #[trigger] m.dom().contains(k) ==> t <= f(m[k])
}

/// `t` is the greatest of the values `f` gives the entries of `m`.
pub open spec fn is_greatest<V>(m: Map<usize, V>, f: spec_fn(V) -> u64, t: u64) -> bool {
    &&& exists|k: usize| #[trigger] m.dom().contains(k) && f(m[k]) == t
    &&& forall|k: usize| #[trigger] m.dom().contains(k) ==> t >= f(m[k])
}

/// The least of the values `f` gives the entries of `m`, if it has any.
pub open spec fn least_of<V>(m: Map<usize, V>, f: spec_fn(V) -> u64) -> Option<u64> {
    if exists|t: u64| is_least(m, f, t) {
        Some(choose|t: u64| is_least(m, f, t))
    } else {
        None
    }
}

/// The greatest of the values `f` gives the entries of `m`, if it has any.
pub open spec fn greatest_of<V>(m: Map<usize, V>, f: spec_fn(V) -> u64) -> Option<u64> {
    if exists|t: u64| is_greatest(m, f, t) {
        Some(choose|t: u64| is_greatest(m, f, t))
    } else {
        None
    }
}

proof fn lemma_least_found<V: View>(s: Seq<(usize, V)>, f: spec_fn(V::V) -> u64, vals: Seq<u64>, r: Option<u64>)
    requires
        crate::idmap::keys_increasing(s),
        vals.len() == s.len(),
        forall|i: int| 0 <= i < s.len() ==> #[trigger] vals[i] == f(s[i].1@),
        match r {
            Some(t) => (exists|i: int| 0 <= i < vals.len() && vals[i] == t) && forall|i: int| 0 <= i < vals.len() ==> t <= #[trigger] vals[i],
            None => vals.len() == 0,
        },
    ensures
        r == least_of(entries_map(s), f),
{
    let m = entries_map(s);
    match r {
        Some(t) => {
            let i = choose|i: int| 0 <= i < vals.len() && vals[i] == t;
            lemma_entries_map_at(s, i);
            assert forall|k: usize| #[trigger] m.dom().contains(k) implies t <= f(m[k]) by {
                let j = choose|j: int| 0 <= j < s.len() && #[trigger] s[j].0 == k;
                lemma_entries_map_at(s, j);
                assert(t <= vals[j]);
            }
            assert(m.dom().contains(s[i].0) && f(m[s[i].0]) == t);
            assert(is_least(m, f, t));
            let c = choose|c: u64| is_least(m, f, c);
            assert(is_least(m, f, c));
            let kc = choose|k: usize| #[trigger] m.dom().contains(k) && f(m[k]) == c;
            assert(t <= f(m[kc]));
            assert(c <= f(m[s[i].0]));
        },
        None => {
            if exists|t: u64| is_least(m, f, t) {
                let t = choose|t: u64| is_least(m, f, t);
                let k = choose|k: usize| #[trigger] m.dom().contains(k) && f(m[k]) == t;
                assert(crate::idmap::has_key(s, k));
            }
        },
    }
}

proof fn lemma_greatest_found<V: View>(s: Seq<(usize, V)>, f: spec_fn(V::V) -> u64, vals: Seq<u64>, r: Option<u64>)
    requires
        crate::idmap::keys_increasing(s),
        vals.len() == s.len(),
        forall|i: int| 0 <= i < s.len() ==> #[trigger] vals[i] == f(s[i].1@),
        match r {
            Some(t) => (exists|i: int| 0 <= i < vals.len() && vals[i] == t) && forall|i: int| 0 <= i < vals.len() ==> t >= #[trigger] vals[i],
            None => vals.len() == 0,
        },
    ensures
        r == greatest_of(entries_map(s), f),
{
    let m = entries_map(s);
    match r {
        Some(t) => {
            let i = choose|i: int| 0 <= i < vals.len() && vals[i] == t;
            lemma_entries_map_at(s, i);
            assert forall|k: usize| #[trigger] m.dom().contains(k) implies t >= f(m[k]) by {
                let j = choose|j: int| 0 <= j < s.len() && #[trigger] s[j].0 == k;
                lemma_entries_map_at(s, j);
                assert(t >= vals[j]);
            }
            assert(m.dom().contains(s[i].0) && f(m[s[i].0]) == t);
            assert(is_greatest(m, f, t));
            let c = choose|c: u64| is_greatest(m, f, c);
            assert(is_greatest(m, f, c));
            let kc = choose|k: usize| #[trigger] m.dom().contains(k) && f(m[k]) == c;
            assert(t >= f(m[kc]));
            assert(c >= f(m[s[i].0]));
        },
        None => {
            if exists|t: u64| is_greatest(m, f, t) {
                let t = choose|t: u64| is_greatest(m, f, t);
                let k = choose|k: usize| #[trigger] m.dom().contains(k) && f(m[k]) == t;
                assert(crate::idmap::has_key(s, k));
            }
        },
    }
}

/// The least of some times, if there are any.
fn least(vals: &Vec<u64>) -> (r: Option<u64>)
    ensures
        match r {
            Some(t) => (exists|i: int| 0 <= i < vals@.len() && vals@[i] == t) && forall|i: int| 0 <= i < vals@.len() ==> t <= #[trigger] vals@[i],
            None => vals@.len() == 0,
        },
{
    if vals.len() == 0 {
        return None;
    }
    let mut best = vals[0];
    let mut i: usize = 1;
    while i < vals.len()
        invariant
            1 <= i <= vals.len(),
            exists|j: int| 0 <= j < i && vals@[j] == best,
            forall|j: int| 0 <= j < i ==> best <= #[trigger] vals@[j],
        decreases vals.len() - i,
    {
        if vals[i] < best {
            best = vals[i];
        }
        i += 1;
    }
    Some(best)
}

/// The greatest of some times, if there are any.
fn greatest(vals: &Vec<u64>) -> (r: Option<u64>)
    ensures
        match r {
            Some(t) => (exists|i: int| 0 <= i < vals@.len() && vals@[i] == t) && forall|i: int| 0 <= i < vals@.len() ==> t >= #[trigger] vals@[i],
            None => vals@.len() == 0,
        },
{
    if vals.len() == 0 {
        return None;
    }
    let mut best = vals[0];
    let mut i: usize = 1;
    while i < vals.len()
        invariant
            1 <= i <= vals.len(),
            exists|j: int| 0 <= j < i && vals@[j] == best,
            forall|j: int| 0 <= j < i ==> best >= #[trigger] vals@[j],
        decreases vals.len() - i,
    {
        if vals[i] > best {
            best = vals[i];
        }
        i += 1;
    }
    Some(best)
}

pub open spec fn fail_time() -> spec_fn(crate::build_state::BuildInfoModel<crate::build_state::BuildFail>) -> u64 {
    |b: crate::build_state::BuildInfoModel<crate::build_state::BuildFail>| b.end.at
}

pub open spec fn build_start() -> spec_fn(crate::build_state::BuildInfoModel<()>) -> u64 {
    |b: crate::build_state::BuildInfoModel<()>| b.start
}

pub open spec fn running_start() -> spec_fn(crate::build_state::TransferInfoModel<()>) -> u64 {
    |t: crate::build_state::TransferInfoModel<()>| t.start
}

pub open spec fn done_start() -> spec_fn(crate::build_state::TransferInfoModel<Option<u64>>) -> u64 {
    |t: crate::build_state::TransferInfoModel<Option<u64>>| t.start
}

fn least_fail_time(m: &IdMap<crate::build_state::BuildInfo<crate::build_state::BuildFail>>) -> (r: Option<u64>)
    requires
        m.wf(),
    ensures
        r == least_of(m@, fail_time()),
{
    let mut vals: Vec<u64> = Vec::new();
    let mut i: usize = 0;
    while i < m.entries.len()
        invariant
            i <= m.entries.len(),
            vals@.len() == i,
            forall|j: int| 0 <= j < i ==> #[trigger] vals@[j] == (fail_time())(m.entries@[j].1@),
        decreases m.entries.len() - i,
    {
        vals.push(m.entries[i].1.end.at);
        i += 1;
    }
    let r = least(&vals);
    proof {
        lemma_least_found(m.entries@, fail_time(), vals@, r);
    }
    r
}

fn least_build_start(m: &IdMap<crate::build_state::BuildInfo<()>>) -> (r: Option<u64>)
    requires
        m.wf(),
    ensures
        r == least_of(m@, build_start()),
{
    let mut vals: Vec<u64> = Vec::new();
    let mut i: usize = 0;
    while i < m.entries.len()
        invariant
            i <= m.entries.len(),
            vals@.len() == i,
            forall|j: int| 0 <= j < i ==> #[trigger] vals@[j] == (build_start())(m.entries@[j].1@),
        decreases m.entries.len() - i,
    {
        vals.push(m.entries[i].1.start);
        i += 1;
    }
    let r = least(&vals);
    proof {
        lemma_least_found(m.entries@, build_start(), vals@, r);
    }
    r
}

fn least_transfer_start(m: &IdMap<TransferInfo<()>>) -> (r: Option<u64>)
    requires
        m.wf(),
    ensures
        r == least_of(m@, running_start()),
{
    let mut vals: Vec<u64> = Vec::new();
    let mut i: usize = 0;
    while i < m.entries.len()
        invariant
            i <= m.entries.len(),
            vals@.len() == i,
            forall|j: int| 0 <= j < i ==> #[trigger] vals@[j] == (running_start())(m.entries@[j].1@),
        decreases m.entries.len() - i,
    {
        vals.push(m.entries[i].1.start);
        i += 1;
    }
    let r = least(&vals);
    proof {
        lemma_least_found(m.entries@, running_start(), vals@, r);
    }
    r
}

fn greatest_done_start(m: &IdMap<TransferInfo<Option<u64>>>) -> (r: Option<u64>)
    requires
        m.wf(),
    ensures
        r == greatest_of(m@, done_start()),
{
    let mut vals: Vec<u64> = Vec::new();
    let mut i: usize = 0;
    while i < m.entries.len()
        invariant
            i <= m.entries.len(),
            vals@.len() == i,
            forall|j: int| 0 <= j < i ==> #[trigger] vals@[j] == (done_start())(m.entries@[j].1@),
        decreases m.entries.len() - i,
    {
        vals.push(m.entries[i].1.start);
        i += 1;
    }
    let r = greatest(&vals);
    proof {
        lemma_greatest_found(m.entries@, done_start(), vals@, r);
    }
    r
}

fn min_with(a: Option<u64>, t: Option<u64>) -> (r: Option<u64>)
    ensures
        r == match t {
            Some(x) => min_opt(a, x),
            None => a,
        },
{
    match t {
        Some(x) => match a {
            Some(y) => Some(if y <= x { y } else { x }),
            None => Some(x),
        },
        None => a,
    }
}

fn max_with(a: Option<u64>, t: Option<u64>) -> (r: Option<u64>)
    ensures
        r == match t {
            Some(x) => max_opt(a, x),
            None => a,
        },
{
    match t {
        Some(x) => match a {
            Some(y) => Some(if y >= x { y } else { x }),
            None => Some(x),
        },
        None => a,
    }
}

// ---------------------------------------------------------------------
// The order of a derivation and of its summary
// ---------------------------------------------------------------------

/// The least start of the running transfers of one kind among the first
/// `k` states.
pub open spec fn least_running(s: Seq<StorePathStateModel>, download: bool, k: int) -> Option<u64>
    decreases k,
{
    if k <= 0 {
        None
    } else {
        let r = least_running(s, download, k - 1);
        match s[k - 1] {
            StorePathStateModel::Downloading(t) => if download { min_opt(r, t.start) } else { r },
            StorePathStateModel::Uploading(t) => if download { r } else { min_opt(r, t.start) },
            _ => r,
        }
    }
}

/// The greatest start of the completed transfers of one kind among the
/// first `k` states.
pub open spec fn latest_done(s: Seq<StorePathStateModel>, download: bool, k: int) -> Option<u64>
    decreases k,
{
    if k <= 0 {
        None
    } else {
        let r = latest_done(s, download, k - 1);
        match s[k - 1] {
            StorePathStateModel::Downloaded(t) => if download { max_opt(r, t.start) } else { r },
            StorePathStateModel::Uploaded(t) => if download { r } else { max_opt(r, t.start) },
            _ => r,
        }
    }
}

/// Where a derivation itself stands, from its status and the states of its
/// outputs: a failed or running build, then the earliest running download
/// or upload of an output, then a planned build, a planned download, a
/// built derivation, and the latest completed download or upload.
pub open spec fn node_order(status: BuildStatusModel, s: Seq<StorePathStateModel>) -> SortOrder {
    let n = s.len() as int;
    match status {
        BuildStatusModel::Failed(b) => SortOrder::Failed(b.end.at),
        BuildStatusModel::Building(b) => SortOrder::Building(b.start),
        _ => match least_running(s, true, n) {
            Some(t) => SortOrder::Downloading(t),
            None => match least_running(s, false, n) {
                Some(t) => SortOrder::Uploading(t),
                None => if status is Planned {
                    SortOrder::Waiting
                } else if s.contains(StorePathStateModel::DownloadPlanned) {
                    SortOrder::DownloadWaiting
                } else {
                    match status {
                        BuildStatusModel::Built(b) => SortOrder::Done(b.end),
                        _ => match latest_done(s, true, n) {
                            Some(t) => SortOrder::Downloaded(t),
                            None => match latest_done(s, false, n) {
                                Some(t) => SortOrder::Uploaded(t),
                                None => SortOrder::Unknown,
                            },
                        },
                    }
                },
            },
        },
    }
}

/// Where a derivation's summary stands, the derivation's own status
/// included: the earliest failure, the earliest running build, download and
/// upload, then waiting builds and downloads, then the latest completed
/// build, download and upload.
pub open spec fn summary_order(sm: SummaryModel, status: BuildStatusModel) -> SortOrder {
    let failed = match status {
        BuildStatusModel::Failed(b) => min_opt(least_of(sm.failed_builds, fail_time()), b.end.at),
        _ => least_of(sm.failed_builds, fail_time()),
    };
    let building = match status {
        BuildStatusModel::Building(b) => min_opt(least_of(sm.running_builds, build_start()), b.start),
        _ => least_of(sm.running_builds, build_start()),
    };
    let done = match status {
        BuildStatusModel::Built(b) => max_opt(sm.latest_completed_build_end, b.end),
        _ => sm.latest_completed_build_end,
    };
    match failed {
        Some(t) => SortOrder::Failed(t),
        None => match building {
            Some(t) => SortOrder::Building(t),
            None => match least_of(sm.running_downloads, running_start()) {
                Some(t) => SortOrder::Downloading(t),
                None => match least_of(sm.running_uploads, running_start()) {
                    Some(t) => SortOrder::Uploading(t),
                    None => if sm.planned_builds != Set::<usize>::empty() || status is Planned {
                        SortOrder::Waiting
                    } else if sm.planned_downloads != Set::<usize>::empty() {
                        SortOrder::DownloadWaiting
                    } else {
                        match done {
                            Some(t) => SortOrder::Done(t),
                            None => match sm.latest_completed_download_start {
                                Some(t) => SortOrder::Downloaded(t),
                                None => match greatest_of(sm.completed_uploads, done_start()) {
                                    Some(t) => SortOrder::Uploaded(t),
                                    None => SortOrder::Unknown,
                                },
                            },
                        }
                    },
                },
            },
        },
    }
}

/// Where a derivation itself stands (see [`node_order`]), from its status
/// and the states of all its outputs.
pub fn sort_order_for_this_node(status: &BuildStatus, out_states: &Vec<StorePathState>) -> (r: SortOrder)
    ensures
        r == node_order(status@, states_view(out_states@)),
{
    match status {
        BuildStatus::Failed(b) => return SortOrder::Failed(b.end.at),
        BuildStatus::Building(b) => return SortOrder::Building(b.start),
        _ => {},
    }
    let ghost sv = states_view(out_states@);
    let mut min_dl: Option<u64> = None;
    let mut min_ul: Option<u64> = None;
    let mut planned = false;
    let mut max_dl: Option<u64> = None;
    let mut max_ul: Option<u64> = None;
    let mut i: usize = 0;
    while i < out_states.len()
        invariant
            i <= out_states.len(),
            sv == states_view(out_states@),
            min_dl == least_running(sv, true, i as int),
            min_ul == least_running(sv, false, i as int),
            max_dl == latest_done(sv, true, i as int),
            max_ul == latest_done(sv, false, i as int),
            planned == sv.take(i as int).contains(StorePathStateModel::DownloadPlanned),
        decreases out_states.len() - i,
    {
        assert(sv[i as int] == out_states@[i as int]@);
        match &out_states[i] {
            StorePathState::Downloading(t) => min_dl = min_with(min_dl, Some(t.start)),
            StorePathState::Uploading(t) => min_ul = min_with(min_ul, Some(t.start)),
            StorePathState::DownloadPlanned => planned = true,
            StorePathState::Downloaded(t) => max_dl = max_with(max_dl, Some(t.start)),
            StorePathState::Uploaded(t) => max_ul = max_with(max_ul, Some(t.start)),
        }
        proof {
            let t1 = sv.take(i + 1);
            assert(t1 =~= sv.take(i as int).push(sv[i as int]));
            assert(t1.contains(StorePathStateModel::DownloadPlanned) <==> (sv.take(i as int).contains(
                StorePathStateModel::DownloadPlanned,
            ) || sv[i as int] == StorePathStateModel::DownloadPlanned)) by {
                if t1.contains(StorePathStateModel::DownloadPlanned) {
                    let j = choose|j: int| 0 <= j < t1.len() && t1[j] == StorePathStateModel::DownloadPlanned;
                    if j < i {
                        assert(sv.take(i as int)[j] == t1[j]);
                    }
                }
                if sv.take(i as int).contains(StorePathStateModel::DownloadPlanned) {
                    let j = choose|j: int| 0 <= j < i && sv.take(i as int)[j] == StorePathStateModel::DownloadPlanned;
                    assert(t1[j] == sv.take(i as int)[j]);
                }
                if sv[i as int] == StorePathStateModel::DownloadPlanned {
                    assert(t1[i as int] == sv[i as int]);
                }
            }
        }
        i += 1;
    }
    assert(sv.take(sv.len() as int) =~= sv);
    if let Some(t) = min_dl {
        return SortOrder::Downloading(t);
    }
    if let Some(t) = min_ul {
        return SortOrder::Uploading(t);
    }
    if let BuildStatus::Planned = status {
        return SortOrder::Waiting;
    }
    if planned {
        return SortOrder::DownloadWaiting;
    }
    if let BuildStatus::Built(b) = status {
        return SortOrder::Done(b.end);
    }
    if let Some(t) = max_dl {
        return SortOrder::Downloaded(t);
    }
    if let Some(t) = max_ul {
        return SortOrder::Uploaded(t);
    }
    SortOrder::Unknown
}

/// Where a derivation's summary stands, its own status included (see
/// [`summary_order`]).
pub fn sort_order_for_summary_including_root(summary: &DependencySummary, status: &BuildStatus) -> (r: SortOrder)
    requires
        summary.wf(),
    ensures
        r == summary_order(summary@, status@),
{
    let failed = min_with(
        least_fail_time(&summary.failed_builds),
        match status {
            BuildStatus::Failed(b) => Some(b.end.at),
            _ => None,
        },
    );
    if let Some(t) = failed {
        return SortOrder::Failed(t);
    }
    let building = min_with(
        least_build_start(&summary.running_builds),
        match status {
            BuildStatus::Building(b) => Some(b.start),
            _ => None,
        },
    );
    if let Some(t) = building {
        return SortOrder::Building(t);
    }
    if let Some(t) = least_transfer_start(&summary.running_downloads) {
        return SortOrder::Downloading(t);
    }
    if let Some(t) = least_transfer_start(&summary.running_uploads) {
        return SortOrder::Uploading(t);
    }
    let is_planned = match status {
        BuildStatus::Planned => true,
        _ => false,
    };
    if !summary.planned_builds.is_empty() || is_planned {
        return SortOrder::Waiting;
    }
    if !summary.planned_downloads.is_empty() {
        return SortOrder::DownloadWaiting;
    }
    let done = max_with(
        summary.latest_completed_build_end,
        match status {
            BuildStatus::Built(b) => Some(b.end),
            _ => None,
        },
    );
    if let Some(t) = done {
        return SortOrder::Done(t);
    }
    if let Some(t) = summary.latest_completed_download_start {
        return SortOrder::Downloaded(t);
    }
    if let Some(t) = greatest_done_start(&summary.completed_uploads) {
        return SortOrder::Uploaded(t);
    }
    SortOrder::Unknown
}

/// What orders a derivation among its siblings: its own order, its
/// summary's, its running builds and downloads, and its waiting builds and
/// downloads, its own status counted in.
pub fn calculate_sort_key(status: &BuildStatus, summary: &DependencySummary, out_states: &Vec<StorePathState>) -> (r: SortKey)
    requires
        summary.wf(),
    ensures
        r.order_this == node_order(status@, states_view(out_states@)),
        r.order_summary == summary_order(summary@, status@),
        r.running_builds == sat_usize(summary@.running_builds.len() + (if status@ is Building { 1int } else { 0int })),
        r.running_downloads == summary@.running_downloads.len(),
        r.waiting_count == sat_usize(summary@.planned_builds.len() + (if status@ is Planned { 1int } else { 0int })
            + summary@.planned_downloads.len()),
{
    let building: usize = match status {
        BuildStatus::Building(_) => 1,
        _ => 0,
    };
    let planned: usize = match status {
        BuildStatus::Planned => 1,
        _ => 0,
    };
    let running = summary.running_builds.len();
    let downloads = summary.running_downloads.len();
    let planned_builds = summary.planned_builds.len();
    let planned_downloads = summary.planned_downloads.len();
    SortKey {
        order_this: sort_order_for_this_node(status, out_states),
        order_summary: sort_order_for_summary_including_root(summary, status),
        running_builds: running.saturating_add(building),
        running_downloads: downloads,
        waiting_count: planned_builds.saturating_add(planned).saturating_add(planned_downloads),
    }
}


// ---------------------------------------------------------------------
// Laws
// ---------------------------------------------------------------------

/// The order of where derivations stand is a strict total order.
pub proof fn lemma_order_is_strict_total(a: SortOrder, b: SortOrder, c: SortOrder)
    ensures
        !order_before(a, a),
        order_before(a, b) && order_before(b, c) ==> order_before(a, c),
        a != b ==> order_before(a, b) || order_before(b, a),
{
}

/// The order of sort keys is a strict total order, so sorting by it gives
/// one order whatever the order before.
pub proof fn lemma_key_order_is_strict_total(a: SortKey, b: SortKey, c: SortKey)
    ensures
        !key_before(a, a),
        key_before(a, b) && key_before(b, c) ==> key_before(a, c),
        a != b ==> key_before(a, b) || key_before(b, a),
{
    lemma_order_is_strict_total(a.order_this, a.order_this, a.order_this);
    lemma_order_is_strict_total(a.order_this, b.order_this, c.order_this);
    lemma_order_is_strict_total(b.order_this, a.order_this, c.order_this);
    lemma_order_is_strict_total(a.order_summary, b.order_summary, c.order_summary);
    lemma_order_is_strict_total(b.order_summary, a.order_summary, c.order_summary);
    lemma_order_is_strict_total(a.order_summary, a.order_summary, a.order_summary);
}

/// Where derivations stand orders them first: failed ones, then running
/// builds, downloads and uploads, then waiting builds and downloads, then
/// finished builds, downloads and uploads, then unknown ones. Among failed
/// and running ones the earlier time comes first; among finished ones the
/// later time.
pub proof fn lemma_order_by_standing_then_time(x: u64, y: u64)
    ensures
        order_before(SortOrder::Failed(x), SortOrder::Failed(y)) == (x < y),
        order_before(SortOrder::Building(x), SortOrder::Building(y)) == (x < y),
        order_before(SortOrder::Downloading(x), SortOrder::Downloading(y)) == (x < y),
        order_before(SortOrder::Uploading(x), SortOrder::Uploading(y)) == (x < y),
        order_before(SortOrder::Done(x), SortOrder::Done(y)) == (x > y),
        order_before(SortOrder::Downloaded(x), SortOrder::Downloaded(y)) == (x > y),
        order_before(SortOrder::Uploaded(x), SortOrder::Uploaded(y)) == (x > y),
        order_before(SortOrder::Failed(x), SortOrder::Building(y)),
        order_before(SortOrder::Building(x), SortOrder::Downloading(y)),
        order_before(SortOrder::Downloading(x), SortOrder::Uploading(y)),
        order_before(SortOrder::Uploading(x), SortOrder::Waiting),
        order_before(SortOrder::Waiting, SortOrder::DownloadWaiting),
        order_before(SortOrder::DownloadWaiting, SortOrder::Done(y)),
        order_before(SortOrder::Done(x), SortOrder::Downloaded(y)),
        order_before(SortOrder::Downloaded(x), SortOrder::Uploaded(y)),
        order_before(SortOrder::Uploaded(x), SortOrder::Unknown),
{
}

/// Siblings are ordered by where they stand themselves, then by where their
/// summaries stand; among equals, the one with more running builds comes
/// first, then the one with more running downloads, then the one with fewer
/// waiting builds and downloads.
pub proof fn lemma_siblings_by_standing_then_work(a: SortKey, b: SortKey)
    ensures
        a.order_this != b.order_this ==> key_before(a, b) == order_before(a.order_this, b.order_this),
        a.order_this == b.order_this && a.order_summary != b.order_summary ==> key_before(a, b) == order_before(
            a.order_summary,
            b.order_summary,
        ),
        a.order_this == b.order_this && a.order_summary == b.order_summary && a.running_builds > b.running_builds
            ==> key_before(a, b) && !key_before(b, a),
        a.order_this == b.order_this && a.order_summary == b.order_summary && a.running_builds == b.running_builds
            && a.running_downloads > b.running_downloads ==> key_before(a, b) && !key_before(b, a),
        a.order_this == b.order_this && a.order_summary == b.order_summary && a.running_builds == b.running_builds
            && a.running_downloads == b.running_downloads ==> key_before(a, b) == (a.waiting_count < b.waiting_count),
{
}

/// A finite map with an entry has a least value under `f`.
proof fn lemma_least_exists<V>(m: Map<usize, V>, f: spec_fn(V) -> u64, k: usize)
    requires
        m.dom().finite(),
        m.dom().contains(k),
    ensures
        least_of(m, f) matches Some(t) && is_least(m, f, t),
    decreases m.dom().len(),
{
    let m2 = m.remove(k);
    assert(m2.dom() =~= m.dom().remove(k));
    let t = if exists|j: usize| m2.dom().contains(j) {
        let j = choose|j: usize| m2.dom().contains(j);
        lemma_least_exists(m2, f, j);
        let t2 = least_of(m2, f)->Some_0;
        let kj = choose|kj: usize| #[trigger] m2.dom().contains(kj) && f(m2[kj]) == t2;
        assert(m.dom().contains(kj) && m[kj] == m2[kj]);
        if t2 <= f(m[k]) {
            t2
        } else {
            f(m[k])
        }
    } else {
        f(m[k])
    };
    assert forall|j: usize| #[trigger] m.dom().contains(j) implies t <= f(m[j]) by {
        if j != k {
            assert(m2.dom().contains(j));
            assert(m2[j] == m[j]);
        }
    }
    assert(is_least(m, f, t));
    let c = choose|c: u64| is_least(m, f, c);
    assert(is_least(m, f, c));
}

/// The least of the values of a finite map, where it has entries.
proof fn lemma_least_of<V>(m: Map<usize, V>, f: spec_fn(V) -> u64)
    requires
        m.dom().finite(),
    ensures
        (exists|k: usize| m.dom().contains(k)) ==> (least_of(m, f) matches Some(t) && is_least(m, f, t)),
        !(exists|k: usize| m.dom().contains(k)) ==> least_of(m, f) is None,
{
    if exists|k: usize| m.dom().contains(k) {
        let k = choose|k: usize| m.dom().contains(k);
        lemma_least_exists(m, f, k);
    } else {
        if exists|t: u64| is_least(m, f, t) {
            let t = choose|t: u64| is_least(m, f, t);
            let kk = choose|kk: usize| #[trigger] m.dom().contains(kk) && f(m[kk]) == t;
            assert(m.dom().contains(kk));
        }
    }
}

/// When the state is a running transfer of the given kind (a download for
/// `true`), its start.
pub open spec fn running_transfer_start(st: StorePathStateModel, download: bool) -> Option<u64> {
    match st {
        StorePathStateModel::Downloading(t) => if download { Some(t.start) } else { None },
        StorePathStateModel::Uploading(t) => if download { None } else { Some(t.start) },
        _ => None,
    }
}

proof fn lemma_least_running(s: Seq<StorePathStateModel>, download: bool, k: int)
    requires
        0 <= k <= s.len(),
    ensures
        least_running(s, download, k) matches Some(t) ==> (exists|i: int| 0 <= i < k && #[trigger] running_transfer_start(s[i], download) == Some(t))
            && forall|i: int| 0 <= i < k ==> (#[trigger] running_transfer_start(s[i], download) matches Some(u) ==> t <= u),
        least_running(s, download, k) is None ==> forall|i: int| 0 <= i < k ==> #[trigger] running_transfer_start(s[i], download) is None,
    decreases k,
{
    if k > 0 {
        lemma_least_running(s, download, k - 1);
        let r = least_running(s, download, k - 1);
        if let Some(t) = least_running(s, download, k) {
            if running_transfer_start(s[k - 1], download) == Some(t) {
            } else {
                let i = choose|i: int| 0 <= i < k - 1 && #[trigger] running_transfer_start(s[i], download) == Some(r->Some_0);
                assert(running_transfer_start(s[i], download) == Some(t));
            }
        }
    }
}

/// A derivation's own build decides where it stands when it failed (at its
/// end) or runs (at its start), and nothing else makes it stand as failed
/// or building. Otherwise a running download of an output puts it among
/// downloading ones at the earliest such start, and else a running upload
/// among uploading ones at the earliest such start.
pub proof fn lemma_own_build_then_transfers_order_a_node(status: BuildStatusModel, s: Seq<StorePathStateModel>)
    ensures
        status matches BuildStatusModel::Failed(b) ==> node_order(status, s) == SortOrder::Failed(b.end.at),
        status matches BuildStatusModel::Building(b) ==> node_order(status, s) == SortOrder::Building(b.start),
        !(status is Failed) ==> !(node_order(status, s) is Failed),
        !(status is Building) ==> !(node_order(status, s) is Building),
        !(status is Failed) && !(status is Building) && (exists|i: int| 0 <= i < s.len() && s[i] is Downloading) ==> (node_order(status, s) matches SortOrder::Downloading(t)
            && (exists|i: int| 0 <= i < s.len() && #[trigger] running_transfer_start(s[i], true) == Some(t))
            && forall|i: int| 0 <= i < s.len() ==> (#[trigger] running_transfer_start(s[i], true) matches Some(u) ==> t <= u)),
        !(status is Failed) && !(status is Building) && !(exists|i: int| 0 <= i < s.len() && s[i] is Downloading)
            && (exists|i: int| 0 <= i < s.len() && s[i] is Uploading) ==> (node_order(status, s) matches SortOrder::Uploading(t)
            && (exists|i: int| 0 <= i < s.len() && #[trigger] running_transfer_start(s[i], false) == Some(t))
            && forall|i: int| 0 <= i < s.len() ==> (#[trigger] running_transfer_start(s[i], false) matches Some(u) ==> t <= u)),
{
    let n = s.len() as int;
    lemma_least_running(s, true, n);
    lemma_least_running(s, false, n);
    if exists|i: int| 0 <= i < s.len() && s[i] is Downloading {
        let i = choose|i: int| 0 <= i < s.len() && s[i] is Downloading;
        assert(running_transfer_start(s[i], true) is Some);
    }
    if exists|i: int| 0 <= i < s.len() && s[i] is Uploading {
        let i = choose|i: int| 0 <= i < s.len() && s[i] is Uploading;
        assert(running_transfer_start(s[i], false) is Some);
    }
    if !(exists|i: int| 0 <= i < s.len() && s[i] is Downloading) {
        assert forall|i: int| 0 <= i < n implies #[trigger] running_transfer_start(s[i], true) is None by {
            assert(!(s[i] is Downloading));
        }
    }
}

/// When the state is a completed transfer of the given kind (a download for
/// `true`), its start.
pub open spec fn done_transfer_start(st: StorePathStateModel, download: bool) -> Option<u64> {
    match st {
        StorePathStateModel::Downloaded(t) => if download { Some(t.start) } else { None },
        StorePathStateModel::Uploaded(t) => if download { None } else { Some(t.start) },
        _ => None,
    }
}

proof fn lemma_latest_done(s: Seq<StorePathStateModel>, download: bool, k: int)
    requires
        0 <= k <= s.len(),
    ensures
        latest_done(s, download, k) matches Some(t) ==> (exists|i: int| 0 <= i < k && #[trigger] done_transfer_start(s[i], download) == Some(t))
            && forall|i: int| 0 <= i < k ==> (#[trigger] done_transfer_start(s[i], download) matches Some(u) ==> u <= t),
        latest_done(s, download, k) is None ==> forall|i: int| 0 <= i < k ==> #[trigger] done_transfer_start(s[i], download) is None,
    decreases k,
{
    if k > 0 {
        lemma_latest_done(s, download, k - 1);
        let r = latest_done(s, download, k - 1);
        if let Some(t) = latest_done(s, download, k) {
            if done_transfer_start(s[k - 1], download) == Some(t) {
            } else {
                let i = choose|i: int| 0 <= i < k - 1 && #[trigger] done_transfer_start(s[i], download) == Some(r->Some_0);
                assert(done_transfer_start(s[i], download) == Some(t));
            }
        }
    }
}

/// Where nothing of a derivation fails, runs or is transferred, it waits
/// where its build is planned, else waits for a download where one of its
/// outputs is planned to be; else it stands as done at its build's end where
/// it was built, else at the latest completed download of an output, else
/// at the latest completed upload, and is unknown with none of these.
pub proof fn lemma_idle_node_order(status: BuildStatusModel, s: Seq<StorePathStateModel>)
    requires
        !(status is Failed),
        !(status is Building),
        forall|i: int| 0 <= i < s.len() ==> !(s[i] is Downloading) && !(s[i] is Uploading),
    ensures
        status is Planned ==> node_order(status, s) == SortOrder::Waiting,
        !(status is Planned) && s.contains(StorePathStateModel::DownloadPlanned) ==> node_order(status, s) == SortOrder::DownloadWaiting,
        !(status is Planned) && !s.contains(StorePathStateModel::DownloadPlanned) ==> {
            &&& status matches BuildStatusModel::Built(b) ==> node_order(status, s) == SortOrder::Done(b.end)
            &&& !(status is Built) && (exists|i: int| 0 <= i < s.len() && s[i] is Downloaded) ==> (node_order(status, s) matches SortOrder::Downloaded(t)
                && (exists|i: int| 0 <= i < s.len() && #[trigger] done_transfer_start(s[i], true) == Some(t))
                && forall|i: int| 0 <= i < s.len() ==> (#[trigger] done_transfer_start(s[i], true) matches Some(u) ==> u <= t))
            &&& !(status is Built) && !(exists|i: int| 0 <= i < s.len() && s[i] is Downloaded)
                && (exists|i: int| 0 <= i < s.len() && s[i] is Uploaded) ==> (node_order(status, s) matches SortOrder::Uploaded(t)
                && (exists|i: int| 0 <= i < s.len() && #[trigger] done_transfer_start(s[i], false) == Some(t))
                && forall|i: int| 0 <= i < s.len() ==> (#[trigger] done_transfer_start(s[i], false) matches Some(u) ==> u <= t))
            &&& !(status is Built) && !(exists|i: int| 0 <= i < s.len() && (s[i] is Downloaded || s[i] is Uploaded))
                ==> node_order(status, s) == SortOrder::Unknown
        },
{
    let n = s.len() as int;
    lemma_least_running(s, true, n);
    lemma_least_running(s, false, n);
    lemma_latest_done(s, true, n);
    lemma_latest_done(s, false, n);
    assert forall|i: int| 0 <= i < n implies #[trigger] running_transfer_start(s[i], true) is None && running_transfer_start(s[i], false) is None by {
        assert(!(s[i] is Downloading) && !(s[i] is Uploading));
    }
    if least_running(s, true, n) is Some {
        let i = choose|i: int| 0 <= i < n && #[trigger] running_transfer_start(s[i], true) == Some(least_running(s, true, n)->Some_0);
        assert(running_transfer_start(s[i], true) is None);
    }
    if least_running(s, false, n) is Some {
        let i = choose|i: int| 0 <= i < n && #[trigger] running_transfer_start(s[i], false) == Some(least_running(s, false, n)->Some_0);
        assert(running_transfer_start(s[i], false) is None);
    }
    if exists|i: int| 0 <= i < s.len() && s[i] is Downloaded {
        let i = choose|i: int| 0 <= i < s.len() && s[i] is Downloaded;
        assert(done_transfer_start(s[i], true) is Some);
    } else {
        assert forall|i: int| 0 <= i < n implies #[trigger] done_transfer_start(s[i], true) is None by {
            assert(!(s[i] is Downloaded));
        }
        if latest_done(s, true, n) is Some {
            let i = choose|i: int| 0 <= i < n && #[trigger] done_transfer_start(s[i], true) == Some(latest_done(s, true, n)->Some_0);
            assert(done_transfer_start(s[i], true) is None);
        }
    }
    if exists|i: int| 0 <= i < s.len() && s[i] is Uploaded {
        let i = choose|i: int| 0 <= i < s.len() && s[i] is Uploaded;
        assert(done_transfer_start(s[i], false) is Some);
    } else {
        assert forall|i: int| 0 <= i < n implies #[trigger] done_transfer_start(s[i], false) is None by {
            assert(!(s[i] is Uploaded));
        }
        if latest_done(s, false, n) is Some {
            let i = choose|i: int| 0 <= i < n && #[trigger] done_transfer_start(s[i], false) == Some(latest_done(s, false, n)->Some_0);
            assert(done_transfer_start(s[i], false) is None);
        }
    }
}

/// Without any failure, a summary stands where its most urgent work is:
/// among running builds at the earliest start where a build runs (its own
/// included); else among running downloads at the earliest start; else
/// among running uploads at the earliest start; else waiting exactly where a
/// build is planned (its own included); else waiting for downloads exactly
/// where one is planned.
pub proof fn lemma_summary_stands_at_most_urgent_work(sm: SummaryModel, status: BuildStatusModel)
    requires
        sm.failed_builds.dom().finite(),
        sm.running_builds.dom().finite(),
        sm.running_downloads.dom().finite(),
        sm.running_uploads.dom().finite(),
        !(exists|k: usize| sm.failed_builds.dom().contains(k)),
        !(status is Failed),
    ensures
        (exists|k: usize| sm.running_builds.dom().contains(k)) || status is Building ==> (summary_order(sm, status) matches SortOrder::Building(t)
            && (forall|k: usize| #[trigger] sm.running_builds.dom().contains(k) ==> t <= sm.running_builds[k].start)
            && (status matches BuildStatusModel::Building(b) ==> t <= b.start)
            && ((exists|k: usize| #[trigger] sm.running_builds.dom().contains(k) && sm.running_builds[k].start == t)
                || (status matches BuildStatusModel::Building(b) && b.start == t))),
        !(exists|k: usize| sm.running_builds.dom().contains(k)) && !(status is Building) ==> {
            &&& (exists|k: usize| sm.running_downloads.dom().contains(k)) ==> (summary_order(sm, status) matches SortOrder::Downloading(t)
                && (forall|k: usize| #[trigger] sm.running_downloads.dom().contains(k) ==> t <= sm.running_downloads[k].start)
                && (exists|k: usize| #[trigger] sm.running_downloads.dom().contains(k) && sm.running_downloads[k].start == t))
            &&& !(exists|k: usize| sm.running_downloads.dom().contains(k)) && (exists|k: usize| sm.running_uploads.dom().contains(k))
                ==> (summary_order(sm, status) matches SortOrder::Uploading(t)
                && (forall|k: usize| #[trigger] sm.running_uploads.dom().contains(k) ==> t <= sm.running_uploads[k].start)
                && (exists|k: usize| #[trigger] sm.running_uploads.dom().contains(k) && sm.running_uploads[k].start == t))
            &&& !(exists|k: usize| sm.running_downloads.dom().contains(k)) && !(exists|k: usize| sm.running_uploads.dom().contains(k))
                ==> ((summary_order(sm, status) == SortOrder::Waiting) <==> (sm.planned_builds != Set::<usize>::empty() || status is Planned))
            &&& !(exists|k: usize| sm.running_downloads.dom().contains(k)) && !(exists|k: usize| sm.running_uploads.dom().contains(k))
                && sm.planned_builds == Set::<usize>::empty() && !(status is Planned)
                ==> ((summary_order(sm, status) == SortOrder::DownloadWaiting) <==> sm.planned_downloads != Set::<usize>::empty())
        },
{
    lemma_least_of(sm.failed_builds, fail_time());
    lemma_least_of(sm.running_builds, build_start());
    lemma_least_of(sm.running_downloads, running_start());
    lemma_least_of(sm.running_uploads, running_start());
    if exists|k: usize| sm.running_builds.dom().contains(k) {
        let c = least_of(sm.running_builds, build_start())->Some_0;
        assert forall|j: usize| #[trigger] sm.running_builds.dom().contains(j) implies c <= sm.running_builds[j].start by {
            assert(c <= build_start()(sm.running_builds[j]));
        }
        let kc = choose|kc: usize| #[trigger] sm.running_builds.dom().contains(kc) && build_start()(sm.running_builds[kc]) == c;
        assert(sm.running_builds.dom().contains(kc) && sm.running_builds[kc].start == c);
    }
    if exists|k: usize| sm.running_downloads.dom().contains(k) {
        let c = least_of(sm.running_downloads, running_start())->Some_0;
        assert forall|j: usize| #[trigger] sm.running_downloads.dom().contains(j) implies c <= sm.running_downloads[j].start by {
            assert(c <= running_start()(sm.running_downloads[j]));
        }
        let kc = choose|kc: usize| #[trigger] sm.running_downloads.dom().contains(kc) && running_start()(sm.running_downloads[kc]) == c;
        assert(sm.running_downloads.dom().contains(kc) && sm.running_downloads[kc].start == c);
    }
    if exists|k: usize| sm.running_uploads.dom().contains(k) {
        let c = least_of(sm.running_uploads, running_start())->Some_0;
        assert forall|j: usize| #[trigger] sm.running_uploads.dom().contains(j) implies c <= sm.running_uploads[j].start by {
            assert(c <= running_start()(sm.running_uploads[j]));
        }
        let kc = choose|kc: usize| #[trigger] sm.running_uploads.dom().contains(kc) && running_start()(sm.running_uploads[kc]) == c;
        assert(sm.running_uploads.dom().contains(kc) && sm.running_uploads[kc].start == c);
    }
}

/// A failed build below a derivation, or its own failure, puts its summary
/// first whatever else runs: the summary stands as failed at the earliest
/// failure. Without any failure it does not stand as failed.
pub proof fn lemma_failure_puts_summary_first(sm: SummaryModel, status: BuildStatusModel)
    requires
        sm.failed_builds.dom().finite(),
    ensures
        (exists|k: usize| sm.failed_builds.dom().contains(k)) || status is Failed ==> (summary_order(sm, status) matches SortOrder::Failed(t)
            && (forall|k: usize| #[trigger] sm.failed_builds.dom().contains(k) ==> t <= sm.failed_builds[k].end.at)
            && (status matches BuildStatusModel::Failed(b) ==> t <= b.end.at)
            && ((exists|k: usize| #[trigger] sm.failed_builds.dom().contains(k) && sm.failed_builds[k].end.at == t)
                || (status matches BuildStatusModel::Failed(b) && b.end.at == t))),
        !(exists|k: usize| sm.failed_builds.dom().contains(k)) && !(status is Failed) ==> !(summary_order(sm, status) is Failed),
{
    let m = sm.failed_builds;
    let f = fail_time();
    if exists|k: usize| m.dom().contains(k) {
        let k = choose|k: usize| m.dom().contains(k);
        lemma_least_exists(m, f, k);
        let c = least_of(m, f)->Some_0;
        assert(is_least(m, f, c));
        assert forall|j: usize| #[trigger] m.dom().contains(j) implies c <= m[j].end.at by {
            assert(c <= f(m[j]));
        }
        let kc = choose|kc: usize| #[trigger] m.dom().contains(kc) && f(m[kc]) == c;
        assert(m.dom().contains(kc) && m[kc].end.at == c);
    } else {
        if exists|t: u64| is_least(m, f, t) {
            let t = choose|t: u64| is_least(m, f, t);
            let kk = choose|kk: usize| #[trigger] m.dom().contains(kk) && f(m[kk]) == t;
            assert(m.dom().contains(kk));
        }
        assert(least_of(m, f) is None);
    }
}

/// Each key comes before every later one (so none is there twice).
pub open spec fn keys_increasing(s: Seq<SortKey>) -> bool {
    forall|i: int, j: int| 0 <= i < j < s.len() ==> key_before(#[trigger] s[i], #[trigger] s[j])
}

/// The place of each key among the distinct keys in order: keys that are
/// equal share a place, and a key's place is the number of distinct keys
/// before it. The distinct keys in order come first.
pub fn key_ranks(keys: &Vec<SortKey>) -> (r: (Vec<SortKey>, Vec<usize>))
    ensures
        keys_increasing(r.0@),
        forall|k: SortKey| r.0@.contains(k) <==> keys@.contains(k),
        r.1@.len() == keys@.len(),
        forall|i: int| 0 <= i < keys@.len() ==> (#[trigger] r.1@[i]) < r.0@.len() && r.0@[r.1@[i] as int] == keys@[i],
{
    let mut d: Vec<SortKey> = Vec::new();
    let mut k: usize = 0;
    while k < keys.len()
        invariant
            k <= keys.len(),
            keys_increasing(d@),
            forall|o: SortKey| d@.contains(o) <==> keys@.take(k as int).contains(o),
        decreases keys.len() - k,
    {
        let x = keys[k];
        let ghost dv = d@;
        let mut p: usize = 0;
        while p < d.len() && key_precedes(&d[p], &x)
            invariant
                p <= d.len(),
                dv == d@,
                forall|j: int| 0 <= j < p ==> key_before(#[trigger] dv[j], x),
            decreases d.len() - p,
        {
            p += 1;
        }
        let present = p < d.len() && d[p] == x;
        if !present {
            d.insert(p, x);
            proof {
                let nv = d@;
                assert(nv =~= dv.insert(p as int, x));
                if p < dv.len() {
                    lemma_key_order_is_strict_total(dv[p as int], x, x);
                    assert(key_before(x, dv[p as int]));
                }
                assert forall|i: int, j: int| 0 <= i < j < nv.len() implies key_before(#[trigger] nv[i], #[trigger] nv[j]) by {
                    if j < p {
                        assert(nv[i] == dv[i] && nv[j] == dv[j]);
                    } else if j == p {
                        assert(nv[i] == dv[i]);
                    } else if i == p {
                        assert(nv[j] == dv[j - 1]);
                        if j - 1 > p {
                            lemma_key_order_is_strict_total(x, dv[p as int], dv[j - 1]);
                        }
                    } else if i < p {
                        assert(nv[i] == dv[i] && nv[j] == dv[j - 1]);
                        lemma_key_order_is_strict_total(dv[i], x, dv[p as int]);
                        if j - 1 > p {
                            lemma_key_order_is_strict_total(dv[i], dv[p as int], dv[j - 1]);
                        }
                    } else {
                        assert(nv[i] == dv[i - 1] && nv[j] == dv[j - 1]);
                    }
                }
            }
        }
        proof {
            let t = keys@.take(k + 1);
            assert(t =~= keys@.take(k as int).push(x));
            assert forall|o: SortKey| d@.contains(o) <==> t.contains(o) by {
                let nv = d@;
                if !present {
                    assert(nv =~= dv.insert(p as int, x));
                    if nv.contains(o) {
                        let i = choose|i: int| 0 <= i < nv.len() && nv[i] == o;
                        if i < p {
                            assert(dv[i] == o);
                        } else if i > p {
                            assert(dv[i - 1] == o);
                        }
                    }
                    if dv.contains(o) {
                        let i = choose|i: int| 0 <= i < dv.len() && dv[i] == o;
                        if i < p {
                            assert(nv[i] == o);
                        } else {
                            assert(nv[i + 1] == o);
                        }
                    }
                    if o == x {
                        assert(nv[p as int] == x);
                    }
                } else {
                    assert(nv == dv);
                    assert(dv[p as int] == x);
                }
                if t.contains(o) {
                    let i = choose|i: int| 0 <= i < t.len() && t[i] == o;
                    if i < k {
                        assert(keys@.take(k as int)[i] == o);
                    }
                }
                if keys@.take(k as int).contains(o) {
                    let i = choose|i: int| 0 <= i < k && keys@.take(k as int)[i] == o;
                    assert(t[i] == o);
                }
                if o == x {
                    assert(t[k as int] == x);
                }
            }
        }
        k += 1;
    }
    assert(keys@.take(keys.len() as int) =~= keys@);
    let mut ranks: Vec<usize> = Vec::new();
    let mut i: usize = 0;
    while i < keys.len()
        invariant
            i <= keys.len(),
            forall|o: SortKey| d@.contains(o) <==> keys@.contains(o),
            ranks@.len() == i,
            forall|j: int| 0 <= j < i ==> (#[trigger] ranks@[j]) < d@.len() && d@[ranks@[j] as int] == keys@[j],
        decreases keys.len() - i,
    {
        let x = keys[i];
        assert(keys@.contains(x));
        let mut p: usize = 0;
        while p < d.len() && d[p] != x
            invariant
                p <= d.len(),
                d@.contains(x),
                forall|j: int| 0 <= j < p ==> d@[j] != x,
            decreases d.len() - p,
        {
            p += 1;
        }
        proof {
            if p == d.len() {
                let j = choose|j: int| 0 <= j < d@.len() && d@[j] == x;
                assert(d@[j] != x);
            }
        }
        ranks.push(p);
        i += 1;
    }
    (d, ranks)
}


/// `r` lists the positions `0..n` each once.
pub open spec fn is_order_of(r: Seq<usize>, n: int) -> bool {
    &&& r.len() == n
    &&& r.no_duplicates()
    &&& forall|i: int| 0 <= i < r.len() ==> #[trigger] r[i] < n
}

/// The positions in `r` follow the keys: no key comes before an earlier
/// one, and positions with equal keys keep their order.
pub open spec fn sorted_stably(keys: Seq<SortKey>, r: Seq<usize>) -> bool {
    &&& forall|i: int, j: int| 0 <= i < j < r.len() ==> !key_before(keys[#[trigger] r[j] as int], keys[#[trigger] r[i] as int])
    &&& forall|i: int, j: int| 0 <= i < j < r.len() && keys[#[trigger] r[i] as int] == keys[#[trigger] r[j] as int] ==> r[i] < r[j]
}

/// The positions of `keys` in the order of the keys, those with equal keys
/// in their own order.
pub fn stable_order(keys: &Vec<SortKey>) -> (r: Vec<usize>)
    ensures
        is_order_of(r@, keys@.len() as int),
        sorted_stably(keys@, r@),
{
    let mut r: Vec<usize> = Vec::new();
    let mut k: usize = 0;
    while k < keys.len()
        invariant
            k <= keys.len(),
            is_order_of(r@, k as int),
            sorted_stably(keys@, r@),
        decreases keys.len() - k,
    {
        let x = keys[k];
        let ghost rv = r@;
        let mut p: usize = 0;
        while p < r.len() && !key_precedes(&x, &keys[r[p]])
            invariant
                p <= r.len(),
                rv == r@,
                is_order_of(rv, k as int),
                k < keys.len(),
                x == keys@[k as int],
                forall|j: int| 0 <= j < p ==> !key_before(x, keys@[#[trigger] rv[j] as int]),
            decreases r.len() - p,
        {
            p += 1;
        }
        r.insert(p, k);
        proof {
            let nv = r@;
            assert(nv =~= rv.insert(p as int, k));
            assert(!rv.contains(k)) by {
                if rv.contains(k) {
                    let j = choose|j: int| 0 <= j < rv.len() && rv[j] == k;
                    assert(rv[j] < k);
                }
            }
            assert forall|a: int, b: int| 0 <= a < nv.len() && 0 <= b < nv.len() && a != b implies nv[a] != nv[b] by {
                if a != p && b != p {
                    let a2 = if a < p { a } else { a - 1 };
                    let b2 = if b < p { b } else { b - 1 };
                    assert(nv[a] == rv[a2] && nv[b] == rv[b2]);
                } else if a == p {
                    let b2 = if b < p { b } else { b - 1 };
                    assert(nv[b] == rv[b2]);
                } else {
                    let a2 = if a < p { a } else { a - 1 };
                    assert(nv[a] == rv[a2]);
                }
            }
            assert forall|i: int| 0 <= i < nv.len() implies #[trigger] nv[i] < k + 1 by {
                if i < p {
                    assert(nv[i] == rv[i]);
                } else if i > p {
                    assert(nv[i] == rv[i - 1]);
                }
            }
            let ks = keys@;
            // Whatever follows the new position comes strictly after it.
            assert forall|j: int| p <= j < rv.len() implies !key_before(ks[rv[j] as int], x) && ks[rv[j] as int] != x by {
                assert(key_before(x, ks[rv[p as int] as int]));
                lemma_key_order_is_strict_total(ks[rv[j] as int], x, ks[rv[p as int] as int]);
                lemma_key_order_is_strict_total(x, x, x);
                if j > p {
                    assert(!key_before(ks[rv[j] as int], ks[rv[p as int] as int]));
                }
            }
            assert forall|a: int, b: int| 0 <= a < b < nv.len() implies !key_before(ks[#[trigger] nv[b] as int], ks[#[trigger] nv[a] as int]) by {
                if b < p {
                    assert(nv[a] == rv[a] && nv[b] == rv[b]);
                } else if b == p {
                    assert(nv[a] == rv[a]);
                } else if a == p {
                    assert(nv[b] == rv[b - 1]);
                } else if a < p {
                    assert(nv[a] == rv[a] && nv[b] == rv[b - 1]);
                } else {
                    assert(nv[a] == rv[a - 1] && nv[b] == rv[b - 1]);
                }
            }
            assert forall|a: int, b: int| 0 <= a < b < nv.len() && ks[#[trigger] nv[a] as int] == ks[#[trigger] nv[b] as int] implies nv[a] < nv[b] by {
                if b < p {
                    assert(nv[a] == rv[a] && nv[b] == rv[b]);
                } else if b == p {
                    assert(nv[a] == rv[a]);
                    assert(rv[a] < k);
                } else if a == p {
                    assert(nv[b] == rv[b - 1]);
                } else if a < p {
                    assert(nv[a] == rv[a] && nv[b] == rv[b - 1]);
                } else {
                    assert(nv[a] == rv[a - 1] && nv[b] == rv[b - 1]);
                }
            }
        }
        k += 1;
    }
    r
}

} // verus!
