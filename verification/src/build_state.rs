//! The state of builds and transfers, with times in whole milliseconds since
//! the monitor started, and the dependency summaries that collect them: which
//! builds are planned, running, done or failed, and which store paths are
//! planned for download, being downloaded or uploaded, or done.
use vstd::prelude::*;
use crate::idmap::{IdMap, IdSet};
use crate::render::DependencyCounts;
use crate::text::str_eq;
use crate::types::{FailType, Host, HostModel};

verus! {

// ---------------------------------------------------------------------
// Builds and transfers
// ---------------------------------------------------------------------

/// When and how a build failed.
#[derive(Clone, Copy, Debug, PartialEq)]
pub struct BuildFail {
    pub at: u64,
    pub fail_type: FailType,
}

/// A build: when it started, on which host, how long it was expected to
/// take (in seconds), the activity that reports it, and how it ended.
#[derive(Clone, Debug, PartialEq)]
pub struct BuildInfo<T> {
    pub start: u64,
    pub host: Host,
    pub estimate: Option<i64>,
    pub activity_id: Option<u64>,
    pub end: T,
}

pub struct BuildInfoModel<T> {
    pub start: u64,
    pub host: HostModel,
    pub estimate: Option<i64>,
    pub activity_id: Option<u64>,
    pub end: T,
}

impl<T> View for BuildInfo<T> {
    type V = BuildInfoModel<T>;

    open spec fn view(&self) -> BuildInfoModel<T> {
        BuildInfoModel {
            start: self.start,
            host: self.host@,
            estimate: self.estimate,
            activity_id: self.activity_id,
            end: self.end,
        }
    }
}

impl<T: Copy> BuildInfo<T> {
    /// A copy of the build.
    pub fn copied(&self) -> (r: Self)
        ensures
            r@ == self@,
    {
        BuildInfo {
            start: self.start,
            host: self.host.copied(),
            estimate: self.estimate,
            activity_id: self.activity_id,
            end: self.end,
        }
    }
}

/// A transfer of a store path: the other host, when it started, the
/// activity that reports it, and how it ended.
#[derive(Clone, Debug, PartialEq)]
pub struct TransferInfo<T> {
    pub host: Host,
    pub start: u64,
    pub activity_id: Option<u64>,
    pub end: T,
}

pub struct TransferInfoModel<T> {
    pub host: HostModel,
    pub start: u64,
    pub activity_id: Option<u64>,
    pub end: T,
}

impl<T> View for TransferInfo<T> {
    type V = TransferInfoModel<T>;

    open spec fn view(&self) -> TransferInfoModel<T> {
        TransferInfoModel { host: self.host@, start: self.start, activity_id: self.activity_id, end: self.end }
    }
}

impl<T: Copy> TransferInfo<T> {
    /// A copy of the transfer.
    pub fn copied(&self) -> (r: Self)
        ensures
            r@ == self@,
    {
        TransferInfo {
            host: self.host.copied(),
            start: self.start,
            activity_id: self.activity_id,
            end: self.end,
        }
    }
}

/// Where a derivation's build stands.
#[derive(Clone, Debug, PartialEq)]
pub enum BuildStatus {
    Unknown,
    Planned,
    Building(BuildInfo<()>),
    Failed(BuildInfo<BuildFail>),
    Built(BuildInfo<u64>),
}

pub enum BuildStatusModel {
    Unknown,
    Planned,
    Building(BuildInfoModel<()>),
    Failed(BuildInfoModel<BuildFail>),
    Built(BuildInfoModel<u64>),
}

impl View for BuildStatus {
    type V = BuildStatusModel;

    open spec fn view(&self) -> BuildStatusModel {
        match self {
            BuildStatus::Unknown => BuildStatusModel::Unknown,
            BuildStatus::Planned => BuildStatusModel::Planned,
            BuildStatus::Building(b) => BuildStatusModel::Building(b@),
            BuildStatus::Failed(b) => BuildStatusModel::Failed(b@),
            BuildStatus::Built(b) => BuildStatusModel::Built(b@),
        }
    }
}

impl BuildStatus {
    /// A copy of the status.
    pub fn copied(&self) -> (r: Self)
        ensures
            r@ == self@,
    {
        match self {
            BuildStatus::Unknown => BuildStatus::Unknown,
            BuildStatus::Planned => BuildStatus::Planned,
            BuildStatus::Building(b) => BuildStatus::Building(b.copied()),
            BuildStatus::Failed(b) => BuildStatus::Failed(b.copied()),
            BuildStatus::Built(b) => BuildStatus::Built(b.copied()),
        }
    }
}

/// One thing known of a store path's transfers.
#[derive(Clone, Debug, PartialEq)]
pub enum StorePathState {
    DownloadPlanned,
    Downloading(TransferInfo<()>),
    Uploading(TransferInfo<()>),
    Downloaded(TransferInfo<Option<u64>>),
    Uploaded(TransferInfo<Option<u64>>),
}

pub enum StorePathStateModel {
    DownloadPlanned,
    Downloading(TransferInfoModel<()>),
    Uploading(TransferInfoModel<()>),
    Downloaded(TransferInfoModel<Option<u64>>),
    Uploaded(TransferInfoModel<Option<u64>>),
}

impl View for StorePathState {
    type V = StorePathStateModel;

    open spec fn view(&self) -> StorePathStateModel {
        match self {
            StorePathState::DownloadPlanned => StorePathStateModel::DownloadPlanned,
            StorePathState::Downloading(t) => StorePathStateModel::Downloading(t@),
            StorePathState::Uploading(t) => StorePathStateModel::Uploading(t@),
            StorePathState::Downloaded(t) => StorePathStateModel::Downloaded(t@),
            StorePathState::Uploaded(t) => StorePathStateModel::Uploaded(t@),
        }
    }
}

impl StorePathState {
    /// A copy of the state.
    pub fn copied(&self) -> (r: Self)
        ensures
            r@ == self@,
    {
        match self {
            StorePathState::DownloadPlanned => StorePathState::DownloadPlanned,
            StorePathState::Downloading(t) => StorePathState::Downloading(t.copied()),
            StorePathState::Uploading(t) => StorePathState::Uploading(t.copied()),
            StorePathState::Downloaded(t) => StorePathState::Downloaded(t.copied()),
            StorePathState::Uploaded(t) => StorePathState::Uploaded(t.copied()),
        }
    }
}

pub open spec fn states_view(s: Seq<StorePathState>) -> Seq<StorePathStateModel> {
    s.map_values(|x: StorePathState| x@)
}

// ---------------------------------------------------------------------
// Comparing
// ---------------------------------------------------------------------

fn same_opt_string(a: &Option<String>, b: &Option<String>) -> (r: bool)
    ensures
        r == (crate::types::opt_string_view(*a) == crate::types::opt_string_view(*b)),
{
    match (a, b) {
        (Some(x), Some(y)) => str_eq(x.as_str(), y.as_str()),
        (None, None) => true,
        _ => false,
    }
}

/// Whether two hosts are the same.
pub fn same_host(a: &Host, b: &Host) -> (r: bool)
    ensures
        r == (a@ == b@),
{
    match (a, b) {
        (Host::Localhost, Host::Localhost) => true,
        (Host::Remote { proto: p1, user: u1, host: h1 }, Host::Remote { proto: p2, user: u2, host: h2 }) => {
            same_opt_string(p1, p2) && same_opt_string(u1, u2) && str_eq(h1.as_str(), h2.as_str())
        },
        _ => false,
    }
}

fn same_fail(a: &FailType, b: &FailType) -> (r: bool)
    ensures
        r == (*a == *b),
{
    match (a, b) {
        (FailType::ExitCode(x), FailType::ExitCode(y)) => *x == *y,
        (FailType::HashMismatch, FailType::HashMismatch) => true,
        _ => false,
    }
}

fn same_build_head<T, U>(a: &BuildInfo<T>, b: &BuildInfo<U>) -> (r: bool)
    ensures
        r == (a.start == b.start && a.host@ == b.host@ && a.estimate == b.estimate && a.activity_id
            == b.activity_id),
{
    a.start == b.start && same_host(&a.host, &b.host) && a.estimate == b.estimate && a.activity_id
        == b.activity_id
}

/// Whether two build statuses are the same.
pub fn same_status(a: &BuildStatus, b: &BuildStatus) -> (r: bool)
    ensures
        r == (a@ == b@),
{
    match (a, b) {
        (BuildStatus::Unknown, BuildStatus::Unknown) => true,
        (BuildStatus::Planned, BuildStatus::Planned) => true,
        (BuildStatus::Building(x), BuildStatus::Building(y)) => same_build_head(x, y),
        (BuildStatus::Failed(x), BuildStatus::Failed(y)) => same_build_head(x, y) && x.end.at == y.end.at
            && same_fail(&x.end.fail_type, &y.end.fail_type),
        (BuildStatus::Built(x), BuildStatus::Built(y)) => same_build_head(x, y) && x.end == y.end,
        _ => false,
    }
}

fn same_transfer_head<T, U>(a: &TransferInfo<T>, b: &TransferInfo<U>) -> (r: bool)
    ensures
        r == (a.host@ == b.host@ && a.start == b.start && a.activity_id == b.activity_id),
{
    same_host(&a.host, &b.host) && a.start == b.start && a.activity_id == b.activity_id
}

/// Whether two store path states are the same.
pub fn same_state(a: &StorePathState, b: &StorePathState) -> (r: bool)
    ensures
        r == (a@ == b@),
{
    match (a, b) {
        (StorePathState::DownloadPlanned, StorePathState::DownloadPlanned) => true,
        (StorePathState::Downloading(x), StorePathState::Downloading(y)) => same_transfer_head(x, y),
        (StorePathState::Uploading(x), StorePathState::Uploading(y)) => same_transfer_head(x, y),
        (StorePathState::Downloaded(x), StorePathState::Downloaded(y)) => same_transfer_head(x, y) && x.end == y.end,
        (StorePathState::Uploaded(x), StorePathState::Uploaded(y)) => same_transfer_head(x, y) && x.end == y.end,
        _ => false,
    }
}

/// Whether `s` holds a state equal to `x`.
pub fn has_state(s: &Vec<StorePathState>, x: &StorePathState) -> (r: bool)
    ensures
        r == states_view(s@).contains(x@),
{
    let mut i: usize = 0;
    while i < s.len()
        invariant
            i <= s.len(),
            forall|j: int| 0 <= j < i ==> states_view(s@)[j] != x@,
        decreases s.len() - i,
    {
        if same_state(&s[i], x) {
            assert(states_view(s@)[i as int] == x@);
            return true;
        }
        i += 1;
    }
    false
}


// ---------------------------------------------------------------------
// Dependency summaries
// ---------------------------------------------------------------------

/// What a summary collects: the derivations and store paths of each kind,
/// with their builds and transfers, the latest end of a completed build and
/// the latest start of a completed download.
#[derive(Clone, Debug)]
pub struct DependencySummary {
    pub planned_builds: IdSet,
    pub running_builds: IdMap<BuildInfo<()>>,
    pub completed_builds: IdMap<BuildInfo<u64>>,
    pub failed_builds: IdMap<BuildInfo<BuildFail>>,
    pub planned_downloads: IdSet,
    pub running_downloads: IdMap<TransferInfo<()>>,
    pub completed_downloads: IdMap<TransferInfo<Option<u64>>>,
    pub running_uploads: IdMap<TransferInfo<()>>,
    pub completed_uploads: IdMap<TransferInfo<Option<u64>>>,
    pub latest_completed_build_end: Option<u64>,
    pub latest_completed_download_start: Option<u64>,
}

pub struct SummaryModel {
    pub planned_builds: Set<usize>,
    pub running_builds: Map<usize, BuildInfoModel<()>>,
    pub completed_builds: Map<usize, BuildInfoModel<u64>>,
    pub failed_builds: Map<usize, BuildInfoModel<BuildFail>>,
    pub planned_downloads: Set<usize>,
    pub running_downloads: Map<usize, TransferInfoModel<()>>,
    pub completed_downloads: Map<usize, TransferInfoModel<Option<u64>>>,
    pub running_uploads: Map<usize, TransferInfoModel<()>>,
    pub completed_uploads: Map<usize, TransferInfoModel<Option<u64>>>,
    pub latest_completed_build_end: Option<u64>,
    pub latest_completed_download_start: Option<u64>,
}

impl View for DependencySummary {
    type V = SummaryModel;

    open spec fn view(&self) -> SummaryModel {
        SummaryModel {
            planned_builds: self.planned_builds@,
            running_builds: self.running_builds@,
            completed_builds: self.completed_builds@,
            failed_builds: self.failed_builds@,
            planned_downloads: self.planned_downloads@,
            running_downloads: self.running_downloads@,
            completed_downloads: self.completed_downloads@,
            running_uploads: self.running_uploads@,
            completed_uploads: self.completed_uploads@,
            latest_completed_build_end: self.latest_completed_build_end,
            latest_completed_download_start: self.latest_completed_download_start,
        }
    }
}

/// The summary that holds nothing.
pub open spec fn empty_summary() -> SummaryModel {
    SummaryModel {
        planned_builds: Set::empty(),
        running_builds: Map::empty(),
        completed_builds: Map::empty(),
        failed_builds: Map::empty(),
        planned_downloads: Set::empty(),
        running_downloads: Map::empty(),
        completed_downloads: Map::empty(),
        running_uploads: Map::empty(),
        completed_uploads: Map::empty(),
        latest_completed_build_end: None,
        latest_completed_download_start: None,
    }
}

/// Whether a summary holds no build and no transfer (the two latest times
/// are not looked at).
pub open spec fn summary_holds_nothing(s: SummaryModel) -> bool {
    &&& s.planned_builds == Set::<usize>::empty()
    &&& s.running_builds == Map::<usize, BuildInfoModel<()>>::empty()
    &&& s.completed_builds == Map::<usize, BuildInfoModel<u64>>::empty()
    &&& s.failed_builds == Map::<usize, BuildInfoModel<BuildFail>>::empty()
    &&& s.planned_downloads == Set::<usize>::empty()
    &&& s.running_downloads == Map::<usize, TransferInfoModel<()>>::empty()
    &&& s.completed_downloads == Map::<usize, TransferInfoModel<Option<u64>>>::empty()
    &&& s.running_uploads == Map::<usize, TransferInfoModel<()>>::empty()
    &&& s.completed_uploads == Map::<usize, TransferInfoModel<Option<u64>>>::empty()
}

/// The larger of a latest time so far and a new one.
pub open spec fn later(cur: Option<u64>, t: u64) -> Option<u64> {
    match cur {
        Some(c) => Some(if c >= t { c } else { t }),
        None => Some(t),
    }
}

/// The summary without derivation `id` in the place its old status put it;
/// the latest completed build end is forgotten once no completed build is
/// left.
pub open spec fn status_cleared(s: SummaryModel, old: BuildStatusModel, id: usize) -> SummaryModel {
    match old {
        BuildStatusModel::Unknown => s,
        BuildStatusModel::Planned => SummaryModel { planned_builds: s.planned_builds.remove(id), ..s },
        BuildStatusModel::Building(_) => SummaryModel { running_builds: s.running_builds.remove(id), ..s },
        BuildStatusModel::Failed(_) => SummaryModel { failed_builds: s.failed_builds.remove(id), ..s },
        BuildStatusModel::Built(_) => {
            let c = s.completed_builds.remove(id);
            SummaryModel {
                completed_builds: c,
                latest_completed_build_end: if c == Map::<usize, BuildInfoModel<u64>>::empty() {
                    None
                } else {
                    s.latest_completed_build_end
                },
                ..s
            }
        },
    }
}

/// The summary once derivation `id` went from status `old` to status `new`:
/// it leaves the place of its old status and takes that of its new one; a
/// completed build moves the latest completed build end on.
pub open spec fn summary_step(s: SummaryModel, old: BuildStatusModel, new: BuildStatusModel, id: usize) -> SummaryModel {
    let c = status_cleared(s, old, id);
    match new {
        BuildStatusModel::Unknown => c,
        BuildStatusModel::Planned => SummaryModel { planned_builds: c.planned_builds.insert(id), ..c },
        BuildStatusModel::Building(b) => SummaryModel { running_builds: c.running_builds.insert(id, b), ..c },
        BuildStatusModel::Failed(b) => SummaryModel { failed_builds: c.failed_builds.insert(id, b), ..c },
        BuildStatusModel::Built(b) => SummaryModel {
            completed_builds: c.completed_builds.insert(id, b),
            latest_completed_build_end: later(c.latest_completed_build_end, b.end),
            ..c
        },
    }
}

/// The summary without store path `id` in the place of one of its states.
pub open spec fn state_removed(s: SummaryModel, st: StorePathStateModel, id: usize) -> SummaryModel {
    match st {
        StorePathStateModel::DownloadPlanned => SummaryModel { planned_downloads: s.planned_downloads.remove(id), ..s },
        StorePathStateModel::Downloading(_) => SummaryModel { running_downloads: s.running_downloads.remove(id), ..s },
        StorePathStateModel::Uploading(_) => SummaryModel { running_uploads: s.running_uploads.remove(id), ..s },
        StorePathStateModel::Downloaded(_) => {
            let c = s.completed_downloads.remove(id);
            SummaryModel {
                completed_downloads: c,
                latest_completed_download_start: if c == Map::<usize, TransferInfoModel<Option<u64>>>::empty() {
                    None
                } else {
                    s.latest_completed_download_start
                },
                ..s
            }
        },
        StorePathStateModel::Uploaded(_) => SummaryModel { completed_uploads: s.completed_uploads.remove(id), ..s },
    }
}

/// The summary with store path `id` in the place of one of its states; a
/// completed download moves the latest completed download start on.
pub open spec fn state_added(s: SummaryModel, st: StorePathStateModel, id: usize) -> SummaryModel {
    match st {
        StorePathStateModel::DownloadPlanned => SummaryModel { planned_downloads: s.planned_downloads.insert(id), ..s },
        StorePathStateModel::Downloading(t) => SummaryModel { running_downloads: s.running_downloads.insert(id, t), ..s },
        StorePathStateModel::Uploading(t) => SummaryModel { running_uploads: s.running_uploads.insert(id, t), ..s },
        StorePathStateModel::Downloaded(t) => SummaryModel {
            completed_downloads: s.completed_downloads.insert(id, t),
            latest_completed_download_start: later(s.latest_completed_download_start, t.start),
            ..s
        },
        StorePathStateModel::Uploaded(t) => SummaryModel { completed_uploads: s.completed_uploads.insert(id, t), ..s },
    }
}

/// The summary once the first `k` of `olds` that `news` does not hold were
/// taken out for store path `id`.
pub open spec fn states_taken_out(
    s: SummaryModel,
    olds: Seq<StorePathStateModel>,
    news: Seq<StorePathStateModel>,
    id: usize,
    k: int,
) -> SummaryModel
    decreases k,
{
    if k <= 0 {
        s
    } else {
        let r = states_taken_out(s, olds, news, id, k - 1);
        if news.contains(olds[k - 1]) {
            r
        } else {
            state_removed(r, olds[k - 1], id)
        }
    }
}

/// The summary once store path `id`'s states went from `olds` to `news`:
/// each state that is gone leaves its place, in the order of `olds`, then
/// each state that is new takes its place, in the order of `news`.
pub open spec fn summary_after_states(
    s: SummaryModel,
    olds: Seq<StorePathStateModel>,
    news: Seq<StorePathStateModel>,
    id: usize,
) -> SummaryModel {
    let r = states_taken_out(s, olds, news, id, olds.len() as int);
    states_taken_out_added(r, news, olds, id, news.len() as int)
}

/// The summary once the first `k` of `news` that `olds` does not hold were
/// put in for store path `id`.
pub open spec fn states_taken_out_added(
    s: SummaryModel,
    news: Seq<StorePathStateModel>,
    olds: Seq<StorePathStateModel>,
    id: usize,
    k: int,
) -> SummaryModel
    decreases k,
{
    if k <= 0 {
        s
    } else {
        let r = states_taken_out_added(s, news, olds, id, k - 1);
        if olds.contains(news[k - 1]) {
            r
        } else {
            state_added(r, news[k - 1], id)
        }
    }
}

impl DependencySummary {
    pub open spec fn wf(&self) -> bool {
        &&& self.planned_builds.wf()
        &&& self.running_builds.wf()
        &&& self.completed_builds.wf()
        &&& self.failed_builds.wf()
        &&& self.planned_downloads.wf()
        &&& self.running_downloads.wf()
        &&& self.completed_downloads.wf()
        &&& self.running_uploads.wf()
        &&& self.completed_uploads.wf()
    }

    /// A summary that holds nothing.
    pub fn new() -> (s: Self)
        ensures
            s.wf(),
            s@ == empty_summary(),
    {
        DependencySummary {
            planned_builds: IdSet::new(),
            running_builds: IdMap::new(),
            completed_builds: IdMap::new(),
            failed_builds: IdMap::new(),
            planned_downloads: IdSet::new(),
            running_downloads: IdMap::new(),
            completed_downloads: IdMap::new(),
            running_uploads: IdMap::new(),
            completed_uploads: IdMap::new(),
            latest_completed_build_end: None,
            latest_completed_download_start: None,
        }
    }

    /// Whether the summary holds no build and no transfer.
    pub fn is_empty(&self) -> (b: bool)
        requires
            self.wf(),
        ensures
            b == summary_holds_nothing(self@),
    {
        self.planned_builds.is_empty() && self.running_builds.is_empty()
            && self.completed_builds.is_empty() && self.failed_builds.is_empty()
            && self.planned_downloads.is_empty() && self.running_downloads.is_empty()
            && self.completed_downloads.is_empty() && self.running_uploads.is_empty()
            && self.completed_uploads.is_empty()
    }

    /// How many builds and transfers of each kind the summary holds.
    pub fn counts(&self) -> (c: DependencyCounts)
        requires
            self.wf(),
        ensures
            c.planned_builds == self@.planned_builds.len(),
            c.running_builds == self@.running_builds.len(),
            c.completed_builds == self@.completed_builds.len(),
            c.failed_builds == self@.failed_builds.len(),
            c.planned_downloads == self@.planned_downloads.len(),
            c.running_downloads == self@.running_downloads.len(),
            c.completed_downloads == self@.completed_downloads.len(),
            c.running_uploads == self@.running_uploads.len(),
            c.completed_uploads == self@.completed_uploads.len(),
    {
        DependencyCounts {
            planned_builds: self.planned_builds.len(),
            running_builds: self.running_builds.len(),
            completed_builds: self.completed_builds.len(),
            failed_builds: self.failed_builds.len(),
            planned_downloads: self.planned_downloads.len(),
            running_downloads: self.running_downloads.len(),
            completed_downloads: self.completed_downloads.len(),
            running_uploads: self.running_uploads.len(),
            completed_uploads: self.completed_uploads.len(),
        }
    }
}

fn later_of(cur: Option<u64>, t: u64) -> (r: Option<u64>)
    ensures
        r == later(cur, t),
{
    match cur {
        Some(c) => Some(if c >= t { c } else { t }),
        None => Some(t),
    }
}

/// Takes derivation `id` out of the place its old status gave it in the
/// summary.
pub fn clear_derivation_from_summary(summary: &mut DependencySummary, old_status: &BuildStatus, id: usize)
    requires
        old(summary).wf(),
    ensures
        final(summary).wf(),
        final(summary)@ == status_cleared(old(summary)@, old_status@, id),
{
    match old_status {
        BuildStatus::Unknown => {},
        BuildStatus::Planned => summary.planned_builds.remove(id),
        BuildStatus::Building(_) => summary.running_builds.remove(id),
        BuildStatus::Failed(_) => summary.failed_builds.remove(id),
        BuildStatus::Built(_) => {
            summary.completed_builds.remove(id);
            if summary.completed_builds.is_empty() {
                summary.latest_completed_build_end = None;
            }
        },
    }
}

/// Moves derivation `id` in the summary from the place of its old status to
/// that of its new one.
pub fn summary_after_status(
    summary: &mut DependencySummary,
    old_status: &BuildStatus,
    new_status: &BuildStatus,
    id: usize,
)
    requires
        old(summary).wf(),
    ensures
        final(summary).wf(),
        final(summary)@ == summary_step(old(summary)@, old_status@, new_status@, id),
{
    clear_derivation_from_summary(summary, old_status, id);
    match new_status {
        BuildStatus::Unknown => {},
        BuildStatus::Planned => summary.planned_builds.insert(id),
        BuildStatus::Building(b) => summary.running_builds.insert(id, b.copied()),
        BuildStatus::Failed(b) => summary.failed_builds.insert(id, b.copied()),
        BuildStatus::Built(b) => {
            summary.latest_completed_build_end = later_of(summary.latest_completed_build_end, b.end);
            summary.completed_builds.insert(id, b.copied());
        },
    }
}

fn remove_state_from_summary(summary: &mut DependencySummary, st: &StorePathState, id: usize)
    requires
        old(summary).wf(),
    ensures
        final(summary).wf(),
        final(summary)@ == state_removed(old(summary)@, st@, id),
{
    match st {
        StorePathState::DownloadPlanned => summary.planned_downloads.remove(id),
        StorePathState::Downloading(_) => summary.running_downloads.remove(id),
        StorePathState::Uploading(_) => summary.running_uploads.remove(id),
        StorePathState::Downloaded(_) => {
            summary.completed_downloads.remove(id);
            if summary.completed_downloads.is_empty() {
                summary.latest_completed_download_start = None;
            }
        },
        StorePathState::Uploaded(_) => summary.completed_uploads.remove(id),
    }
}

fn add_state_to_summary(summary: &mut DependencySummary, st: &StorePathState, id: usize)
    requires
        old(summary).wf(),
    ensures
        final(summary).wf(),
        final(summary)@ == state_added(old(summary)@, st@, id),
{
    match st {
        StorePathState::DownloadPlanned => summary.planned_downloads.insert(id),
        StorePathState::Downloading(t) => summary.running_downloads.insert(id, t.copied()),
        StorePathState::Uploading(t) => summary.running_uploads.insert(id, t.copied()),
        StorePathState::Downloaded(t) => {
            summary.latest_completed_download_start = later_of(
                summary.latest_completed_download_start,
                t.start,
            );
            summary.completed_downloads.insert(id, t.copied());
        },
        StorePathState::Uploaded(t) => summary.completed_uploads.insert(id, t.copied()),
    }
}

/// Moves store path `id` in the summary from the places of its old states to
/// those of its new ones: each state that is gone leaves its place, then
/// each state that is new takes its place.
pub fn summary_after_path_states(
    summary: &mut DependencySummary,
    olds: &Vec<StorePathState>,
    news: &Vec<StorePathState>,
    id: usize,
)
    requires
        old(summary).wf(),
    ensures
        final(summary).wf(),
        final(summary)@ == summary_after_states(old(summary)@, states_view(olds@), states_view(news@), id),
{
    let ghost s0 = summary@;
    let ghost ov = states_view(olds@);
    let ghost nv = states_view(news@);
    let mut k: usize = 0;
    while k < olds.len()
        invariant
            k <= olds.len(),
            summary.wf(),
            ov == states_view(olds@),
            nv == states_view(news@),
            summary@ == states_taken_out(s0, ov, nv, id, k as int),
        decreases olds.len() - k,
    {
        if !has_state(news, &olds[k]) {
            remove_state_from_summary(summary, &olds[k], id);
        }
        k += 1;
    }
    let ghost s1 = summary@;
    k = 0;
    while k < news.len()
        invariant
            k <= news.len(),
            summary.wf(),
            ov == states_view(olds@),
            nv == states_view(news@),
            summary@ == states_taken_out_added(s1, nv, ov, id, k as int),
        decreases news.len() - k,
    {
        if !has_state(olds, &news[k]) {
            add_state_to_summary(summary, &news[k], id);
        }
        k += 1;
    }
}

/// Takes store path `id` out of the places of all of `states`.
pub fn clear_path_states_from_summary(summary: &mut DependencySummary, states: &Vec<StorePathState>, id: usize)
    requires
        old(summary).wf(),
    ensures
        final(summary).wf(),
        final(summary)@ == states_taken_out(
            old(summary)@,
            states_view(states@),
            Seq::empty(),
            id,
            states@.len() as int,
        ),
{
    let ghost s0 = summary@;
    let ghost sv = states_view(states@);
    let mut k: usize = 0;
    while k < states.len()
        invariant
            k <= states.len(),
            summary.wf(),
            sv == states_view(states@),
            summary@ == states_taken_out(s0, sv, Seq::empty(), id, k as int),
        decreases states.len() - k,
    {
        remove_state_from_summary(summary, &states[k], id);
        k += 1;
    }
}


// ---------------------------------------------------------------------
// What an event makes of a status
// ---------------------------------------------------------------------

/// A build that starts: one already running keeps its start, host and
/// estimate and takes the new activity (a remote build is reported twice);
/// any other status becomes a build started at `now` on `host`.
pub open spec fn status_on_start(
    old: BuildStatusModel,
    host: HostModel,
    now: u64,
    estimate: Option<i64>,
    activity_id: Option<u64>,
) -> BuildStatusModel {
    match old {
        BuildStatusModel::Building(b) => BuildStatusModel::Building(BuildInfoModel { activity_id, ..b }),
        _ => BuildStatusModel::Building(
            BuildInfoModel { start: now, host, estimate, activity_id, end: () },
        ),
    }
}

/// A build that fails at `now`: a running or built one becomes failed,
/// keeping its start, host, estimate and activity; any other status is left
/// as it is (`None`).
pub open spec fn status_on_failure(old: BuildStatusModel, fail_type: FailType, now: u64) -> Option<BuildStatusModel> {
    match old {
        BuildStatusModel::Building(b) => Some(BuildStatusModel::Failed(BuildInfoModel {
            start: b.start,
            host: b.host,
            estimate: b.estimate,
            activity_id: b.activity_id,
            end: BuildFail { at: now, fail_type },
        })),
        BuildStatusModel::Built(b) => Some(BuildStatusModel::Failed(BuildInfoModel {
            start: b.start,
            host: b.host,
            estimate: b.estimate,
            activity_id: b.activity_id,
            end: BuildFail { at: now, fail_type },
        })),
        _ => None,
    }
}

/// A build that finishes at `now`: a running one becomes built; any other
/// status is left as it is (`None`).
pub open spec fn status_on_finish(old: BuildStatusModel, now: u64) -> Option<BuildStatusModel> {
    match old {
        BuildStatusModel::Building(b) => Some(BuildStatusModel::Built(BuildInfoModel {
            start: b.start,
            host: b.host,
            estimate: b.estimate,
            activity_id: b.activity_id,
            end: now,
        })),
        _ => None,
    }
}

/// The status of a build that starts (see [`status_on_start`]).
pub fn building_status(
    old: &BuildStatus,
    host: &Host,
    now: u64,
    estimate: Option<i64>,
    activity_id: Option<u64>,
) -> (r: BuildStatus)
    ensures
        r@ == status_on_start(old@, host@, now, estimate, activity_id),
{
    match old {
        BuildStatus::Building(b) => BuildStatus::Building(BuildInfo {
            start: b.start,
            host: b.host.copied(),
            estimate: b.estimate,
            activity_id,
            end: (),
        }),
        _ => BuildStatus::Building(BuildInfo { start: now, host: host.copied(), estimate, activity_id, end: () }),
    }
}

/// The status of a build that fails (see [`status_on_failure`]).
pub fn failed_status(old: &BuildStatus, fail_type: FailType, now: u64) -> (r: Option<BuildStatus>)
    ensures
        match r {
            Some(st) => status_on_failure(old@, fail_type, now) == Some(st@),
            None => status_on_failure(old@, fail_type, now) is None,
        },
{
    match old {
        BuildStatus::Building(b) => Some(BuildStatus::Failed(BuildInfo {
            start: b.start,
            host: b.host.copied(),
            estimate: b.estimate,
            activity_id: b.activity_id,
            end: BuildFail { at: now, fail_type },
        })),
        BuildStatus::Built(b) => Some(BuildStatus::Failed(BuildInfo {
            start: b.start,
            host: b.host.copied(),
            estimate: b.estimate,
            activity_id: b.activity_id,
            end: BuildFail { at: now, fail_type },
        })),
        _ => None,
    }
}

/// The status of a build that finishes (see [`status_on_finish`]).
pub fn built_status(old: &BuildStatus, now: u64) -> (r: Option<BuildStatus>)
    ensures
        match r {
            Some(st) => status_on_finish(old@, now) == Some(st@),
            None => status_on_finish(old@, now) is None,
        },
{
    match old {
        BuildStatus::Building(b) => Some(BuildStatus::Built(BuildInfo {
            start: b.start,
            host: b.host.copied(),
            estimate: b.estimate,
            activity_id: b.activity_id,
            end: now,
        })),
        _ => None,
    }
}

/// The whole seconds from `start` to `now` (milliseconds), rounded half up,
/// and never below zero.
pub open spec fn seconds_between(start: u64, now: u64) -> int {
    if now <= start {
        0
    } else {
        (now - start + 500) / 1000
    }
}

/// The whole seconds a build took (see [`seconds_between`]).
pub fn build_seconds(start: u64, now: u64) -> (r: i64)
    ensures
        r == seconds_between(start, now),
{
    if now <= start {
        0
    } else {
        let d: u64 = now - start;
        let q: u64 = d / 1000;
        let r: u64 = d % 1000;
        assert(q <= u64::MAX / 1000) by (nonlinear_arith)
            requires
                q == d / 1000,
        ;
        if r >= 500 {
            assert(q + 1 == (d + 500) / 1000) by (nonlinear_arith)
                requires
                    q == d / 1000,
                    r == d % 1000,
                    r >= 500,
            ;
            (q + 1) as i64
        } else {
            assert(q == (d + 500) / 1000) by (nonlinear_arith)
                requires
                    q == d / 1000,
                    r == d % 1000,
                    r < 500,
            ;
            q as i64
        }
    }
}

// ---------------------------------------------------------------------
// What an event makes of a store path's states
// ---------------------------------------------------------------------

/// `s` with `x` added unless it holds it already.
pub open spec fn with_state(s: Seq<StorePathStateModel>, x: StorePathStateModel) -> Seq<StorePathStateModel> {
    if s.contains(x) {
        s
    } else {
        s.push(x)
    }
}

/// The first `k` of `s` without those equal to `x`.
pub open spec fn without_state(s: Seq<StorePathStateModel>, x: StorePathStateModel, k: int) -> Seq<StorePathStateModel>
    decreases k,
{
    if k <= 0 {
        Seq::empty()
    } else if s[k - 1] == x {
        without_state(s, x, k - 1)
    } else {
        without_state(s, x, k - 1).push(s[k - 1])
    }
}

/// The first `k` of `s` without the transfers of one kind (downloads, or
/// uploads) running with `host`, and the start and activity of the last of
/// them, if any.
pub open spec fn without_running(
    s: Seq<StorePathStateModel>,
    download: bool,
    host: HostModel,
    k: int,
) -> (Seq<StorePathStateModel>, Option<(u64, Option<u64>)>)
    decreases k,
{
    if k <= 0 {
        (Seq::empty(), None)
    } else {
        let (kept, found) = without_running(s, download, host, k - 1);
        match s[k - 1] {
            StorePathStateModel::Downloading(t) if download && t.host == host => (kept, Some((t.start, t.activity_id))),
            StorePathStateModel::Uploading(t) if !download && t.host == host => (kept, Some((t.start, t.activity_id))),
            _ => (kept.push(s[k - 1]), found),
        }
    }
}

/// A transfer that ends at `end`: the running transfers of its kind with
/// `host` leave, and a completed one takes their place, started when the
/// last of them started (at `end` where none ran) and reported by its
/// activity.
pub open spec fn states_on_finish(s: Seq<StorePathStateModel>, download: bool, host: HostModel, end: u64) -> Seq<StorePathStateModel> {
    let (kept, found) = without_running(s, download, host, s.len() as int);
    let (start, activity_id) = match found {
        Some(f) => f,
        None => (end, None),
    };
    let done = TransferInfoModel { host, start, activity_id, end: Some(end) };
    with_state(kept, if download { StorePathStateModel::Downloaded(done) } else { StorePathStateModel::Uploaded(done) })
}

/// A transfer that starts at `start`: a download is no longer planned, and
/// the running transfer joins the states.
pub open spec fn states_on_start(
    s: Seq<StorePathStateModel>,
    download: bool,
    host: HostModel,
    start: u64,
    activity_id: Option<u64>,
) -> Seq<StorePathStateModel> {
    let t = TransferInfoModel { host, start, activity_id, end: () };
    if download {
        with_state(
            without_state(s, StorePathStateModel::DownloadPlanned, s.len() as int),
            StorePathStateModel::Downloading(t),
        )
    } else {
        with_state(s, StorePathStateModel::Uploading(t))
    }
}

pub fn copy_states(s: &Vec<StorePathState>) -> (r: Vec<StorePathState>)
    ensures
        states_view(r@) == states_view(s@),
{
    let mut r: Vec<StorePathState> = Vec::new();
    let mut i: usize = 0;
    while i < s.len()
        invariant
            i <= s.len(),
            states_view(r@) == states_view(s@).take(i as int),
        decreases s.len() - i,
    {
        let ghost before = states_view(r@);
        let c = s[i].copied();
        r.push(c);
        proof {
            assert(states_view(r@) =~= before.push(c@));
            assert(states_view(r@) =~= states_view(s@).take(i + 1));
        }
        i += 1;
    }
    assert(states_view(s@).take(s.len() as int) =~= states_view(s@));
    r
}

/// Adds `x` to the states unless they hold it already.
pub fn add_state(s: &mut Vec<StorePathState>, x: StorePathState)
    ensures
        states_view(final(s)@) == with_state(states_view(old(s)@), x@),
{
    if !has_state(s, &x) {
        let ghost before = states_view(s@);
        s.push(x);
        assert(states_view(s@) =~= before.push(x@));
    }
}

/// The states without those equal to `x`.
fn drop_state(s: &Vec<StorePathState>, x: &StorePathState) -> (r: Vec<StorePathState>)
    ensures
        states_view(r@) == without_state(states_view(s@), x@, s@.len() as int),
{
    let mut r: Vec<StorePathState> = Vec::new();
    let mut i: usize = 0;
    while i < s.len()
        invariant
            i <= s.len(),
            states_view(r@) == without_state(states_view(s@), x@, i as int),
        decreases s.len() - i,
    {
        if !same_state(&s[i], x) {
            let ghost before = states_view(r@);
            r.push(s[i].copied());
            assert(states_view(r@) =~= before.push(states_view(s@)[i as int]));
        }
        i += 1;
    }
    r
}

/// The states once a download is planned.
pub fn states_with_download_planned(s: &Vec<StorePathState>) -> (r: Vec<StorePathState>)
    ensures
        states_view(r@) == with_state(states_view(s@), StorePathStateModel::DownloadPlanned),
{
    let mut r = copy_states(s);
    add_state(&mut r, StorePathState::DownloadPlanned);
    r
}

/// The states once a transfer starts (see [`states_on_start`]).
pub fn states_with_transfer_started(
    s: &Vec<StorePathState>,
    download: bool,
    host: &Host,
    start: u64,
    activity_id: Option<u64>,
) -> (r: Vec<StorePathState>)
    ensures
        states_view(r@) == states_on_start(states_view(s@), download, host@, start, activity_id),
{
    let t = TransferInfo { host: host.copied(), start, activity_id, end: () };
    if download {
        let mut r = drop_state(s, &StorePathState::DownloadPlanned);
        add_state(&mut r, StorePathState::Downloading(t));
        r
    } else {
        let mut r = copy_states(s);
        add_state(&mut r, StorePathState::Uploading(t));
        r
    }
}

/// The states once a transfer ends (see [`states_on_finish`]).
pub fn states_with_transfer_finished(s: &Vec<StorePathState>, download: bool, host: &Host, end: u64) -> (r: Vec<
    StorePathState,
>)
    ensures
        states_view(r@) == states_on_finish(states_view(s@), download, host@, end),
{
    let ghost sv = states_view(s@);
    let mut kept: Vec<StorePathState> = Vec::new();
    let mut found: Option<(u64, Option<u64>)> = None;
    let mut i: usize = 0;
    while i < s.len()
        invariant
            i <= s.len(),
            sv == states_view(s@),
            (states_view(kept@), found) == without_running(sv, download, host@, i as int),
        decreases s.len() - i,
    {
        let ghost before = states_view(kept@);
        match &s[i] {
            StorePathState::Downloading(t) if download && same_host(&t.host, host) => {
                found = Some((t.start, t.activity_id));
            },
            StorePathState::Uploading(t) if !download && same_host(&t.host, host) => {
                found = Some((t.start, t.activity_id));
            },
            _ => {
                kept.push(s[i].copied());
                assert(states_view(kept@) =~= before.push(sv[i as int]));
            },
        }
        i += 1;
    }
    let (start, activity_id) = match found {
        Some(f) => f,
        None => (end, None),
    };
    let done = TransferInfo { host: host.copied(), start, activity_id, end: Some(end) };
    let st = if download {
        StorePathState::Downloaded(done)
    } else {
        StorePathState::Uploaded(done)
    };
    add_state(&mut kept, st);
    kept
}


// ---------------------------------------------------------------------
// The transfers of a derivation's outputs
// ---------------------------------------------------------------------

/// Whether store path `o` is being or was transferred, or is planned for
/// download, in the summary.
pub open spec fn path_in_transfers(s: SummaryModel, o: usize) -> bool {
    ||| s.running_downloads.dom().contains(o)
    ||| s.running_uploads.dom().contains(o)
    ||| s.completed_downloads.dom().contains(o)
    ||| s.completed_uploads.dom().contains(o)
    ||| s.planned_downloads.contains(o)
}

/// Whether any of the store paths `outputs` is being or was transferred,
/// or is planned for download, in the summary.
pub fn has_transfers(summary: &DependencySummary, outputs: &Vec<usize>) -> (r: bool)
    requires
        summary.wf(),
    ensures
        r == exists|i: int| 0 <= i < outputs@.len() && path_in_transfers(summary@, #[trigger] outputs@[i]),
{
    let mut i: usize = 0;
    while i < outputs.len()
        invariant
            i <= outputs.len(),
            summary.wf(),
            forall|j: int| 0 <= j < i ==> !path_in_transfers(summary@, #[trigger] outputs@[j]),
        decreases outputs.len() - i,
    {
        let o = outputs[i];
        if summary.running_downloads.contains_key(o) || summary.running_uploads.contains_key(o)
            || summary.completed_downloads.contains_key(o) || summary.completed_uploads.contains_key(o)
            || summary.planned_downloads.contains(o) {
            return true;
        }
        i += 1;
    }
    false
}

/// The entries of `m` for the keys `outs`, in their order, skipping keys
/// without one.
pub open spec fn found_in<V>(m: Map<usize, V>, outs: Seq<usize>) -> Seq<V>
    decreases outs.len(),
{
    if outs.len() == 0 {
        Seq::empty()
    } else {
        let r = found_in(m, outs.drop_last());
        if m.dom().contains(outs.last()) {
            r.push(m[outs.last()])
        } else {
            r
        }
    }
}

pub open spec fn transfers_view<T>(v: Seq<TransferInfo<T>>) -> Seq<TransferInfoModel<T>> {
    v.map_values(|t: TransferInfo<T>| t@)
}

fn found_transfers<T: Copy>(m: &IdMap<TransferInfo<T>>, outs: &Vec<usize>) -> (r: Vec<TransferInfo<T>>)
    requires
        m.wf(),
    ensures
        transfers_view(r@) == found_in(m@, outs@),
{
    let mut r: Vec<TransferInfo<T>> = Vec::new();
    let mut i: usize = 0;
    while i < outs.len()
        invariant
            i <= outs.len(),
            m.wf(),
            transfers_view(r@) == found_in(m@, outs@.take(i as int)),
        decreases outs.len() - i,
    {
        assert(outs@.take(i + 1).drop_last() =~= outs@.take(i as int));
        assert(outs@.take(i + 1).last() == outs@[i as int]);
        let ghost before = transfers_view(r@);
        match m.get(outs[i]) {
            Some(t) => {
                let c = t.copied();
                r.push(c);
                assert(transfers_view(r@) =~= before.push(c@));
            },
            None => {},
        }
        i += 1;
    }
    assert(outs@.take(outs@.len() as int) =~= outs@);
    r
}

/// The transfers of a derivation's outputs that its summary holds.
pub struct OutputTransferInfos {
    pub running_downloads: Vec<TransferInfo<()>>,
    pub running_uploads: Vec<TransferInfo<()>>,
    pub completed_downloads: Vec<TransferInfo<Option<u64>>>,
    pub completed_uploads: Vec<TransferInfo<Option<u64>>>,
    pub planned_download: bool,
}

/// The running and completed transfers of the store paths `outputs` in the
/// summary, in the order of `outputs`, and whether one is planned for
/// download.
pub fn output_transfers(summary: &DependencySummary, outputs: &Vec<usize>) -> (r: OutputTransferInfos)
    requires
        summary.wf(),
    ensures
        transfers_view(r.running_downloads@) == found_in(summary@.running_downloads, outputs@),
        transfers_view(r.running_uploads@) == found_in(summary@.running_uploads, outputs@),
        transfers_view(r.completed_downloads@) == found_in(summary@.completed_downloads, outputs@),
        transfers_view(r.completed_uploads@) == found_in(summary@.completed_uploads, outputs@),
        r.planned_download == exists|i: int| 0 <= i < outputs@.len() && summary@.planned_downloads.contains(
            #[trigger] outputs@[i],
        ),
{
    let mut planned = false;
    let mut i: usize = 0;
    while i < outputs.len()
        invariant
            i <= outputs.len(),
            summary.wf(),
            planned == exists|j: int| 0 <= j < i && summary@.planned_downloads.contains(#[trigger] outputs@[j]),
        decreases outputs.len() - i,
    {
        if summary.planned_downloads.contains(outputs[i]) {
            planned = true;
        }
        i += 1;
    }
    OutputTransferInfos {
        running_downloads: found_transfers(&summary.running_downloads, outputs),
        running_uploads: found_transfers(&summary.running_uploads, outputs),
        completed_downloads: found_transfers(&summary.completed_downloads, outputs),
        completed_uploads: found_transfers(&summary.completed_uploads, outputs),
        planned_download: planned,
    }
}

/// The hosts of transfers, in their order.
pub fn transfer_hosts<T>(transfers: &Vec<TransferInfo<T>>) -> (r: Vec<Host>)
    ensures
        r@.len() == transfers@.len(),
        forall|i: int| 0 <= i < r@.len() ==> (#[trigger] r@[i])@ == transfers@[i].host@,
{
    let mut r: Vec<Host> = Vec::new();
    let mut i: usize = 0;
    while i < transfers.len()
        invariant
            i <= transfers.len(),
            r@.len() == i,
            forall|j: int| 0 <= j < i ==> (#[trigger] r@[j])@ == transfers@[j].host@,
        decreases transfers.len() - i,
    {
        r.push(transfers[i].host.copied());
        i += 1;
    }
    r
}

/// The bytes done and expected of the first `k` progress reports.
pub open spec fn progress_sum(p: Seq<(usize, usize)>, k: int) -> (int, int)
    decreases k,
{
    if k <= 0 {
        (0, 0)
    } else {
        let (d, e) = progress_sum(p, k - 1);
        (d + p[k - 1].0, e + p[k - 1].1)
    }
}

/// The total bytes done and expected of some transfers' progress reports
/// (each capped at `usize::MAX`).
pub fn progress_totals(progress: &Vec<(usize, usize)>) -> (r: (usize, usize))
    ensures
        r.0 == crate::parser::old_style::sat_usize(progress_sum(progress@, progress@.len() as int).0),
        r.1 == crate::parser::old_style::sat_usize(progress_sum(progress@, progress@.len() as int).1),
{
    let mut done: usize = 0;
    let mut expected: usize = 0;
    let mut i: usize = 0;
    while i < progress.len()
        invariant
            i <= progress.len(),
            done == crate::parser::old_style::sat_usize(progress_sum(progress@, i as int).0),
            expected == crate::parser::old_style::sat_usize(progress_sum(progress@, i as int).1),
            progress_sum(progress@, i as int).0 >= 0,
            progress_sum(progress@, i as int).1 >= 0,
        decreases progress.len() - i,
    {
        let (d, e) = progress[i];
        done = done.saturating_add(d);
        expected = expected.saturating_add(e);
        i += 1;
    }
    (done, expected)
}

} // verus!
