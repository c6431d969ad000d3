//! What the monitor keeps of nix's activities and of the evaluation: the
//! running activities by their ids with their phase and progress, which
//! lines it shows, and the file evaluation last reached.
use vstd::prelude::*;
use crate::parser::json::{Activity, ActivityProgress};
use crate::state::ActivityStatus;
use crate::text::{chars_of, starts_with, starts_with_lit};

verus! {

/// Whether `k` is the id of an entry.
pub open spec fn has_id(s: Seq<(u64, ActivityStatus)>, k: u64) -> bool {
    exists|i: int| 0 <= i < s.len() && #[trigger] s[i].0 == k
}

/// The entries as a map from ids.
pub open spec fn activity_map(s: Seq<(u64, ActivityStatus)>) -> Map<u64, ActivityStatus> {
    Map::new(|k: u64| has_id(s, k), |k: u64| s[choose|i: int| 0 <= i < s.len() && #[trigger] s[i].0 == k].1)
}

/// The progress reports (bytes done, bytes expected) of the activities
/// `ids` names, in their order; an id that is `None`, names no activity or
/// one without a report gives none.
pub open spec fn progress_reports_of(m: Map<u64, ActivityStatus>, ids: Seq<Option<u64>>) -> Seq<(usize, usize)>
    decreases ids.len(),
{
    if ids.len() == 0 {
        Seq::empty()
    } else {
        let before = progress_reports_of(m, ids.drop_last());
        match ids.last() {
            Some(id) => if m.dom().contains(id) {
                match m[id].progress {
                    Some(p) => before.push((p.done, p.expected)),
                    None => before,
                }
            } else {
                before
            },
            None => before,
        }
    }
}

/// The activities nix has started, by their ids.
#[derive(Clone, Debug)]
pub struct ActivityMap {
    pub entries: Vec<(u64, ActivityStatus)>,
}

impl View for ActivityMap {
    type V = Map<u64, ActivityStatus>;

    open spec fn view(&self) -> Map<u64, ActivityStatus> {
        activity_map(self.entries@)
    }
}

proof fn lemma_activity_at(s: Seq<(u64, ActivityStatus)>, i: int)
    requires
        forall|a: int, b: int| 0 <= a < s.len() && 0 <= b < s.len() && a != b ==> s[a].0 != s[b].0,
        0 <= i < s.len(),
    ensures
        activity_map(s).dom().contains(s[i].0),
        activity_map(s)[s[i].0] == s[i].1,
{
    let k = s[i].0;
    assert(has_id(s, k));
    let c = choose|c: int| 0 <= c < s.len() && #[trigger] s[c].0 == k;
    assert(c == i);
}

impl ActivityMap {
    /// No two entries have the same id.
    pub open spec fn wf(&self) -> bool {
        forall|a: int, b: int|
            0 <= a < self.entries@.len() && 0 <= b < self.entries@.len() && a != b ==> self.entries@[a].0
                != self.entries@[b].0
    }

    pub fn new() -> (m: Self)
        ensures
            m.wf(),
            m@ == Map::<u64, ActivityStatus>::empty(),
    {
        let m = ActivityMap { entries: Vec::new() };
        assert(m@ =~= Map::<u64, ActivityStatus>::empty());
        m
    }

    fn place_of(&self, id: u64) -> (r: Option<usize>)
        requires
            self.wf(),
        ensures
            match r {
                Some(i) => i < self.entries@.len() && self.entries@[i as int].0 == id,
                None => !self@.dom().contains(id),
            },
    {
        let mut i: usize = 0;
        while i < self.entries.len()
            invariant
                i <= self.entries.len(),
                forall|j: int| 0 <= j < i ==> self.entries@[j].0 != id,
            decreases self.entries.len() - i,
        {
            if self.entries[i].0 == id {
                return Some(i);
            }
            i += 1;
        }
        None
    }

    /// The activity with id `id`, if nix started one.
    pub fn get(&self, id: u64) -> (r: Option<&ActivityStatus>)
        requires
            self.wf(),
        ensures
            match r {
                Some(a) => self@.dom().contains(id) && self@[id] == *a,
                None => !self@.dom().contains(id),
            },
    {
        match self.place_of(id) {
            Some(i) => {
                proof {
                    lemma_activity_at(self.entries@, i as int);
                }
                Some(&self.entries[i].1)
            },
            None => None,
        }
    }

    /// The progress reports of the activities `ids` names (see
    /// [`progress_reports_of`]).
    pub fn progress_reports(&self, ids: &Vec<Option<u64>>) -> (r: Vec<(usize, usize)>)
        requires
            self.wf(),
        ensures
            r@ == progress_reports_of(self@, ids@),
    {
        let mut out: Vec<(usize, usize)> = Vec::new();
        let mut i: usize = 0;
        while i < ids.len()
            invariant
                i <= ids@.len(),
                self.wf(),
                out@ == progress_reports_of(self@, ids@.take(i as int)),
            decreases ids.len() - i,
        {
            proof {
                assert(ids@.take(i + 1).drop_last() =~= ids@.take(i as int));
                assert(ids@.take(i + 1).last() == ids@[i as int]);
            }
            if let Some(id) = ids[i] {
                if let Some(a) = self.get(id) {
                    if let Some(p) = &a.progress {
                        out.push((p.done, p.expected));
                    }
                }
            }
            i += 1;
        }
        assert(ids@.take(ids@.len() as int) =~= ids@);
        out
    }

    fn replace_at(&mut self, i: usize, status: ActivityStatus)
        requires
            old(self).wf(),
            i < old(self).entries@.len(),
        ensures
            final(self).wf(),
            final(self)@ == old(self)@.insert(old(self).entries@[i as int].0, status),
    {
        let ghost s0 = self.entries@;
        let k = self.entries[i].0;
        self.entries.set(i, (k, status));
        proof {
            let s = self.entries@;
            assert forall|a: int, b: int| 0 <= a < s.len() && 0 <= b < s.len() && a != b implies s[a].0 != s[b].0 by {
                assert(s0[a].0 != s0[b].0);
            }
            lemma_activity_at(s, i as int);
            assert forall|key: u64| #[trigger] self@.dom().contains(key) <==> old(self)@.insert(k, status).dom().contains(key) by {
                if has_id(s, key) {
                    let j = choose|j: int| 0 <= j < s.len() && #[trigger] s[j].0 == key;
                    assert(s0[j].0 == key);
                }
                if has_id(s0, key) {
                    let j = choose|j: int| 0 <= j < s0.len() && #[trigger] s0[j].0 == key;
                    assert(s[j].0 == key);
                }
            }
            assert forall|key: u64| #[trigger] self@.dom().contains(key) implies self@[key] == old(self)@.insert(k, status)[key] by {
                let j = choose|j: int| 0 <= j < s.len() && #[trigger] s[j].0 == key;
                lemma_activity_at(s, j);
                if j != i {
                    lemma_activity_at(s0, j);
                }
            }
            assert(self@ =~= old(self)@.insert(k, status));
        }
    }

    /// Records an activity that starts, with no phase and no progress yet;
    /// one with the same id is replaced.
    pub fn start(&mut self, id: u64, activity: Activity)
        requires
            old(self).wf(),
        ensures
            final(self).wf(),
            final(self)@ == old(self)@.insert(id, ActivityStatus { activity, phase: None, progress: None }),
    {
        let status = ActivityStatus { activity, phase: None, progress: None };
        match self.place_of(id) {
            Some(i) => self.replace_at(i, status),
            None => {
                let ghost s0 = self.entries@;
                self.entries.push((id, status));
                proof {
                    let s = self.entries@;
                    assert(!has_id(s0, id));
                    assert forall|a: int, b: int| 0 <= a < s.len() && 0 <= b < s.len() && a != b implies s[a].0 != s[b].0 by {
                        if a == s0.len() {
                            assert(s0[b].0 != id);
                        } else if b == s0.len() {
                            assert(s0[a].0 != id);
                        } else {
                            assert(s0[a].0 != s0[b].0);
                        }
                    }
                    lemma_activity_at(s, s0.len() as int);
                    assert forall|key: u64| #[trigger] self@.dom().contains(key) <==> old(self)@.insert(id, status).dom().contains(key) by {
                        if has_id(s, key) {
                            let j = choose|j: int| 0 <= j < s.len() && #[trigger] s[j].0 == key;
                            if j < s0.len() {
                                assert(s0[j].0 == key);
                            }
                        }
                        if has_id(s0, key) {
                            let j = choose|j: int| 0 <= j < s0.len() && #[trigger] s0[j].0 == key;
                            assert(s[j].0 == key);
                        }
                    }
                    assert forall|key: u64| #[trigger] self@.dom().contains(key) implies self@[key] == old(self)@.insert(id, status)[key] by {
                        let j = choose|j: int| 0 <= j < s.len() && #[trigger] s[j].0 == key;
                        lemma_activity_at(s, j);
                        if j < s0.len() {
                            lemma_activity_at(s0, j);
                        }
                    }
                    assert(self@ =~= old(self)@.insert(id, status));
                }
            },
        }
    }

    /// Sets the phase of a started activity, and says whether there was one.
    pub fn set_phase(&mut self, id: u64, phase: String) -> (found: bool)
        requires
            old(self).wf(),
        ensures
            final(self).wf(),
            found == old(self)@.dom().contains(id),
            found ==> final(self)@ == old(self)@.insert(id, ActivityStatus { phase: Some(phase), ..old(self)@[id] }),
            !found ==> final(self)@ == old(self)@,
    {
        match self.place_of(id) {
            Some(i) => {
                proof {
                    lemma_activity_at(self.entries@, i as int);
                }
                let ghost s0 = self.entries@;
                let (k, mut status) = self.entries.remove(i);
                status.phase = Some(phase);
                self.entries.insert(i, (k, status));
                proof {
                    assert(self.entries@ =~= s0.update(i as int, (k, status)));
                }
                self.refresh(i, Ghost(s0));
                true
            },
            None => false,
        }
    }

    /// Sets the progress of a started activity, and says whether there was
    /// one.
    pub fn set_progress(&mut self, id: u64, progress: ActivityProgress) -> (found: bool)
        requires
            old(self).wf(),
        ensures
            final(self).wf(),
            found == old(self)@.dom().contains(id),
            found ==> final(self)@ == old(self)@.insert(id, ActivityStatus { progress: Some(progress), ..old(self)@[id] }),
            !found ==> final(self)@ == old(self)@,
    {
        match self.place_of(id) {
            Some(i) => {
                proof {
                    lemma_activity_at(self.entries@, i as int);
                }
                let ghost s0 = self.entries@;
                let (k, mut status) = self.entries.remove(i);
                status.progress = Some(progress);
                self.entries.insert(i, (k, status));
                proof {
                    assert(self.entries@ =~= s0.update(i as int, (k, status)));
                }
                self.refresh(i, Ghost(s0));
                true
            },
            None => false,
        }
    }

    /// After entry `i` of `s0` got a new status under its id: the map is
    /// `s0`'s with that status.
    fn refresh(&self, i: usize, Ghost(s0): Ghost<Seq<(u64, ActivityStatus)>>)
        requires
            forall|a: int, b: int| 0 <= a < s0.len() && 0 <= b < s0.len() && a != b ==> s0[a].0 != s0[b].0,
            i < s0.len(),
            self.entries@ == s0.update(i as int, (s0[i as int].0, self.entries@[i as int].1)),
        ensures
            self.wf(),
            self@ == activity_map(s0).insert(s0[i as int].0, self.entries@[i as int].1),
    {
        proof {
            let s = self.entries@;
            let k = s0[i as int].0;
            let status = s[i as int].1;
            assert forall|a: int, b: int| 0 <= a < s.len() && 0 <= b < s.len() && a != b implies s[a].0 != s[b].0 by {
                assert(s0[a].0 != s0[b].0);
            }
            lemma_activity_at(s, i as int);
            assert forall|key: u64| #[trigger] self@.dom().contains(key) <==> activity_map(s0).insert(k, status).dom().contains(key) by {
                if has_id(s, key) {
                    let j = choose|j: int| 0 <= j < s.len() && #[trigger] s[j].0 == key;
                    assert(s0[j].0 == key);
                }
                if has_id(s0, key) {
                    let j = choose|j: int| 0 <= j < s0.len() && #[trigger] s0[j].0 == key;
                    assert(s[j].0 == key);
                }
            }
            assert forall|key: u64| #[trigger] self@.dom().contains(key) implies self@[key] == activity_map(s0).insert(k, status)[key] by {
                let j = choose|j: int| 0 <= j < s.len() && #[trigger] s[j].0 == key;
                lemma_activity_at(s, j);
                if j != i {
                    lemma_activity_at(s0, j);
                }
            }
            assert(self@ =~= activity_map(s0).insert(k, status));
        }
    }
}


/// Whether the text of an activity that starts is shown: where there is
/// text and the activity's level is at most 3 (`info`).
pub fn logs_start_text(text: &str, level: u64) -> (b: bool)
    ensures
        b == (text@.len() > 0 && level <= 3),
{
    let cs = chars_of(text);
    cs.len() > 0 && level <= 3
}

/// Whether a line that is not JSON is shown: every line but the debug lines
/// of `nixos-rebuild`.
pub fn logs_plain_line(raw: &str) -> (b: bool)
    ensures
        b == !starts_with(raw@, "debug: nixos_rebuild."@),
{
    !starts_with_lit(&chars_of(raw), "debug: nixos_rebuild.")
}

/// How far evaluation has got: the last file it reached, how many files it
/// reached, and when it reached the last (milliseconds since the monitor
/// started).
#[derive(Clone, Debug, Default, PartialEq)]
pub struct EvalState {
    pub last_file_name: Option<String>,
    pub count: usize,
    pub at: u64,
}

impl EvalState {
    /// Evaluation reached `file` at `now` (the count stops at `usize::MAX`).
    pub fn reached_file(&mut self, file: String, now: u64)
        ensures
            final(self).last_file_name == Some(file),
            final(self).count == (if old(self).count == usize::MAX { usize::MAX } else { (old(self).count + 1) as usize }),
            final(self).at == now,
    {
        self.count = self.count.saturating_add(1);
        self.last_file_name = Some(file);
        self.at = now;
    }

    /// Forgets the last file once building has started and five seconds
    /// have passed since evaluation reached it.
    pub fn expire(&mut self, now: u64, building: bool)
        ensures
            final(self).count == old(self).count,
            final(self).at == old(self).at,
            final(self).last_file_name == (if old(self).last_file_name is Some && old(self).at + 5000 <= now
                && building {
                None
            } else {
                old(self).last_file_name
            }),
    {
        if self.last_file_name.is_some() && now >= 5000 && self.at <= now - 5000 && building {
            self.last_file_name = None;
        }
    }
}

} // verus!
