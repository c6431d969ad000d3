//! Counting the builds and transfers of the summary table host by host.
use vstd::prelude::*;
use crate::render::HostStats;
use crate::text::{chars_eq, chars_of};

verus! {

/// What a build or transfer of the summary is.
#[derive(Clone, Copy, Debug, PartialEq, Eq, Structural)]
pub enum TallyKind {
    RunningBuild,
    CompletedBuild,
    RunningDownload,
    CompletedDownload,
    RunningUpload,
    CompletedUpload,
}

/// A build or transfer of the summary: the name of its host (without
/// protocol or user), the host as the table shows it, what it is, and for a
/// download the bytes its activity has done and expects, where it reports
/// them.
#[derive(Clone, Debug)]
pub struct TallyItem {
    pub host_key: String,
    pub host_label: String,
    pub kind: TallyKind,
    pub progress: Option<(usize, usize)>,
}

/// What is counted for one host, by its key.
pub struct HostTally {
    pub key: Seq<char>,
    pub label: Seq<char>,
    pub running_builds: usize,
    pub completed_builds: usize,
    pub running_downloads: usize,
    pub completed_downloads: usize,
    pub running_uploads: usize,
    pub completed_uploads: usize,
    pub done: usize,
    pub expected: usize,
}

/// `a + b`, or `usize::MAX` where the sum does not fit.
pub open spec fn add_sat(a: usize, b: usize) -> usize {
    if a + b > usize::MAX {
        usize::MAX
    } else {
        (a + b) as usize
    }
}

/// The bytes a download adds to what is done and to what is expected: a
/// completed one counts as having done at least what it expected.
pub open spec fn progress_of(item: TallyItem) -> (usize, usize) {
    match item.progress {
        Some((done, expected)) => match item.kind {
            TallyKind::RunningDownload => (done, expected),
            TallyKind::CompletedDownload => (if expected > done { expected } else { done }, expected),
            _ => (0, 0),
        },
        None => (0, 0),
    }
}

/// `t` with `item` counted.
pub open spec fn counted(t: HostTally, item: TallyItem) -> HostTally {
    let (d, e) = progress_of(item);
    HostTally {
        running_builds: if item.kind == TallyKind::RunningBuild { add_sat(t.running_builds, 1) } else { t.running_builds },
        completed_builds: if item.kind == TallyKind::CompletedBuild { add_sat(t.completed_builds, 1) } else { t.completed_builds },
        running_downloads: if item.kind == TallyKind::RunningDownload { add_sat(t.running_downloads, 1) } else { t.running_downloads },
        completed_downloads: if item.kind == TallyKind::CompletedDownload { add_sat(t.completed_downloads, 1) } else { t.completed_downloads },
        running_uploads: if item.kind == TallyKind::RunningUpload { add_sat(t.running_uploads, 1) } else { t.running_uploads },
        completed_uploads: if item.kind == TallyKind::CompletedUpload { add_sat(t.completed_uploads, 1) } else { t.completed_uploads },
        done: add_sat(t.done, d),
        expected: add_sat(t.expected, e),
        ..t
    }
}

/// The count of one kind of build or transfer in a tally.
pub open spec fn count_of(t: HostTally, k: TallyKind) -> usize {
    match k {
        TallyKind::RunningBuild => t.running_builds,
        TallyKind::CompletedBuild => t.completed_builds,
        TallyKind::RunningDownload => t.running_downloads,
        TallyKind::CompletedDownload => t.completed_downloads,
        TallyKind::RunningUpload => t.running_uploads,
        TallyKind::CompletedUpload => t.completed_uploads,
    }
}

/// Counting an item adds one to the count of its own kind (short of
/// `usize::MAX`, where it stays) and leaves the count of every other kind,
/// the host and its label as they were.
pub proof fn lemma_item_counted_in_its_kind(t: HostTally, item: TallyItem)
    ensures
        forall|k: TallyKind| k != item.kind ==> #[trigger] count_of(counted(t, item), k) == count_of(t, k),
        count_of(t, item.kind) < usize::MAX ==> count_of(counted(t, item), item.kind) == count_of(t, item.kind) + 1,
        count_of(t, item.kind) == usize::MAX ==> count_of(counted(t, item), item.kind) == usize::MAX,
        counted(t, item).key == t.key,
        counted(t, item).label == t.label,
{
}

/// Bytes come from downloads alone: a running download adds what its
/// report says is done and expected; a completed one adds what it expected,
/// and as done the larger of what it did and what it expected; builds,
/// uploads and downloads without a report add nothing.
pub proof fn lemma_bytes_come_from_downloads(item: TallyItem)
    ensures
        item.kind != TallyKind::RunningDownload && item.kind != TallyKind::CompletedDownload ==> progress_of(item) == (0usize, 0usize),
        item.progress is None ==> progress_of(item) == (0usize, 0usize),
        item.kind == TallyKind::RunningDownload && item.progress is Some ==> progress_of(item) == item.progress->Some_0,
        item.kind == TallyKind::CompletedDownload && item.progress is Some ==> {
            let (d, e) = item.progress->Some_0;
            &&& progress_of(item).1 == e
            &&& progress_of(item).0 >= d && progress_of(item).0 >= e
            &&& (progress_of(item).0 == d || progress_of(item).0 == e)
        },
{
}

/// Nothing counted yet for the host of `item`, shown as `item` shows it.
pub open spec fn fresh_tally(item: TallyItem) -> HostTally {
    HostTally {
        key: item.host_key@,
        label: item.host_label@,
        running_builds: 0,
        completed_builds: 0,
        running_downloads: 0,
        completed_downloads: 0,
        running_uploads: 0,
        completed_uploads: 0,
        done: 0,
        expected: 0,
    }
}

/// The place of the host `key` among the first `k` tallies.
pub open spec fn index_of_key(ts: Seq<HostTally>, key: Seq<char>, k: int) -> Option<int>
    decreases k,
{
    if k <= 0 || k > ts.len() {
        None
    } else if ts[k - 1].key == key {
        Some(k - 1)
    } else {
        index_of_key(ts, key, k - 1)
    }
}

/// The hosts met among the first `k` items, in the order first met, with
/// what was counted for each; a host is shown as its first item shows it.
pub open spec fn tallied(items: Seq<TallyItem>, k: int) -> Seq<HostTally>
    decreases k,
{
    if k <= 0 || k > items.len() {
        Seq::empty()
    } else {
        let prev = tallied(items, k - 1);
        let item = items[k - 1];
        match index_of_key(prev, item.host_key@, prev.len() as int) {
            Some(i) => prev.update(i, counted(prev[i], item)),
            None => prev.push(counted(fresh_tally(item), item)),
        }
    }
}

/// `a` comes before `b` in the order of their characters.
pub open spec fn key_lt(a: Seq<char>, b: Seq<char>, i: int) -> bool
    decreases a.len() - i,
{
    if i < 0 || i >= a.len() {
        i >= 0 && i < b.len()
    } else if i >= b.len() {
        false
    } else if a[i] != b[i] {
        a[i] < b[i]
    } else {
        key_lt(a, b, i + 1)
    }
}

/// How many of the tallies have keys before `key`.
pub open spec fn count_keys_before(ts: Seq<HostTally>, key: Seq<char>) -> int
    decreases ts.len(),
{
    if ts.len() == 0 {
        0
    } else {
        count_keys_before(ts.drop_last(), key) + if key_lt(ts.last().key, key, 0) {
            1int
        } else {
            0int
        }
    }
}

/// The first `k` tallies, ordered by their keys.
pub open spec fn by_key(ts: Seq<HostTally>, k: int) -> Seq<HostTally>
    decreases k,
{
    if k <= 0 || k > ts.len() {
        Seq::empty()
    } else {
        let s = by_key(ts, k - 1);
        s.insert(count_keys_before(s, ts[k - 1].key), ts[k - 1])
    }
}

/// The totals of all the downloads: the bytes done and expected.
pub open spec fn progress_totals(items: Seq<TallyItem>, k: int) -> (usize, usize)
    decreases k,
{
    if k <= 0 || k > items.len() {
        (0, 0)
    } else {
        let (d, e) = progress_totals(items, k - 1);
        let (d1, e1) = progress_of(items[k - 1]);
        (add_sat(d, d1), add_sat(e, e1))
    }
}

/// The tally that an entry of the table holds.
pub open spec fn stats_tally(key: Seq<char>, h: HostStats) -> HostTally {
    HostTally {
        key,
        label: h.host@,
        running_builds: h.running_builds,
        completed_builds: h.completed_builds,
        running_downloads: h.running_downloads,
        completed_downloads: h.completed_downloads,
        running_uploads: h.running_uploads,
        completed_uploads: h.completed_uploads,
        done: h.done,
        expected: h.expected,
    }
}

fn sat_add(a: usize, b: usize) -> (r: usize)
    ensures
        r == add_sat(a, b),
{
    a.checked_add(b).unwrap_or(usize::MAX)
}

fn progress_exec(item: &TallyItem) -> (r: (usize, usize))
    ensures
        r == progress_of(*item),
{
    match item.progress {
        Some((done, expected)) => match item.kind {
            TallyKind::RunningDownload => (done, expected),
            TallyKind::CompletedDownload => (if expected > done { expected } else { done }, expected),
            _ => (0, 0),
        },
        None => (0, 0),
    }
}

/// `h` with `item` counted.
fn count_item(h: &HostStats, item: &TallyItem) -> (r: HostStats)
    ensures
        forall|key: Seq<char>| stats_tally(key, r) == counted(stats_tally(key, *h), *item),
{
    let (d, e) = progress_exec(item);
    let k = item.kind;
    HostStats {
        host: h.host.clone(),
        running_builds: if k == TallyKind::RunningBuild { sat_add(h.running_builds, 1) } else { h.running_builds },
        completed_builds: if k == TallyKind::CompletedBuild { sat_add(h.completed_builds, 1) } else { h.completed_builds },
        running_downloads: if k == TallyKind::RunningDownload { sat_add(h.running_downloads, 1) } else { h.running_downloads },
        completed_downloads: if k == TallyKind::CompletedDownload { sat_add(h.completed_downloads, 1) } else { h.completed_downloads },
        running_uploads: if k == TallyKind::RunningUpload { sat_add(h.running_uploads, 1) } else { h.running_uploads },
        completed_uploads: if k == TallyKind::CompletedUpload { sat_add(h.completed_uploads, 1) } else { h.completed_uploads },
        done: sat_add(h.done, d),
        expected: sat_add(h.expected, e),
    }
}

/// Whether `a` comes before `b` in the order of their characters.
fn key_less(a: &Vec<char>, b: &Vec<char>) -> (r: bool)
    ensures
        r == key_lt(a@, b@, 0),
{
    let mut i: usize = 0;
    while i < a.len() && i < b.len()
        invariant
            i <= a.len(),
            i <= b.len(),
            key_lt(a@, b@, 0) == key_lt(a@, b@, i as int),
        decreases a.len() - i,
    {
        if a[i] != b[i] {
            return a[i] < b[i];
        }
        i += 1;
    }
    i == a.len() && i < b.len()
}

/// Counts the builds and transfers host by host: returns the hosts ordered
/// by their keys, each shown as its first item shows it, and the bytes done
/// and expected by all the downloads.
pub fn tally_hosts(items: &Vec<TallyItem>) -> (r: (Vec<HostStats>, usize, usize))
    ensures
        exists|keys: Seq<Seq<char>>|
            #![trigger keys.len()]
            keys.len() == r.0@.len() && Seq::new(r.0@.len(), |i: int| stats_tally(keys[i], r.0@[i]))
                == by_key(tallied(items@, items@.len() as int), tallied(items@, items@.len() as int).len() as int),
        (r.1, r.2) == progress_totals(items@, items@.len() as int),
{
    // Grouped in the order first met.
    let mut keys: Vec<Vec<char>> = Vec::new();
    let mut groups: Vec<HostStats> = Vec::new();
    let mut total_done: usize = 0;
    let mut total_expected: usize = 0;
    let mut k: usize = 0;
    while k < items.len()
        invariant
            k <= items.len(),
            keys@.len() == groups@.len(),
            Seq::new(groups@.len(), |i: int| stats_tally(keys@[i]@, groups@[i])) == tallied(items@, k as int),
            (total_done, total_expected) == progress_totals(items@, k as int),
        decreases items.len() - k,
    {
        let item = &items[k];
        let key = chars_of(item.host_key.as_str());
        let ghost prev = tallied(items@, k as int);
        let mut j: usize = groups.len();
        let mut found = false;
        while j > 0 && !found
            invariant
                j <= groups@.len(),
                keys@.len() == groups@.len(),
                prev == Seq::new(groups@.len(), |i: int| stats_tally(keys@[i]@, groups@[i])),
                !found ==> index_of_key(prev, key@, prev.len() as int) == index_of_key(prev, key@, j as int),
                found ==> j < groups@.len() && index_of_key(prev, key@, prev.len() as int) == Some(j as int),
            decreases j + if found { 0int } else { 1int },
        {
            if chars_eq(&keys[j - 1], &key) {
                j -= 1;
                found = true;
            } else {
                j -= 1;
            }
        }
        if found {
            let updated = count_item(&groups[j], item);
            groups.set(j, updated);
            proof {
                assert(Seq::new(groups@.len(), |i: int| stats_tally(keys@[i]@, groups@[i])) =~= prev.update(j as int, counted(prev[j as int], *item)));
            }
        } else {
            let fresh = HostStats {
                host: item.host_label.clone(),
                running_builds: 0,
                completed_builds: 0,
                running_downloads: 0,
                completed_downloads: 0,
                running_uploads: 0,
                completed_uploads: 0,
                done: 0,
                expected: 0,
            };
            let first = count_item(&fresh, item);
            keys.push(key);
            groups.push(first);
            proof {
                assert(stats_tally(item.host_key@, fresh) == fresh_tally(*item));
                assert(Seq::new(groups@.len(), |i: int| stats_tally(keys@[i]@, groups@[i])) =~= prev.push(counted(fresh_tally(*item), *item)));
            }
        }
        let (d, e) = progress_exec(item);
        total_done = sat_add(total_done, d);
        total_expected = sat_add(total_expected, e);
        k += 1;
    }
    // Ordered by key, each inserted after those whose keys come before it.
    let ghost ts = tallied(items@, items@.len() as int);
    let mut sorted_keys: Vec<Vec<char>> = Vec::new();
    let mut sorted: Vec<HostStats> = Vec::new();
    let mut m: usize = 0;
    while m < groups.len()
        invariant
            m <= groups@.len(),
            keys@.len() == groups@.len(),
            ts == Seq::new(groups@.len(), |i: int| stats_tally(keys@[i]@, groups@[i])),
            sorted_keys@.len() == sorted@.len(),
            Seq::new(sorted@.len(), |i: int| stats_tally(sorted_keys@[i]@, sorted@[i])) == by_key(ts, m as int),
        decreases groups.len() - m,
    {
        let ghost s = by_key(ts, m as int);
        let mut pos: usize = 0;
        let mut q: usize = 0;
        while q < sorted.len()
            invariant
                q <= sorted@.len(),
                m < keys@.len(),
                sorted_keys@.len() == sorted@.len(),
                s == Seq::new(sorted@.len(), |i: int| stats_tally(sorted_keys@[i]@, sorted@[i])),
                pos == count_keys_before(s.take(q as int), keys@[m as int]@),
                pos <= q,
            decreases sorted.len() - q,
        {
            if key_less(&sorted_keys[q], &keys[m]) {
                pos += 1;
            }
            proof {
                assert(s.take(q + 1).drop_last() =~= s.take(q as int));
            }
            q += 1;
        }
        proof {
            assert(s.take(s.len() as int) =~= s);
        }
        sorted_keys.insert(pos, keys[m].clone());
        sorted.insert(pos, HostStats {
            host: groups[m].host.clone(),
            running_builds: groups[m].running_builds,
            completed_builds: groups[m].completed_builds,
            running_downloads: groups[m].running_downloads,
            completed_downloads: groups[m].completed_downloads,
            running_uploads: groups[m].running_uploads,
            completed_uploads: groups[m].completed_uploads,
            done: groups[m].done,
            expected: groups[m].expected,
        });
        proof {
            assert(Seq::new(sorted@.len(), |i: int| stats_tally(sorted_keys@[i]@, sorted@[i])) =~= s.insert(pos as int, ts[m as int]));
        }
        m += 1;
    }
    proof {
        let kv = Seq::new(sorted@.len(), |i: int| sorted_keys@[i]@);
        assert(Seq::new(sorted@.len(), |i: int| stats_tally(kv[i], sorted@[i])) =~= Seq::new(sorted@.len(), |i: int| stats_tally(sorted_keys@[i]@, sorted@[i])));
        assert(kv.len() == sorted@.len());
    }
    (sorted, total_done, total_expected)
}


proof fn lemma_key_lt_irreflexive(a: Seq<char>, i: int)
    ensures
        !key_lt(a, a, i),
    decreases a.len() - i,
{
    if 0 <= i < a.len() {
        lemma_key_lt_irreflexive(a, i + 1);
    }
}

proof fn lemma_key_lt_transitive(a: Seq<char>, b: Seq<char>, c: Seq<char>, i: int)
    requires
        i >= 0,
        key_lt(a, b, i),
        key_lt(b, c, i),
    ensures
        key_lt(a, c, i),
    decreases a.len() - i,
{
    if i < a.len() && i < b.len() && i < c.len() && a[i] == b[i] && b[i] == c[i] {
        lemma_key_lt_transitive(a, b, c, i + 1);
    }
}

proof fn lemma_key_lt_total(a: Seq<char>, b: Seq<char>, i: int)
    requires
        0 <= i,
        a.subrange(0, i) == b.subrange(0, i) || i == 0,
        i <= a.len(),
        i <= b.len(),
        a != b,
    ensures
        key_lt(a, b, i) || key_lt(b, a, i),
    decreases a.len() - i,
{
    if i < a.len() && i < b.len() && a[i] == b[i] {
        assert(a.subrange(0, i + 1) =~= a.subrange(0, i).push(a[i]));
        assert(b.subrange(0, i + 1) =~= b.subrange(0, i).push(b[i]));
        if i == 0 {
            assert(a.subrange(0, 0) =~= b.subrange(0, 0));
        }
        lemma_key_lt_total(a, b, i + 1);
    } else if i == a.len() && i == b.len() {
        if i > 0 {
            assert(a =~= a.subrange(0, i));
            assert(b =~= b.subrange(0, i));
        } else {
            assert(a =~= b);
        }
    }
}

proof fn lemma_index_of_key(ts: Seq<HostTally>, key: Seq<char>, k: int)
    requires
        0 <= k <= ts.len(),
    ensures
        index_of_key(ts, key, k) matches Some(i) ==> 0 <= i < k && ts[i].key == key,
        index_of_key(ts, key, k) is None ==> forall|i: int| 0 <= i < k ==> ts[i].key != key,
    decreases k,
{
    if k > 0 {
        lemma_index_of_key(ts, key, k - 1);
    }
}

proof fn lemma_tallied_distinct(items: Seq<TallyItem>, k: int)
    requires
        0 <= k <= items.len(),
    ensures
        forall|i: int, j: int| 0 <= i < j < tallied(items, k).len() ==> tallied(items, k)[i].key != tallied(items, k)[j].key,
    decreases k,
{
    if k > 0 {
        lemma_tallied_distinct(items, k - 1);
        let prev = tallied(items, k - 1);
        lemma_index_of_key(prev, items[k - 1].host_key@, prev.len() as int);
    }
}

/// Strictly ordered by key.
pub open spec fn ordered_by_key(s: Seq<HostTally>) -> bool {
    forall|i: int, j: int| 0 <= i < j < s.len() ==> key_lt(#[trigger] s[i].key, #[trigger] s[j].key, 0)
}

proof fn lemma_count_keys_before(s: Seq<HostTally>, key: Seq<char>)
    requires
        ordered_by_key(s),
        forall|i: int| 0 <= i < s.len() ==> s[i].key != key,
    ensures
        0 <= count_keys_before(s, key) <= s.len(),
        forall|i: int| 0 <= i < count_keys_before(s, key) ==> key_lt(s[i].key, key, 0),
        forall|i: int| count_keys_before(s, key) <= i < s.len() ==> key_lt(key, s[i].key, 0),
    decreases s.len(),
{
    if s.len() > 0 {
        let d = s.drop_last();
        assert forall|i: int, j: int| 0 <= i < j < d.len() implies key_lt(#[trigger] d[i].key, #[trigger] d[j].key, 0) by {
            assert(key_lt(s[i].key, s[j].key, 0));
        }
        lemma_count_keys_before(d, key);
        let c = count_keys_before(d, key);
        let last = s.last();
        lemma_key_lt_total(last.key, key, 0);
        if key_lt(last.key, key, 0) {
            assert forall|i: int| 0 <= i < s.len() implies key_lt(s[i].key, key, 0) by {
                if i < s.len() - 1 {
                    assert(key_lt(s[i].key, last.key, 0));
                    lemma_key_lt_transitive(s[i].key, last.key, key, 0);
                }
            }
            assert(c == d.len()) by {
                if c < d.len() {
                    assert(key_lt(key, d[c].key, 0));
                    assert(key_lt(d[c].key, key, 0));
                    lemma_key_lt_transitive(key, d[c].key, key, 0);
                    lemma_key_lt_irreflexive(key, 0);
                }
            }
            assert(count_keys_before(s, key) == s.len());
        } else {
            assert(key_lt(key, last.key, 0));
            assert(count_keys_before(s, key) == c);
            assert forall|i: int| 0 <= i < c implies key_lt(s[i].key, key, 0) by {
                assert(s[i] == d[i]);
            }
            assert forall|i: int| c <= i < s.len() implies key_lt(key, s[i].key, 0) by {
                if i < d.len() {
                    assert(s[i] == d[i]);
                }
            }
        }
    }
}

proof fn lemma_by_key_ordered(ts: Seq<HostTally>, k: int)
    requires
        0 <= k <= ts.len(),
        forall|i: int, j: int| 0 <= i < j < ts.len() ==> ts[i].key != ts[j].key,
    ensures
        ordered_by_key(by_key(ts, k)),
        by_key(ts, k).len() == k,
        forall|i: int| 0 <= i < k ==> by_key(ts, k).contains(ts[i]),
        forall|i: int| 0 <= i < by_key(ts, k).len() ==> exists|j: int| 0 <= j < k && #[trigger] by_key(ts, k)[i] == ts[j],
    decreases k,
{
    if k > 0 {
        lemma_by_key_ordered(ts, k - 1);
        let s = by_key(ts, k - 1);
        let t = ts[k - 1];
        assert forall|i: int| 0 <= i < s.len() implies s[i].key != t.key by {
            let j = choose|j: int| 0 <= j < k - 1 && s[i] == ts[j];
        }
        lemma_count_keys_before(s, t.key);
        let p = count_keys_before(s, t.key);
        let r = s.insert(p, t);
        assert forall|i: int, j: int| 0 <= i < j < r.len() implies key_lt(#[trigger] r[i].key, #[trigger] r[j].key, 0) by {
            if j < p {
                assert(key_lt(s[i].key, s[j].key, 0));
            } else if j == p {
                assert(r[i] == s[i]);
            } else if i == p {
                assert(r[j] == s[j - 1]);
            } else if i < p {
                assert(r[j] == s[j - 1]);
                assert(key_lt(s[i].key, s[j - 1].key, 0));
            } else {
                assert(key_lt(s[i - 1].key, s[j - 1].key, 0));
            }
        }
        assert forall|i: int| 0 <= i < k implies r.contains(ts[i]) by {
            if i == k - 1 {
                assert(r[p] == t);
            } else {
                assert(s.contains(ts[i]));
                let q = choose|q: int| 0 <= q < s.len() && s[q] == ts[i];
                if q < p {
                    assert(r[q] == s[q]);
                } else {
                    assert(r[q + 1] == s[q]);
                }
            }
        }
        assert forall|i: int| 0 <= i < r.len() implies exists|j: int| 0 <= j < k && #[trigger] r[i] == ts[j] by {
            if i < p {
                assert(r[i] == s[i]);
            } else if i == p {
                assert(r[i] == ts[k - 1]);
            } else {
                assert(r[i] == s[i - 1]);
            }
        }
    }
}

/// The table lists each host once, in the order of the characters of its
/// name: every host met among the items, and no other.
pub proof fn lemma_hosts_listed_in_order(items: Seq<TallyItem>)
    ensures
        ordered_by_key(by_key(tallied(items, items.len() as int), tallied(items, items.len() as int).len() as int)),
        forall|i: int|
            0 <= i < items.len() ==> exists|j: int|
                0 <= j < by_key(tallied(items, items.len() as int), tallied(items, items.len() as int).len() as int).len()
                    && by_key(tallied(items, items.len() as int), tallied(items, items.len() as int).len() as int)[j].key
                    == (#[trigger] items[i]).host_key@,
{
    let n = items.len() as int;
    let ts = tallied(items, n);
    lemma_tallied_distinct(items, n);
    lemma_by_key_ordered(ts, ts.len() as int);
    assert forall|i: int| 0 <= i < n implies exists|j: int| 0 <= j < ts.len() && ts[j].key == (#[trigger] items[i]).host_key@ by {
        lemma_tallied_has_key(items, n, i);
    }
    let b = by_key(ts, ts.len() as int);
    assert forall|i: int| 0 <= i < n implies exists|j: int| 0 <= j < b.len() && b[j].key == (#[trigger] items[i]).host_key@ by {
        lemma_tallied_has_key(items, n, i);
        let j = choose|j: int| 0 <= j < ts.len() && #[trigger] ts[j].key == items[i].host_key@;
        assert(b.contains(ts[j]));
        let q = choose|q: int| 0 <= q < b.len() && b[q] == ts[j];
        assert(b[q].key == items[i].host_key@);
    }
}

proof fn lemma_tallied_has_key(items: Seq<TallyItem>, k: int, i: int)
    requires
        0 <= i < k <= items.len(),
    ensures
        exists|j: int| 0 <= j < tallied(items, k).len() && #[trigger] tallied(items, k)[j].key == items[i].host_key@,
    decreases k,
{
    let prev = tallied(items, k - 1);
    let item = items[k - 1];
    lemma_index_of_key(prev, item.host_key@, prev.len() as int);
    let cur = tallied(items, k);
    if i == k - 1 {
        match index_of_key(prev, item.host_key@, prev.len() as int) {
            Some(p) => {
                assert(cur[p].key == item.host_key@);
            },
            None => {
                assert(cur[prev.len() as int].key == item.host_key@);
            },
        }
    } else {
        lemma_tallied_has_key(items, k - 1, i);
        let j = choose|j: int| 0 <= j < prev.len() && #[trigger] prev[j].key == items[i].host_key@;
        match index_of_key(prev, item.host_key@, prev.len() as int) {
            Some(p) => {
                assert(cur[j].key == prev[j].key);
            },
            None => {
                assert(cur[j] == prev[j]);
            },
        }
    }
}

/// How many of the first `n` items are of kind `kind` on the host `key`.
pub open spec fn items_of(items: Seq<TallyItem>, n: int, key: Seq<char>, kind: TallyKind) -> nat
    decreases n,
{
    if n <= 0 || n > items.len() {
        0
    } else {
        items_of(items, n - 1, key, kind) + if items[n - 1].host_key@ == key && items[n - 1].kind == kind {
            1nat
        } else {
            0nat
        }
    }
}

/// `n`, or `usize::MAX` where it does not fit.
pub open spec fn capped(n: nat) -> usize {
    if n > usize::MAX {
        usize::MAX
    } else {
        n as usize
    }
}

proof fn lemma_items_of_some(items: Seq<TallyItem>, n: int, key: Seq<char>, kind: TallyKind)
    requires
        0 <= n <= items.len(),
        items_of(items, n, key, kind) > 0,
    ensures
        exists|i: int| 0 <= i < n && (#[trigger] items[i]).host_key@ == key,
    decreases n,
{
    if !(items[n - 1].host_key@ == key) {
        lemma_items_of_some(items, n - 1, key, kind);
        let i = choose|i: int| 0 <= i < n - 1 && (#[trigger] items[i]).host_key@ == key;
        assert(items[i].host_key@ == key);
    }
}

proof fn lemma_tallied_counts(items: Seq<TallyItem>, k: int, kind: TallyKind)
    requires
        0 <= k <= items.len(),
    ensures
        forall|j: int| 0 <= j < tallied(items, k).len() ==> count_of(#[trigger] tallied(items, k)[j], kind) == capped(
            items_of(items, k, tallied(items, k)[j].key, kind),
        ),
    decreases k,
{
    if k > 0 {
        lemma_tallied_counts(items, k - 1, kind);
        lemma_tallied_distinct(items, k - 1);
        let prev = tallied(items, k - 1);
        let item = items[k - 1];
        let cur = tallied(items, k);
        lemma_index_of_key(prev, item.host_key@, prev.len() as int);
        lemma_item_counted_in_its_kind(fresh_tally(item), item);
        assert forall|j: int| 0 <= j < cur.len() implies count_of(#[trigger] cur[j], kind) == capped(
            items_of(items, k, cur[j].key, kind),
        ) by {
            match index_of_key(prev, item.host_key@, prev.len() as int) {
                Some(p) => {
                    lemma_item_counted_in_its_kind(prev[p], item);
                    if j != p {
                        assert(cur[j] == prev[j]);
                        assert(prev[j].key != prev[p].key);
                    }
                },
                None => {
                    if j < prev.len() {
                        assert(cur[j] == prev[j]);
                    } else {
                        if items_of(items, k - 1, item.host_key@, kind) > 0 {
                            lemma_items_of_some(items, k - 1, item.host_key@, kind);
                            let i = choose|i: int| 0 <= i < k - 1 && (#[trigger] items[i]).host_key@ == item.host_key@;
                            lemma_tallied_has_key(items, k - 1, i);
                        }
                    }
                },
            }
        }
    }
}

/// The table counts each item once, on its own host and under its own
/// kind: every host's count of a kind is the number of items of that kind
/// on that host (capped at `usize::MAX`).
pub proof fn lemma_host_counts_are_item_counts(items: Seq<TallyItem>, kind: TallyKind)
    ensures
        forall|j: int|
            0 <= j < by_key(tallied(items, items.len() as int), tallied(items, items.len() as int).len() as int).len()
                ==> count_of(#[trigger] by_key(tallied(items, items.len() as int), tallied(items, items.len() as int).len() as int)[j], kind)
                == capped(items_of(items, items.len() as int, by_key(tallied(items, items.len() as int), tallied(items, items.len() as int).len() as int)[j].key, kind)),
{
    let n = items.len() as int;
    let ts = tallied(items, n);
    lemma_tallied_counts(items, n, kind);
    lemma_tallied_distinct(items, n);
    lemma_by_key_ordered(ts, ts.len() as int);
    let b = by_key(ts, ts.len() as int);
    assert forall|j: int| 0 <= j < b.len() implies count_of(#[trigger] b[j], kind) == capped(items_of(items, n, b[j].key, kind)) by {
        let q = choose|q: int| 0 <= q < ts.len() && #[trigger] b[j] == ts[q];
        assert(count_of(ts[q], kind) == capped(items_of(items, n, ts[q].key, kind)));
    }
}

} // verus!
