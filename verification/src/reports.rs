//! Build reports: the file of past build durations, and the expected
//! duration of a build from the durations recorded for it before.
use vstd::prelude::*;
use vstd::relations::{sorted_by, total_ordering};
use crate::text::{
    lines_acc, strip_cr, line_views, lines_of, split_lines, str_eq, chars_eq, chars_of, decimal, decimal_int, digit_char, i64_to_string, is_ascii_digit, is_white_space, lemma_rskip_ws,
    lemma_skip_ws, owned, push_str, rskip_ws, skip_ws, string_of, trim, trim_end, trim_start, trimmed,
};
use crate::types::HostWithoutContext;

verus! {

/// The order the durations are sorted in.
pub open spec fn le_i64() -> spec_fn(i64, i64) -> bool {
    |a: i64, b: i64| a <= b
}

/// The recorded durations from the shortest to the longest.
pub open spec fn sorted_values(values: Seq<i64>) -> Seq<i64> {
    values.sort_by(le_i64())
}

/// Half of `x`, rounded toward zero.
pub open spec fn half_toward_zero(x: int) -> int {
    if x >= 0 {
        x / 2
    } else {
        -((-x) / 2)
    }
}

/// The median of a sorted, non-empty sequence: its middle value, or for an
/// even length the mean of the two middle values, rounded toward zero.
pub open spec fn median_of_sorted(s: Seq<i64>) -> int {
    let len = s.len() as int;
    if len % 2 == 1 {
        s[len / 2] as int
    } else {
        half_toward_zero(s[len / 2 - 1] + s[len / 2])
    }
}

proof fn lemma_le_i64_total()
    ensures
        total_ordering(le_i64()),
{
}

fn insert_sorted(v: &mut Vec<i64>, x: i64)
    requires
        sorted_by(old(v)@, le_i64()),
    ensures
        sorted_by(final(v)@, le_i64()),
        final(v)@.to_multiset() == old(v)@.to_multiset().insert(x),
{
    let ghost old_v = v@;
    let mut i: usize = v.len();
    while i > 0 && v[i - 1] > x
        invariant
            i <= old_v.len(),
            v@ == old_v,
            forall|k: int| i <= k < old_v.len() ==> x < #[trigger] old_v[k],
        decreases i,
    {
        i -= 1;
    }
    proof {
        assert forall|k: int| 0 <= k < i implies v@[k] <= x by {
            if i > 0 {
                assert(le_i64()(v@[k], v@[i - 1]) || k == i - 1);
            }
        }
    }
    v.insert(i, x);
    proof {
        let nv = v@;
        assert(nv =~= old_v.take(i as int).push(x) + old_v.skip(i as int));
        assert forall|a: int, b: int| 0 <= a < b < nv.len() implies #[trigger] le_i64()(nv[a], nv[b]) by {
            if b < i {
                assert(le_i64()(old_v[a], old_v[b]));
            } else if a > i {
                assert(le_i64()(old_v[a - 1], old_v[b - 1]));
            } else if a == i {
                assert(nv[b] == old_v[b - 1]);
            } else {
                assert(a < i);
                if b == i {
                } else {
                    assert(nv[b] == old_v[b - 1]);
                    assert(le_i64()(old_v[a], old_v[b - 1]));
                }
            }
        }
        vstd::seq_lib::lemma_multiset_commutative(old_v.take(i as int).push(x), old_v.skip(i as int));
        vstd::seq_lib::lemma_multiset_commutative(old_v.take(i as int), old_v.skip(i as int));
        assert(old_v =~= old_v.take(i as int) + old_v.skip(i as int));
        assert(old_v.take(i as int).push(x).to_multiset() =~= old_v.take(i as int).to_multiset().insert(x)) by {
            vstd::seq_lib::lemma_multiset_commutative(old_v.take(i as int), seq![x]);
            assert(old_v.take(i as int).push(x) =~= old_v.take(i as int) + seq![x]);
            assert(seq![x].to_multiset() =~= vstd::multiset::Multiset::empty().insert(x)) by {
                broadcast use vstd::seq_lib::group_to_multiset_ensures;
                assert(seq![x] =~= Seq::<i64>::empty().push(x));
            }
        }
    }
}

/// The durations sorted from the shortest to the longest.
fn sort_values(values: &Vec<i64>) -> (r: Vec<i64>)
    ensures
        r@ == sorted_values(values@),
{
    let mut r: Vec<i64> = Vec::new();
    let mut i: usize = 0;
    proof {
        broadcast use vstd::seq_lib::group_to_multiset_ensures;
        assert(values@.take(0) =~= Seq::<i64>::empty());
    }
    while i < values.len()
        invariant
            i <= values.len(),
            sorted_by(r@, le_i64()),
            r@.to_multiset() == values@.take(i as int).to_multiset(),
        decreases values.len() - i,
    {
        insert_sorted(&mut r, values[i]);
        proof {
            broadcast use vstd::seq_lib::group_to_multiset_ensures;
            assert(values@.take(i + 1) =~= values@.take(i as int).push(values@[i as int]));
        }
        i += 1;
    }
    proof {
        assert(values@.take(values@.len() as int) =~= values@);
        lemma_le_i64_total();
        values@.lemma_sort_by_ensures(le_i64());
        vstd::seq_lib::lemma_sorted_unique(r@, sorted_values(values@), le_i64());
    }
    r
}

/// The median of the recorded durations, or `None` where there are none.
pub fn calculate_median(values: &Vec<i64>) -> (r: Option<i64>)
    ensures
        values@.len() == 0 <==> r is None,
        values@.len() > 0 ==> r == Some(median_of_sorted(sorted_values(values@)) as i64)
            && median_of_sorted(sorted_values(values@)) == r->0 as int,
{
    let len = values.len();
    if len == 0 {
        return None;
    }
    let s = sort_values(values);
    proof {
        lemma_le_i64_total();
        values@.lemma_sort_by_ensures(le_i64());
        vstd::seq_lib::to_multiset_len(values@);
        vstd::seq_lib::to_multiset_len(s@);
    }
    assert(s@.len() == len);
    if len % 2 == 1 {
        Some(s[len / 2])
    } else {
        let low = s[len / 2 - 1] as i128;
        let high = s[len / 2] as i128;
        let sum = low + high;
        let half = if sum >= 0 {
            sum / 2
        } else {
            -((-sum) / 2)
        };
        Some(half as i64)
    }
}


/// The median sits in the middle of the durations: sorted from the shortest
/// to the longest (a reordering of them), at least the first half of them
/// are at most the median and at least the last half at least it; so it lies
/// between the shortest and the longest.
pub proof fn lemma_median_in_the_middle(values: Seq<i64>)
    requires
        values.len() > 0,
    ensures
        sorted_values(values).to_multiset() == values.to_multiset(),
        sorted_by(sorted_values(values), le_i64()),
        forall|i: int| 0 <= i < (values.len() + 1) / 2 ==> sorted_values(values)[i] <= median_of_sorted(sorted_values(values)),
        forall|i: int| values.len() / 2 <= i < values.len() ==> median_of_sorted(sorted_values(values)) <= sorted_values(values)[i],
        sorted_values(values)[0] <= median_of_sorted(sorted_values(values)) <= sorted_values(values)[values.len() - 1],
{
    lemma_le_i64_total();
    values.lemma_sort_by_ensures(le_i64());
    vstd::seq_lib::to_multiset_len(values);
    vstd::seq_lib::to_multiset_len(sorted_values(values));
    let s = sorted_values(values);
    let n = values.len() as int;
    let m = median_of_sorted(s);
    assert(s.len() == n);
    if n % 2 == 0 {
        let a = s[n / 2 - 1];
        let b = s[n / 2];
        assert(le_i64()(a, b));
        assert(a <= m <= b);
        assert forall|i: int| 0 <= i < (n + 1) / 2 implies s[i] <= m by {
            if i < n / 2 - 1 {
                assert(le_i64()(s[i], a));
            }
        }
        assert forall|i: int| n / 2 <= i < n implies m <= s[i] by {
            if i > n / 2 {
                assert(le_i64()(b, s[i]));
            }
        }
    } else {
        assert forall|i: int| 0 <= i < (n + 1) / 2 implies s[i] <= m by {
            if i < n / 2 {
                assert(le_i64()(s[i], s[n / 2]));
            }
        }
        assert forall|i: int| n / 2 <= i < n implies m <= s[i] by {
            if i > n / 2 {
                assert(le_i64()(s[n / 2], s[i]));
            }
        }
    }
    assert(s[0] <= m);
    assert(m <= s[n - 1]);
}

// ---------------------------------------------------------------------
// Numbers
// ---------------------------------------------------------------------

/// The value of a string of decimal digits.
pub open spec fn digits_value(s: Seq<char>) -> int
    decreases s.len(),
{
    if s.len() == 0 {
        0
    } else {
        digits_value(s.drop_last()) * 10 + (s.last() as int - '0' as int)
    }
}

pub open spec fn all_digits(s: Seq<char>) -> bool {
    s.len() > 0 && forall|i: int| 0 <= i < s.len() ==> is_ascii_digit(#[trigger] s[i])
}

/// The length of a leading sign.
pub open spec fn sign_len(s: Seq<char>) -> int {
    if s.len() > 0 && (s[0] == '-' || s[0] == '+') {
        1
    } else {
        0
    }
}

/// What `str::parse::<i64>` gives: an optional sign followed by at least
/// one digit and nothing else, whose value fits in an `i64`.
pub open spec fn i64_text(s: Seq<char>) -> Option<i64> {
    let neg = s.len() > 0 && s[0] == '-';
    let body = s.skip(sign_len(s));
    let v = if neg {
        -digits_value(body)
    } else {
        digits_value(body)
    };
    if all_digits(body) && i64::MIN <= v <= i64::MAX {
        Some(v as i64)
    } else {
        None
    }
}

proof fn lemma_digits_value_grows(s: Seq<char>, k: int)
    requires
        0 <= k <= s.len(),
        forall|i: int| 0 <= i < s.len() ==> is_ascii_digit(#[trigger] s[i]),
    ensures
        digits_value(s) >= digits_value(s.take(k)) >= 0,
    decreases s.len(),
{
    if s.len() > 0 {
        let d = s.drop_last();
        assert forall|i: int| 0 <= i < d.len() implies is_ascii_digit(#[trigger] d[i]) by {
            assert(d[i] == s[i]);
        }
        if k == s.len() {
            assert(s.take(k) =~= s);
            lemma_digits_value_grows(d, d.len() as int);
            assert(d.take(d.len() as int) =~= d);
        } else {
            lemma_digits_value_grows(d, k);
            assert(d.take(k) =~= s.take(k));
            assert(is_ascii_digit(s.last()));
        }
    } else {
        assert(s.take(k) =~= s);
    }
}

/// Reads a decimal integer as `str::parse::<i64>` does.
pub fn parse_i64(s: &str) -> (r: Option<i64>)
    ensures
        r == i64_text(s@),
{
    let cs = chars_of(s);
    let n = cs.len();
    let neg = n > 0 && cs[0] == '-';
    let start: usize = if n > 0 && (cs[0] == '-' || cs[0] == '+') {
        1
    } else {
        0
    };
    let ghost body = s@.skip(start as int);
    assert(start as int == sign_len(s@));
    if start >= n {
        proof {
            assert(body.len() == 0);
        }
        return None;
    }
    let limit: u64 = 9223372036854775808;
    let mut acc: u64 = 0;
    let mut i: usize = start;
    while i < n
        invariant
            cs@ == s@,
            n == cs.len(),
            start <= i <= n,
            body == s@.skip(start as int),
            start as int == sign_len(s@),
            forall|j: int| start <= j < i ==> is_ascii_digit(#[trigger] cs@[j]),
            acc == digits_value(body.take(i - start)),
            acc <= limit,
            limit == 9223372036854775808u64,
        decreases n - i,
    {
        let c = cs[i];
        if !('0' <= c && c <= '9') {
            proof {
                assert(body[i - start] == c);
                assert(!is_ascii_digit(body[i - start]));
                assert(!all_digits(body));
            }
            return None;
        }
        let d = (c as u32 - '0' as u32) as u64;
        proof {
            assert(body.take(i - start + 1).drop_last() =~= body.take(i - start));
            assert(body.take(i - start + 1).last() == c);
        }
        if acc > (limit - d) / 10 {
            proof {
                assert(digits_value(body.take(i - start + 1)) == acc * 10 + d);
                assert(acc * 10 + d > limit) by (nonlinear_arith)
                    requires
                        acc > (limit - d) / 10,
                        d <= 9,
                        limit == 9223372036854775808u64,
                ;
                assert forall|t: int| 0 <= t < body.take(i - start + 1).len() implies is_ascii_digit(#[trigger] body.take(i - start + 1)[t]) by {
                    assert(body.take(i - start + 1)[t] == cs@[start + t]);
                }
                if all_digits(body) {
                    lemma_digits_value_grows(body, i - start + 1);
                }
            }
            return None;
        }
        acc = acc * 10 + d;
        i += 1;
    }
    proof {
        assert(body.take(n - start) =~= body);
        assert forall|t: int| 0 <= t < body.len() implies is_ascii_digit(#[trigger] body[t]) by {
            assert(body[t] == cs@[start + t]);
        }
    }
    if neg {
        if acc == limit {
            Some(-9223372036854775807i64 - 1)
        } else {
            Some(-(acc as i64))
        }
    } else {
        if acc == limit {
            None
        } else {
            Some(acc as i64)
        }
    }
}

// ---------------------------------------------------------------------
// The reports file
// ---------------------------------------------------------------------

/// The comma-separated fields of `s`, as `str::split(',')` gives them: one
/// more than there are commas, empty ones included.
pub open spec fn comma_fields(s: Seq<char>) -> Seq<Seq<char>>
    decreases s.len(),
{
    if s.len() == 0 {
        seq![Seq::empty()]
    } else {
        let f = comma_fields(s.drop_last());
        if s.last() == ',' {
            f.push(Seq::empty())
        } else {
            f.update(f.len() - 1, f.last().push(s.last()))
        }
    }
}

proof fn lemma_comma_fields_len(s: Seq<char>)
    ensures
        comma_fields(s).len() >= 1,
    decreases s.len(),
{
    if s.len() > 0 {
        lemma_comma_fields_len(s.drop_last());
    }
}

/// The first `k` comma-separated fields of `cs`, with at most `k` kept.
fn first_fields(cs: &Vec<char>, k: usize) -> (r: Vec<Vec<char>>)
    ensures
        r@.len() == if comma_fields(cs@).len() < k { comma_fields(cs@).len() } else { k as nat },
        forall|i: int| 0 <= i < r@.len() ==> (#[trigger] r@[i])@ == comma_fields(cs@)[i],
{
    let mut fields: Vec<Vec<char>> = Vec::new();
    let mut cur: Vec<char> = Vec::new();
    let mut i: usize = 0;
    proof {
        assert(cs@.take(0) =~= Seq::<char>::empty());
    }
    while i < cs.len()
        invariant
            i <= cs.len(),
            comma_fields(cs@.take(i as int)).len() == fields@.len() + 1,
            forall|j: int| 0 <= j < fields@.len() ==> (#[trigger] fields@[j])@ == comma_fields(cs@.take(i as int))[j],
            cur@ == comma_fields(cs@.take(i as int)).last(),
        decreases cs.len() - i,
    {
        let c = cs[i];
        proof {
            assert(cs@.take(i + 1).drop_last() =~= cs@.take(i as int));
            assert(cs@.take(i + 1).last() == c);
            lemma_comma_fields_len(cs@.take(i as int));
        }
        if c == ',' {
            let done = cur;
            fields.push(done);
            cur = Vec::new();
            proof {
                assert(cur@ =~= Seq::<char>::empty());
            }
        } else {
            cur.push(c);
        }
        i += 1;
    }
    fields.push(cur);
    proof {
        assert(cs@.take(cs@.len() as int) =~= cs@);
    }
    let mut out: Vec<Vec<char>> = Vec::new();
    let mut j: usize = 0;
    while j < fields.len() && j < k
        invariant
            j <= fields@.len(),
            fields@.len() == comma_fields(cs@).len(),
            forall|t: int| 0 <= t < fields@.len() ==> (#[trigger] fields@[t])@ == comma_fields(cs@)[t],
            out@.len() == j,
            j <= k,
            forall|t: int| 0 <= t < j ==> (#[trigger] out@[t])@ == comma_fields(cs@)[t],
        decreases fields.len() - j,
    {
        out.push(fields[j].clone());
        j += 1;
    }
    out
}


/// The first line of the reports file.
pub const REPORTS_HEADER: &'static str = "hostname,derivation name,utc time,build seconds";

/// How the reports file writes the time a build ended, in UTC.
pub const REPORT_TIME_FORMAT: &'static str = "%Y-%m-%d %H:%M:%S";

/// The instant that `chrono` reads from `text` in the format `fmt`, taken
/// as UTC: seconds since the epoch and nanoseconds within the second.
pub uninterp spec fn parsed_instant(text: Seq<char>, fmt: Seq<char>) -> Option<(i64, u32)>;

/// `chrono::NaiveDateTime::parse_from_str`, taken as UTC
/// (`and_utc`, `timestamp`, `timestamp_subsec_nanos`): what it reads is
/// named, not stated.
#[verifier::external_body]
fn parse_instant(text: &str, fmt: &str) -> (r: Option<(i64, u32)>)
    ensures
        r == parsed_instant(text@, fmt@),
{
    match chrono::NaiveDateTime::parse_from_str(text, fmt) {
        Ok(t) => Some((t.and_utc().timestamp(), t.and_utc().timestamp_subsec_nanos())),
        Err(_) => None,
    }
}

/// The first second of the year 1000 and the last second of the year 9999
/// (UTC, seconds since the epoch): the instants whose year `%Y` writes with
/// four digits and no sign.
pub const FOUR_DIGIT_YEARS_START: i64 = -30610224000;
pub const FOUR_DIGIT_YEARS_END: i64 = 253402300799;

/// The shape of a time written as `%Y-%m-%d %H:%M:%S` with a four-digit
/// year: digits, with `-` `-` ` ` `:` `:` at their places.
pub open spec fn report_time_shape(t: Seq<char>) -> bool {
    &&& t.len() == 19
    &&& forall|i: int|
        0 <= i < 19 ==> if i == 4 || i == 7 {
            #[trigger] t[i] == '-'
        } else if i == 10 {
            t[i] == ' '
        } else if i == 13 || i == 16 {
            t[i] == ':'
        } else {
            is_ascii_digit(t[i])
        }
}

/// The text that `chrono` writes for an instant in the format `fmt`, where
/// the instant is one it can hold.
pub uninterp spec fn instant_text(secs: i64, nanos: u32, fmt: Seq<char>) -> Option<Seq<char>>;

/// `chrono::DateTime::<Utc>::from_timestamp` then `format`: what it writes
/// is named, not stated in full. The reports' format is the only one it is
/// given, for a format `chrono` cannot read makes the writing panic. Of a
/// whole second in the years 1000 to 9999 the contract says more, as
/// `chrono`'s format table documents it (`%Y` zero-padded to four digits,
/// `%m %d %H %M %S` to two): it is written, in the shape of
/// [`report_time_shape`], and `NaiveDateTime::parse_from_str` in the same
/// format reads it back as that second.
#[verifier::external_body]
fn format_instant(secs: i64, nanos: u32, fmt: &str) -> (r: Option<String>)
    requires
        fmt@ == REPORT_TIME_FORMAT@,
    ensures
        match r {
            Some(t) => instant_text(secs, nanos, fmt@) == Some(t@),
            None => instant_text(secs, nanos, fmt@) is None,
        },
        match r {
            Some(t) => nanos == 0 && FOUR_DIGIT_YEARS_START <= secs <= FOUR_DIGIT_YEARS_END ==> report_time_shape(t@)
                && parsed_instant(t@, fmt@) == Some((secs, 0u32)),
            None => !(nanos == 0 && FOUR_DIGIT_YEARS_START <= secs <= FOUR_DIGIT_YEARS_END),
        },
{
    match chrono::DateTime::<chrono::Utc>::from_timestamp(secs, nanos) {
        Some(t) => Some(format!("{}", t.format(fmt))),
        None => None,
    }
}

/// One line of the reports file: the host, the derivation's name, when the
/// build ended, and how many seconds it took.
#[derive(Clone, Debug, PartialEq, Eq)]
pub struct BuildReport {
    pub host: HostWithoutContext,
    pub drv_name: String,
    pub end_secs: i64,
    pub end_nanos: u32,
    pub build_secs: i64,
}

/// The host a report names: the local machine for an empty name or
/// `localhost`.
pub open spec fn report_host(h: Seq<char>) -> Option<Seq<char>> {
    if h.len() == 0 || h == "localhost"@ {
        None
    } else {
        Some(h)
    }
}

/// What a line of the reports file holds: its first four comma-separated
/// fields, trimmed, are the host, the derivation's name, the time and the
/// seconds; a line with fewer fields, a time `chrono` cannot read or seconds
/// that are no `i64` holds nothing.
pub open spec fn parsed_report(line: Seq<char>) -> Option<(Option<Seq<char>>, Seq<char>, (i64, u32), i64)> {
    let f = comma_fields(trim(line));
    if f.len() < 4 {
        None
    } else {
        match (parsed_instant(trim(f[2]), REPORT_TIME_FORMAT@), i64_text(trim(f[3]))) {
            (Some(t), Some(secs)) => Some((report_host(trim(f[0])), trim(f[1]), t, secs)),
            _ => None,
        }
    }
}

/// Reads one line of the reports file.
pub fn parse_report_line(line: &str) -> (r: Option<BuildReport>)
    ensures
        match r {
            Some(rep) => parsed_report(line@) == Some((rep.host@, rep.drv_name@, (rep.end_secs, rep.end_nanos), rep.build_secs)),
            None => parsed_report(line@) is None,
        },
{
    let t = trimmed(&chars_of(line));
    let f = first_fields(&t, 4);
    if f.len() < 4 {
        return None;
    }
    let host_s = trimmed(&f[0]);
    let name_s = trimmed(&f[1]);
    let time_s = trimmed(&f[2]);
    let secs_s = trimmed(&f[3]);
    let time_text = string_of(&time_s, 0, time_s.len());
    let secs_text = string_of(&secs_s, 0, secs_s.len());
    proof {
        assert(time_s@.subrange(0, time_s@.len() as int) =~= time_s@);
        assert(secs_s@.subrange(0, secs_s@.len() as int) =~= secs_s@);
    }
    let end_time = match parse_instant(time_text.as_str(), REPORT_TIME_FORMAT) {
        Some(e) => e,
        None => {
            return None;
        },
    };
    let build_secs = match parse_i64(secs_text.as_str()) {
        Some(v) => v,
        None => {
            return None;
        },
    };
    let local = chars_of("localhost");
    let host = if host_s.len() == 0 || chars_eq(&host_s, &local) {
        HostWithoutContext::Localhost
    } else {
        HostWithoutContext::Hostname(string_of(&host_s, 0, host_s.len()))
    };
    proof {
        assert(host_s@.subrange(0, host_s@.len() as int) =~= host_s@);
        assert(name_s@.subrange(0, name_s@.len() as int) =~= name_s@);
    }
    Some(BuildReport {
        host,
        drv_name: string_of(&name_s, 0, name_s.len()),
        end_secs: end_time.0,
        end_nanos: end_time.1,
        build_secs,
    })
}

/// The line of the reports file for a report: the host's name (empty for
/// the local machine), the derivation's name, the time and the seconds,
/// separated by commas; nothing where `chrono` cannot write the time.
pub open spec fn report_line_text(host: Option<Seq<char>>, name: Seq<char>, end_time: (i64, u32), secs: i64) -> Option<Seq<char>> {
    let h = match host {
        None => Seq::empty(),
        Some(h) => h,
    };
    match instant_text(end_time.0, end_time.1, REPORT_TIME_FORMAT@) {
        Some(t) => Some(h + ","@ + name + ","@ + t + ","@ + decimal_int(secs as int)),
        None => None,
    }
}

/// Names that a line of the reports file holds as they are: each equal to
/// its trimmed text and without commas; a host name neither empty nor
/// `localhost`.
pub open spec fn plain_report_names(host: Option<Seq<char>>, name: Seq<char>) -> bool {
    &&& name == trim(name)
    &&& !name.contains(',')
    &&& match host {
        Some(h) => h.len() > 0 && h == trim(h) && !h.contains(',') && h != "localhost"@,
        None => true,
    }
}

/// What `chrono` writes of the whole second `secs` in the reports' format
/// has the shape of [`report_time_shape`] and reads back as that second.
pub open spec fn second_reads_back(secs: i64) -> bool {
    instant_text(secs, 0, REPORT_TIME_FORMAT@) matches Some(t) && report_time_shape(t)
        && parsed_instant(t, REPORT_TIME_FORMAT@) == Some((secs, 0u32))
}

/// Writes the line of the reports file for a build of `drv_name` on `host`
/// that ended at (`end_secs`, `end_nanos`) and took `build_secs` seconds.
fn report_line_for(host: &HostWithoutContext, drv_name: &str, end_secs: i64, end_nanos: u32, build_secs: i64) -> (r: Option<String>)
    ensures
        match r {
            Some(l) => report_line_text(host@, drv_name@, (end_secs, end_nanos), build_secs) == Some(l@),
            None => report_line_text(host@, drv_name@, (end_secs, end_nanos), build_secs) is None,
        },
        end_nanos == 0 && FOUR_DIGIT_YEARS_START <= end_secs <= FOUR_DIGIT_YEARS_END ==> r is Some
            && second_reads_back(end_secs),
{
    let t = match format_instant(end_secs, end_nanos, REPORT_TIME_FORMAT) {
        Some(t) => t,
        None => {
            return None;
        },
    };
    let mut out = owned(host.as_str());
    push_str(&mut out, ",");
    push_str(&mut out, drv_name);
    push_str(&mut out, ",");
    push_str(&mut out, t.as_str());
    push_str(&mut out, ",");
    push_str(&mut out, i64_to_string(build_secs).as_str());
    Some(out)
}

/// Writes the line of the reports file for a report. A report of a whole
/// second in the years 1000 to 9999 with plain names (see
/// [`plain_report_names`]) reads back as the same report.
pub fn report_line(report: &BuildReport) -> (r: Option<String>)
    ensures
        match r {
            Some(l) => report_line_text(report.host@, report.drv_name@, (report.end_secs, report.end_nanos), report.build_secs) == Some(l@),
            None => report_line_text(report.host@, report.drv_name@, (report.end_secs, report.end_nanos), report.build_secs) is None,
        },
        report.end_nanos == 0 && FOUR_DIGIT_YEARS_START <= report.end_secs <= FOUR_DIGIT_YEARS_END
            && plain_report_names(report.host@, report.drv_name@) ==> (r matches Some(l) && parsed_report(l@)
            == Some((report.host@, report.drv_name@, (report.end_secs, 0u32), report.build_secs))),
{
    let r = report_line_for(&report.host, report.drv_name.as_str(), report.end_secs, report.end_nanos, report.build_secs);
    proof {
        if report.end_nanos == 0 && FOUR_DIGIT_YEARS_START <= report.end_secs <= FOUR_DIGIT_YEARS_END
            && plain_report_names(report.host@, report.drv_name@) {
            let t = instant_text(report.end_secs, 0, REPORT_TIME_FORMAT@)->Some_0;
            lemma_report_line_reads_back(report.host@, report.drv_name@, t, report.end_secs, report.build_secs);
        }
    }
    r
}

pub(crate) proof fn lemma_trim_keeps_edges(s: Seq<char>)
    requires
        s.len() > 0,
        !is_white_space(s[0]),
        !is_white_space(s[s.len() - 1]),
    ensures
        trim(s) == s,
{
    assert(skip_ws(s, 0) == 0);
    assert(trim_start(s) =~= s);
    assert(rskip_ws(s, s.len() as int) == s.len());
    assert(trim_end(s) =~= s);
}

proof fn lemma_trimmed_edges(s: Seq<char>)
    requires
        s.len() > 0,
        trim(s) == s,
    ensures
        !is_white_space(s[0]),
        !is_white_space(s[s.len() - 1]),
{
    lemma_skip_ws(s, 0);
    let a = skip_ws(s, 0);
    let t = trim_start(s);
    lemma_rskip_ws(t, t.len() as int);
    let b = rskip_ws(t, t.len() as int);
    assert(trim(s).len() == b);
    assert(a == 0);
    assert(t =~= s);
    assert(b == s.len());
}

proof fn lemma_comma_fields_plain(y: Seq<char>)
    requires
        !y.contains(','),
    ensures
        comma_fields(y) == seq![y],
    decreases y.len(),
{
    if y.len() > 0 {
        let d = y.drop_last();
        assert(!d.contains(',')) by {
            if d.contains(',') {
                let i = choose|i: int| 0 <= i < d.len() && d[i] == ',';
                assert(y[i] == ',');
            }
        }
        lemma_comma_fields_plain(d);
        assert(y[y.len() - 1] != ',');
        assert(d.push(y.last()) =~= y);
    } else {
        assert(y =~= Seq::<char>::empty());
    }
}

proof fn lemma_comma_fields_after(x: Seq<char>, y: Seq<char>)
    requires
        !y.contains(','),
    ensures
        comma_fields(x + seq![','] + y) == comma_fields(x).push(y),
    decreases y.len(),
{
    let s = x + seq![','] + y;
    if y.len() == 0 {
        assert(s.drop_last() =~= x);
        assert(s.last() == ',');
        assert(y =~= Seq::<char>::empty());
    } else {
        let d = y.drop_last();
        assert(!d.contains(',')) by {
            if d.contains(',') {
                let i = choose|i: int| 0 <= i < d.len() && d[i] == ',';
                assert(y[i] == ',');
            }
        }
        lemma_comma_fields_after(x, d);
        assert(s.drop_last() =~= x + seq![','] + d);
        assert(s.last() == y.last());
        assert(y[y.len() - 1] != ',');
        assert(d.push(y.last()) =~= y);
        assert(comma_fields(x).push(d).update(comma_fields(x).len() as int, d.push(y.last())) =~= comma_fields(x).push(y));
    }
}

proof fn lemma_decimal_int_plain(n: i64)
    ensures
        !decimal_int(n as int).contains(','),
        !decimal_int(n as int).contains('\n'),
        decimal_int(n as int).len() > 0,
        !is_white_space(decimal_int(n as int)[0]),
        !is_white_space(decimal_int(n as int).last()),
{
    let d = decimal_int(n as int);
    if n < 0 {
        let m = (-n) as nat;
        lemma_decimal_digits(m);
        let e = decimal(m);
        assert(d == seq!['-'] + e);
        assert(d[0] == '-');
        assert(d.last() == e.last());
        assert(is_ascii_digit(e[e.len() - 1]));
        assert forall|i: int| 0 <= i < d.len() implies d[i] != ',' && d[i] != '\n' by {
            if i > 0 {
                assert(d[i] == e[i - 1]);
                assert(is_ascii_digit(e[i - 1]));
            }
        }
    } else {
        lemma_decimal_digits(n as nat);
        assert(is_ascii_digit(d[0]));
        assert(is_ascii_digit(d[d.len() - 1]));
        assert forall|i: int| 0 <= i < d.len() implies d[i] != ',' && d[i] != '\n' by {
            assert(is_ascii_digit(d[i]));
        }
    }
}

/// A line written for plain names and a time `chrono` reads back as the
/// second it was written for reads back as the report.
proof fn lemma_report_line_reads_back(host: Option<Seq<char>>, name: Seq<char>, t: Seq<char>, secs: i64, build: i64)
    requires
        plain_report_names(host, name),
        report_time_shape(t),
        parsed_instant(t, REPORT_TIME_FORMAT@) == Some((secs, 0u32)),
        instant_text(secs, 0, REPORT_TIME_FORMAT@) == Some(t),
    ensures
        report_line_text(host, name, (secs, 0u32), build) matches Some(l) && parsed_report(l)
            == Some((host, name, (secs, 0u32), build)),
{
    reveal_strlit(",");
    reveal_strlit("localhost");
    let h = match host {
        None => Seq::<char>::empty(),
        Some(h) => h,
    };
    let d = decimal_int(build as int);
    let l = h + ","@ + name + ","@ + t + ","@ + d;
    assert(report_line_text(host, name, (secs, 0u32), build) == Some(l));
    lemma_decimal_int_plain(build);
    // The time: digits and separators, no comma, no white space at its ends.
    assert forall|i: int| 0 <= i < t.len() implies t[i] != ',' by {
        assert(0 <= i < 19);
    }
    assert(t[0] != ',' && is_ascii_digit(t[0]) && is_ascii_digit(t[18]));
    lemma_trim_keeps_edges(t);
    lemma_trim_keeps_edges(d);
    assert(!h.contains(','));
    // The whole line keeps its ends.
    if h.len() > 0 {
        lemma_trimmed_edges(h);
        assert(l[0] == h[0]);
    } else {
        assert(l[0] == ',');
    }
    assert(l[l.len() - 1] == d[d.len() - 1]);
    lemma_trim_keeps_edges(l);
    // Its fields.
    let comma = seq![','];
    assert(","@ =~= comma);
    let a = h + comma + name;
    let b = a + comma + t;
    assert(l =~= b + comma + d);
    lemma_comma_fields_plain(h);
    lemma_comma_fields_after(h, name);
    lemma_comma_fields_after(a, t);
    lemma_comma_fields_after(b, d);
    let f = comma_fields(trim(l));
    assert(f =~= seq![h, name, t, d]);
    lemma_i64_text_round_trip(build);
    if host is None {
        assert(trim(h) =~= h);
    }
}


// ---------------------------------------------------------------------
// The history of one build
// ---------------------------------------------------------------------

/// How many durations are kept for each build on each host.
pub const HISTORY_LIMIT: usize = 10;

/// Instant `a` comes before instant `b`.
pub open spec fn instant_before(a: (i64, u32), b: (i64, u32)) -> bool {
    a.0 < b.0 || (a.0 == b.0 && a.1 < b.1)
}

/// The durations recorded for one build, oldest first, at most
/// `HISTORY_LIMIT` of them, at most one for each instant.
#[derive(Clone, Debug)]
pub struct History {
    entries: Vec<(i64, u32, i64)>,
}

pub open spec fn entry_instant(e: (i64, u32, i64)) -> (i64, u32) {
    (e.0, e.1)
}

/// The entries come in the order of their instants, no two at the same one.
pub open spec fn strictly_ordered(s: Seq<(i64, u32, i64)>) -> bool {
    forall|i: int, j: int| 0 <= i < j < s.len() ==> instant_before(entry_instant(#[trigger] s[i]), entry_instant(#[trigger] s[j]))
}

/// How many entries come before instant `t`.
pub open spec fn count_before_instant(s: Seq<(i64, u32, i64)>, t: (i64, u32)) -> int
    decreases s.len(),
{
    if s.len() == 0 {
        0
    } else {
        count_before_instant(s.drop_last(), t) + if instant_before(entry_instant(s.last()), t) {
            1int
        } else {
            0int
        }
    }
}

/// `s` with the duration `v` recorded at instant `t`, in its place, in
/// place of any recorded at the same instant.
pub open spec fn with_entry(s: Seq<(i64, u32, i64)>, t: (i64, u32), v: i64) -> Seq<(i64, u32, i64)> {
    let i = count_before_instant(s, t);
    if i < s.len() && entry_instant(s[i]) == t {
        s.update(i, (t.0, t.1, v))
    } else {
        s.insert(i, (t.0, t.1, v))
    }
}

/// The newest `HISTORY_LIMIT` entries.
pub open spec fn newest(s: Seq<(i64, u32, i64)>) -> Seq<(i64, u32, i64)> {
    if s.len() > HISTORY_LIMIT {
        s.skip(s.len() - HISTORY_LIMIT)
    } else {
        s
    }
}

impl History {
    pub closed spec fn view(&self) -> Seq<(i64, u32, i64)> {
        self.entries@
    }

    pub closed spec fn wf(&self) -> bool {
        &&& strictly_ordered(self.entries@)
        &&& self.entries@.len() <= HISTORY_LIMIT
    }

    pub fn new() -> (r: Self)
        ensures
            r.wf(),
            r.view() == Seq::<(i64, u32, i64)>::empty(),
    {
        History { entries: Vec::new() }
    }

    /// A copy of the history.
    pub fn copied(&self) -> (r: Self)
        ensures
            r.view() == self.view(),
            r.wf() == self.wf(),
    {
        History { entries: self.entries() }
    }

    /// The recorded durations, oldest first.
    pub fn durations(&self) -> (r: Vec<i64>)
        ensures
            r@ == self.view().map_values(|e: (i64, u32, i64)| e.2),
    {
        let mut out: Vec<i64> = Vec::new();
        let mut i: usize = 0;
        while i < self.entries.len()
            invariant
                i <= self.entries@.len(),
                out@ == self.entries@.take(i as int).map_values(|e: (i64, u32, i64)| e.2),
            decreases self.entries.len() - i,
        {
            out.push(self.entries[i].2);
            proof {
                assert(self.entries@.take(i + 1) =~= self.entries@.take(i as int).push(self.entries@[i as int]));
                assert(out@ =~= self.entries@.take(i + 1).map_values(|e: (i64, u32, i64)| e.2));
            }
            i += 1;
        }
        assert(self.entries@.take(self.entries@.len() as int) =~= self.entries@);
        out
    }

    /// The recorded durations with their instants, oldest first.
    pub fn entries(&self) -> (r: Vec<(i64, u32, i64)>)
        ensures
            r@ == self.view(),
    {
        let mut out: Vec<(i64, u32, i64)> = Vec::new();
        let mut i: usize = 0;
        while i < self.entries.len()
            invariant
                i <= self.entries@.len(),
                out@ == self.entries@.take(i as int),
            decreases self.entries.len() - i,
        {
            out.push(self.entries[i]);
            proof {
                assert(self.entries@.take(i + 1) =~= self.entries@.take(i as int).push(self.entries@[i as int]));
            }
            i += 1;
        }
        assert(self.entries@.take(self.entries@.len() as int) =~= self.entries@);
        out
    }

    /// Records the duration `build_secs` of a build that ended at the
    /// instant (`secs`, `nanos`), in place of any recorded at the same
    /// instant, and keeps the newest `HISTORY_LIMIT`.
    pub fn insert_with_limit(&mut self, secs: i64, nanos: u32, build_secs: i64)
        requires
            old(self).wf(),
        ensures
            final(self).wf(),
            final(self).view() == newest(with_entry(old(self).view(), (secs, nanos), build_secs)),
    {
        let ghost s0 = self.entries@;
        let t = (secs, nanos);
        let mut i: usize = 0;
        let mut searching = true;
        while searching && i < self.entries.len()
            invariant
                i <= s0.len(),
                self.entries@ == s0,
                t == (secs, nanos),
                strictly_ordered(s0),
                forall|j: int| 0 <= j < i ==> instant_before(entry_instant(#[trigger] s0[j]), t),
                !searching ==> i < s0.len() && !instant_before(entry_instant(s0[i as int]), t),
            decreases s0.len() - i + if searching { 1int } else { 0int },
        {
            let e = self.entries[i];
            if e.0 < secs || (e.0 == secs && e.1 < nanos) {
                i += 1;
            } else {
                searching = false;
            }
        }
        proof {
            lemma_count_before_instant(s0, t, i as int);
        }
        let e = (secs, nanos, build_secs);
        if i < self.entries.len() && self.entries[i].0 == secs && self.entries[i].1 == nanos {
            self.entries.set(i, e);
            proof {
                let s1 = s0.update(i as int, e);
                assert forall|a: int, b: int| 0 <= a < b < s1.len() implies instant_before(entry_instant(#[trigger] s1[a]), entry_instant(#[trigger] s1[b])) by {
                    assert(instant_before(entry_instant(s0[a]), entry_instant(s0[b])));
                }
            }
        } else {
            self.entries.insert(i, e);
            proof {
                let s1 = s0.insert(i as int, e);
                assert forall|a: int, b: int| 0 <= a < b < s1.len() implies instant_before(entry_instant(#[trigger] s1[a]), entry_instant(#[trigger] s1[b])) by {
                    if b < i {
                        assert(instant_before(entry_instant(s0[a]), entry_instant(s0[b])));
                    } else if a > i {
                        assert(instant_before(entry_instant(s0[a - 1]), entry_instant(s0[b - 1])));
                    } else if a == i {
                        assert(s1[b] == s0[b - 1]);
                        assert(!instant_before(entry_instant(s0[i as int]), t));
                        if b - 1 > i {
                            assert(instant_before(entry_instant(s0[i as int]), entry_instant(s0[b - 1])));
                        }
                    } else {
                        assert(s1[a] == s0[a]);
                        assert(instant_before(entry_instant(s0[a]), t));
                        if b > i {
                            assert(s1[b] == s0[b - 1]);
                            assert(instant_before(entry_instant(s0[a]), entry_instant(s0[b - 1])));
                        }
                    }
                }
            }
        }
        let ghost s2 = self.entries@;
        assert(s2 == with_entry(s0, t, build_secs));
        if self.entries.len() > HISTORY_LIMIT {
            let drop = self.entries.len() - HISTORY_LIMIT;
            let mut kept: Vec<(i64, u32, i64)> = Vec::new();
            let mut k: usize = drop;
            while k < self.entries.len()
                invariant
                    drop <= k <= s2.len(),
                    self.entries@ == s2,
                    kept@ == s2.subrange(drop as int, k as int),
                decreases s2.len() - k,
            {
                kept.push(self.entries[k]);
                proof {
                    assert(s2.subrange(drop as int, k + 1) =~= s2.subrange(drop as int, k as int).push(s2[k as int]));
                }
                k += 1;
            }
            self.entries = kept;
            proof {
                assert(self.entries@ =~= s2.skip(drop as int));
                assert forall|a: int, b: int| 0 <= a < b < self.entries@.len() implies instant_before(entry_instant(#[trigger] self.entries@[a]), entry_instant(#[trigger] self.entries@[b])) by {
                    assert(self.entries@[a] == s2[a + drop]);
                    assert(self.entries@[b] == s2[b + drop]);
                }
            }
        }
    }
}

proof fn lemma_count_splits(s: Seq<(i64, u32, i64)>, t: (i64, u32))
    requires
        strictly_ordered(s),
    ensures
        0 <= count_before_instant(s, t) <= s.len(),
        forall|j: int| 0 <= j < count_before_instant(s, t) ==> instant_before(entry_instant(#[trigger] s[j]), t),
        forall|j: int| count_before_instant(s, t) <= j < s.len() ==> !instant_before(entry_instant(#[trigger] s[j]), t),
    decreases s.len(),
{
    if s.len() > 0 {
        let d = s.drop_last();
        assert forall|a: int, b: int| 0 <= a < b < d.len() implies instant_before(entry_instant(#[trigger] d[a]), entry_instant(#[trigger] d[b])) by {
            assert(instant_before(entry_instant(s[a]), entry_instant(s[b])));
        }
        lemma_count_splits(d, t);
        let c = count_before_instant(d, t);
        if instant_before(entry_instant(s.last()), t) {
            assert forall|j: int| 0 <= j < d.len() implies instant_before(entry_instant(#[trigger] d[j]), t) by {
                assert(instant_before(entry_instant(s[j]), entry_instant(s[s.len() - 1])));
                assert(d[j] == s[j]);
            }
            if c < d.len() {
                assert(instant_before(entry_instant(d[c]), t));
            }
            assert(count_before_instant(s, t) == s.len());
            assert forall|j: int| 0 <= j < count_before_instant(s, t) implies instant_before(entry_instant(#[trigger] s[j]), t) by {
                if j < d.len() {
                    assert(d[j] == s[j]);
                }
            }
        } else {
            assert(count_before_instant(s, t) == c);
            assert forall|j: int| 0 <= j < c implies instant_before(entry_instant(#[trigger] s[j]), t) by {
                assert(d[j] == s[j]);
            }
            assert forall|j: int| c <= j < s.len() implies !instant_before(entry_instant(#[trigger] s[j]), t) by {
                if j < d.len() {
                    assert(d[j] == s[j]);
                }
            }
        }
    }
}

/// Recording a build in a history keeps its entries in the order of their
/// instants, holds the new duration at its instant, keeps every entry at
/// another instant, and adds one entry at most; only the newest
/// `HISTORY_LIMIT` of them stay, the older ones leave first.
pub proof fn lemma_history_keeps_the_newest(s: Seq<(i64, u32, i64)>, t: (i64, u32), v: i64)
    requires
        strictly_ordered(s),
    ensures
        strictly_ordered(with_entry(s, t, v)),
        with_entry(s, t, v).contains((t.0, t.1, v)),
        forall|j: int| 0 <= j < s.len() && entry_instant(s[j]) != t ==> with_entry(s, t, v).contains(#[trigger] s[j]),
        with_entry(s, t, v).len() == s.len() || with_entry(s, t, v).len() == s.len() + 1,
        newest(with_entry(s, t, v)).len() == if with_entry(s, t, v).len() > HISTORY_LIMIT { HISTORY_LIMIT as int } else { with_entry(s, t, v).len() as int },
        newest(with_entry(s, t, v)) == with_entry(s, t, v).skip(with_entry(s, t, v).len() - newest(with_entry(s, t, v)).len()),
{
    lemma_count_splits(s, t);
    let i = count_before_instant(s, t);
    let e = (t.0, t.1, v);
    let w = with_entry(s, t, v);
    if i < s.len() && entry_instant(s[i]) == t {
        assert(w == s.update(i, e));
        assert(w[i] == e);
        assert forall|a: int, b: int| 0 <= a < b < w.len() implies instant_before(entry_instant(#[trigger] w[a]), entry_instant(#[trigger] w[b])) by {
            assert(instant_before(entry_instant(s[a]), entry_instant(s[b])));
        }
        assert forall|j: int| 0 <= j < s.len() && entry_instant(s[j]) != t implies w.contains(#[trigger] s[j]) by {
            assert(j != i);
            assert(w[j] == s[j]);
        }
    } else {
        assert(w == s.insert(i, e));
        assert(w[i] == e);
        assert forall|a: int, b: int| 0 <= a < b < w.len() implies instant_before(entry_instant(#[trigger] w[a]), entry_instant(#[trigger] w[b])) by {
            if b < i {
                assert(instant_before(entry_instant(s[a]), entry_instant(s[b])));
            } else if a > i {
                assert(instant_before(entry_instant(s[a - 1]), entry_instant(s[b - 1])));
            } else if a == i {
                assert(w[b] == s[b - 1]);
                assert(!instant_before(entry_instant(s[i]), t));
                assert(entry_instant(s[i]) != t);
                if b - 1 > i {
                    assert(instant_before(entry_instant(s[i]), entry_instant(s[b - 1])));
                }
            } else {
                assert(instant_before(entry_instant(s[a]), t));
                if b > i {
                    assert(w[b] == s[b - 1]);
                    assert(instant_before(entry_instant(s[a]), entry_instant(s[b - 1])));
                }
            }
        }
        assert forall|j: int| 0 <= j < s.len() && entry_instant(s[j]) != t implies w.contains(#[trigger] s[j]) by {
            if j < i {
                assert(w[j] == s[j]);
            } else {
                assert(w[j + 1] == s[j]);
            }
        }
    }
    if w.len() <= HISTORY_LIMIT {
        assert(w.skip(0) =~= w);
    }
}

proof fn lemma_count_before_instant(s: Seq<(i64, u32, i64)>, t: (i64, u32), i: int)
    requires
        strictly_ordered(s),
        0 <= i <= s.len(),
        forall|j: int| 0 <= j < i ==> instant_before(entry_instant(#[trigger] s[j]), t),
        i < s.len() ==> !instant_before(entry_instant(s[i]), t),
    ensures
        count_before_instant(s, t) == i,
    decreases s.len(),
{
    if s.len() > 0 {
        let d = s.drop_last();
        assert forall|a: int, b: int| 0 <= a < b < d.len() implies instant_before(entry_instant(#[trigger] d[a]), entry_instant(#[trigger] d[b])) by {
            assert(instant_before(entry_instant(s[a]), entry_instant(s[b])));
        }
        if i == s.len() {
            lemma_count_before_instant(d, t, i - 1);
        } else {
            assert(!instant_before(entry_instant(s.last()), t)) by {
                if i < s.len() - 1 {
                    assert(instant_before(entry_instant(s[i]), entry_instant(s[s.len() - 1])));
                }
            }
            lemma_count_before_instant(d, t, i);
        }
    }
}


proof fn lemma_decimal_digits(m: nat)
    ensures
        all_digits(decimal(m)),
        digits_value(decimal(m)) == m,
    decreases m,
{
    if m >= 10 {
        lemma_decimal_digits(m / 10);
        let d = decimal(m / 10);
        let s = d.push(digit_char((m % 10) as int));
        assert(s.drop_last() =~= d);
        assert(digit_char((m % 10) as int) as int == (m % 10) + 48);
        assert('0' as int == 48);
        assert(digits_value(s) == digits_value(d) * 10 + (m % 10));
        assert(decimal(m) == s);
        assert(m == (m / 10) * 10 + m % 10);
        assert forall|i: int| 0 <= i < s.len() implies is_ascii_digit(#[trigger] s[i]) by {
            if i < d.len() {
                assert(s[i] == d[i]);
            }
        }
    } else {
        let s = decimal(m);
        assert(s.drop_last() =~= Seq::<char>::empty());
        assert(digit_char(m as int) as int == m + 48);
        assert('0' as int == 48);
        assert(s.last() == digit_char(m as int));
        assert(digits_value(s) == digits_value(s.drop_last()) * 10 + (s.last() as int - '0' as int));
    }
}

/// The seconds a report records read back as they were written: what
/// `{}` writes of an `i64`, `str::parse::<i64>` reads as the same number.
pub proof fn lemma_i64_text_round_trip(n: i64)
    ensures
        i64_text(decimal_int(n as int)) == Some(n),
{
    if n < 0 {
        let m = (-n) as nat;
        lemma_decimal_digits(m);
        let s = seq!['-'] + decimal(m);
        assert(s[0] == '-');
        assert(s.skip(1) =~= decimal(m));
    } else {
        lemma_decimal_digits(n as nat);
        let s = decimal(n as nat);
        assert(is_ascii_digit(s[0]));
        assert(s.skip(0) =~= s);
    }
}


// ---------------------------------------------------------------------
// Where the reports are kept
// ---------------------------------------------------------------------

/// `base` joined with the relative path `name` (`Path::join`): a separator
/// goes between them unless `base` is empty or ends with one.
pub open spec fn path_joined(base: Seq<char>, name: Seq<char>) -> Seq<char> {
    if base.len() == 0 {
        name
    } else if base.last() == '/' {
        base + name
    } else {
        base + seq!['/'] + name
    }
}

/// The directory of the reports file: under `XDG_STATE_HOME` where it is
/// set and not blank, else under `~/.local/state`, else under `/tmp`.
pub open spec fn reports_dir_text(state_home: Option<Seq<char>>, home: Option<Seq<char>>) -> Seq<char> {
    match state_home {
        Some(s) if trim(s).len() > 0 => path_joined(s, "nix-output-monitor"@),
        _ => match home {
            Some(h) => path_joined(path_joined(path_joined(h, ".local"@), "state"@), "nix-output-monitor"@),
            None => "/tmp/nix-output-monitor"@,
        },
    }
}

fn join_path(base: &String, name: &str) -> (r: String)
    ensures
        r@ == path_joined(base@, name@),
{
    let cs = chars_of(base.as_str());
    let mut r = string_of(&cs, 0, cs.len());
    assert(cs@.subrange(0, cs@.len() as int) =~= cs@);
    if cs.len() > 0 && cs[cs.len() - 1] != '/' {
        crate::text::push_char(&mut r, '/');
    }
    push_str(&mut r, name);
    proof {
        if cs.len() > 0 {
            assert(cs@.last() == cs@[cs.len() - 1]);
        }
    }
    r
}

/// The directory of the reports file, from the values of `XDG_STATE_HOME`
/// and `HOME` (see [`reports_dir_text`]).
pub fn build_reports_dir(state_home: &Option<String>, home: &Option<String>) -> (r: String)
    ensures
        r@ == reports_dir_text(crate::types::opt_string_view(*state_home), crate::types::opt_string_view(*home)),
{
    if let Some(s) = state_home {
        let t = trimmed(&chars_of(s.as_str()));
        if t.len() > 0 {
            return join_path(s, "nix-output-monitor");
        }
    }
    match home {
        Some(h) => {
            let a = join_path(h, ".local");
            let b = join_path(&a, "state");
            join_path(&b, "nix-output-monitor")
        },
        None => owned("/tmp/nix-output-monitor"),
    }
}

// ---------------------------------------------------------------------
// The reports of all builds
// ---------------------------------------------------------------------

/// A build's key in the reports: the host (`None` for the local machine)
/// and the derivation's name.
pub type ReportKey = (Option<Seq<char>>, Seq<char>);

/// The reports of one build: its key and its history, oldest first.
pub type KeyedHistory = (Option<Seq<char>>, Seq<char>, Seq<(i64, u32, i64)>);

pub open spec fn book_key(e: KeyedHistory) -> ReportKey {
    (e.0, e.1)
}

/// The history of each build, by key.
pub open spec fn book_map(s: Seq<KeyedHistory>) -> Map<ReportKey, Seq<(i64, u32, i64)>>
    decreases s.len(),
{
    if s.len() == 0 {
        Map::empty()
    } else {
        book_map(s.drop_last()).insert(book_key(s.last()), s.last().2)
    }
}

/// No two histories for the same key.
pub open spec fn keys_unique(s: Seq<KeyedHistory>) -> bool {
    forall|i: int, j: int| 0 <= i < j < s.len() ==> book_key(#[trigger] s[i]) != book_key(#[trigger] s[j])
}

/// The history recorded under `k`; an empty one where there is none.
pub open spec fn history_at(m: Map<ReportKey, Seq<(i64, u32, i64)>>, k: ReportKey) -> Seq<(i64, u32, i64)> {
    if m.contains_key(k) {
        m[k]
    } else {
        Seq::empty()
    }
}

/// `m` with a build under `k` that ended at instant `t` and took `v`
/// seconds recorded in its history, made where there is none.
pub open spec fn with_report(m: Map<ReportKey, Seq<(i64, u32, i64)>>, k: ReportKey, t: (i64, u32), v: i64) -> Map<
    ReportKey,
    Seq<(i64, u32, i64)>,
> {
    m.insert(k, newest(with_entry(history_at(m, k), t, v)))
}

/// `m` with what a line of the reports file holds recorded; a line that
/// holds no report (see [`parsed_report`]) leaves it as it is.
pub open spec fn with_report_line(m: Map<ReportKey, Seq<(i64, u32, i64)>>, line: Seq<char>) -> Map<
    ReportKey,
    Seq<(i64, u32, i64)>,
> {
    match parsed_report(line) {
        Some((h, n, t, v)) => with_report(m, (h, n), t, v),
        None => m,
    }
}

/// `m` with the reports of `lines` recorded, in their order.
pub open spec fn after_report_lines(m: Map<ReportKey, Seq<(i64, u32, i64)>>, lines: Seq<Seq<char>>) -> Map<
    ReportKey,
    Seq<(i64, u32, i64)>,
>
    decreases lines.len(),
{
    if lines.len() == 0 {
        m
    } else {
        with_report_line(after_report_lines(m, lines.drop_last()), lines.last())
    }
}

/// What the reports file `text` holds: the reports of its lines
/// (`BufRead::lines`) after the first, the header, recorded in order.
pub open spec fn reports_of_text(text: Seq<char>) -> Map<ReportKey, Seq<(i64, u32, i64)>> {
    let ls = lines_of(text);
    if ls.len() == 0 {
        Map::empty()
    } else {
        after_report_lines(Map::empty(), ls.skip(1))
    }
}

/// The lines that record one build's history, oldest first; none for an
/// entry whose time `chrono` cannot write.
pub open spec fn history_lines(host: Option<Seq<char>>, name: Seq<char>, h: Seq<(i64, u32, i64)>) -> Seq<Seq<char>>
    decreases h.len(),
{
    if h.len() == 0 {
        Seq::empty()
    } else {
        let before = history_lines(host, name, h.drop_last());
        match report_line_text(host, name, (h.last().0, h.last().1), h.last().2) {
            Some(l) => before.push(l),
            None => before,
        }
    }
}

/// The lines that record the histories `s`, in their order.
pub open spec fn book_lines(s: Seq<KeyedHistory>) -> Seq<Seq<char>>
    decreases s.len(),
{
    if s.len() == 0 {
        Seq::empty()
    } else {
        book_lines(s.drop_last()) + history_lines(s.last().0, s.last().1, s.last().2)
    }
}

/// Lines, each ended by a line break.
pub open spec fn lines_text(ls: Seq<Seq<char>>) -> Seq<char>
    decreases ls.len(),
{
    if ls.len() == 0 {
        Seq::empty()
    } else {
        lines_text(ls.drop_last()) + ls.last() + seq!['\n']
    }
}

/// The reports file of the histories `s`: the header, then a line for each
/// recorded build.
pub open spec fn reports_text(s: Seq<KeyedHistory>) -> Seq<char> {
    lines_text(seq![REPORTS_HEADER@] + book_lines(s))
}

/// A history that the reports file holds as it is: plain names (see
/// [`plain_report_names`]) without line breaks, and builds that ended at
/// whole seconds in the years 1000 to 9999.
pub open spec fn saveable_history(e: KeyedHistory) -> bool {
    &&& plain_report_names(e.0, e.1)
    &&& !e.1.contains('\n')
    &&& match e.0 {
        Some(h) => !h.contains('\n'),
        None => true,
    }
    &&& whole_seconds(e.2)
}

/// Each build of the history ended at a whole second in the years 1000 to
/// 9999.
pub open spec fn whole_seconds(h: Seq<(i64, u32, i64)>) -> bool {
    forall|j: int| 0 <= j < h.len() ==> (#[trigger] h[j]).1 == 0 && FOUR_DIGIT_YEARS_START <= h[j].0 <= FOUR_DIGIT_YEARS_END
}

pub open spec fn saveable_reports(s: Seq<KeyedHistory>) -> bool {
    forall|i: int| 0 <= i < s.len() ==> saveable_history(#[trigger] s[i])
}

/// Text that `BufRead::lines` gives back whole as one line.
spec fn single_line(l: Seq<char>) -> bool {
    &&& !l.contains('\n')
    &&& (l.len() == 0 || l.last() != '\r')
}

proof fn lemma_lines_acc_within(s: Seq<char>, i: int, j: int, cur: Seq<char>)
    requires
        0 <= i <= j <= s.len(),
        forall|k: int| i <= k < j ==> s[k] != '\n',
    ensures
        lines_acc(s, i, cur) == lines_acc(s, j, cur + s.subrange(i, j)),
    decreases j - i,
{
    if i == j {
        assert(cur + s.subrange(i, j) =~= cur);
    } else {
        lemma_lines_acc_within(s, i + 1, j, cur.push(s[i]));
        assert(cur.push(s[i]) + s.subrange(i + 1, j) =~= cur + s.subrange(i, j));
    }
}

proof fn lemma_lines_acc_shift(x: Seq<char>, y: Seq<char>, k: int, cur: Seq<char>)
    requires
        0 <= k,
    ensures
        lines_acc(x + y, x.len() + k, cur) == lines_acc(y, k, cur),
    decreases y.len() - k,
{
    if k < y.len() {
        assert((x + y)[x.len() + k] == y[k]);
        if y[k] == '\n' {
            lemma_lines_acc_shift(x, y, k + 1, Seq::empty());
        } else {
            lemma_lines_acc_shift(x, y, k + 1, cur.push(y[k]));
        }
    }
}

/// A single line and its line break come back as that line.
proof fn lemma_lines_of_line(l: Seq<char>, rest: Seq<char>)
    requires
        single_line(l),
    ensures
        lines_of(l + seq!['\n'] + rest) == seq![l] + lines_of(rest),
{
    let x = l + seq!['\n'];
    let s = x + rest;
    assert forall|k: int| 0 <= k < l.len() implies s[k] != '\n' by {
        assert(s[k] == l[k]);
    }
    lemma_lines_acc_within(s, 0, l.len() as int, Seq::empty());
    assert(Seq::<char>::empty() + s.subrange(0, l.len() as int) =~= l);
    assert(s[l.len() as int] == '\n');
    assert(strip_cr(l) == l);
    lemma_lines_acc_shift(x, rest, 0, Seq::empty());
    assert(l + seq!['\n'] + rest == s);
}

proof fn lemma_lines_text_front(ls: Seq<Seq<char>>)
    requires
        ls.len() > 0,
    ensures
        lines_text(ls) == ls[0] + seq!['\n'] + lines_text(ls.skip(1)),
    decreases ls.len(),
{
    if ls.len() == 1 {
        assert(ls.drop_last() =~= Seq::<Seq<char>>::empty());
        assert(ls.skip(1) =~= Seq::<Seq<char>>::empty());
        assert(lines_text(ls) =~= ls[0] + seq!['\n'] + lines_text(ls.skip(1)));
    } else {
        let d = ls.drop_last();
        lemma_lines_text_front(d);
        assert(ls.skip(1).drop_last() =~= d.skip(1));
        assert(ls.skip(1).last() == ls.last());
        assert(lines_text(ls) =~= ls[0] + seq!['\n'] + lines_text(ls.skip(1)));
    }
}

/// Lines written each with a line break are read back as those lines.
proof fn lemma_lines_of_lines_text(ls: Seq<Seq<char>>)
    requires
        forall|i: int| 0 <= i < ls.len() ==> single_line(#[trigger] ls[i]),
    ensures
        lines_of(lines_text(ls)) == ls,
    decreases ls.len(),
{
    if ls.len() == 0 {
        assert(lines_text(ls) =~= Seq::<char>::empty());
    } else {
        lemma_lines_text_front(ls);
        let r = ls.skip(1);
        assert forall|i: int| 0 <= i < r.len() implies single_line(#[trigger] r[i]) by {
            assert(r[i] == ls[i + 1]);
        }
        lemma_lines_of_lines_text(r);
        assert(single_line(ls[0]));
        lemma_lines_of_line(ls[0], lines_text(r));
        assert(seq![ls[0]] + r =~= ls);
    }
}

/// The line of a build with plain names, ended at a whole second that
/// `chrono` writes and reads back, is one line and reads back as the build.
proof fn lemma_saved_line(host: Option<Seq<char>>, name: Seq<char>, secs: i64, build: i64)
    requires
        plain_report_names(host, name),
        !name.contains('\n'),
        match host {
            Some(h) => !h.contains('\n'),
            None => true,
        },
        second_reads_back(secs),
    ensures
        report_line_text(host, name, (secs, 0u32), build) matches Some(l) && single_line(l)
            && parsed_report(l) == Some((host, name, (secs, 0u32), build)),
{
    let t = instant_text(secs, 0, REPORT_TIME_FORMAT@)->Some_0;
    lemma_report_line_reads_back(host, name, t, secs, build);
    reveal_strlit(",");
    let h = match host {
        None => Seq::<char>::empty(),
        Some(h) => h,
    };
    let d = decimal_int(build as int);
    let l = h + ","@ + name + ","@ + t + ","@ + d;
    assert(report_line_text(host, name, (secs, 0u32), build) == Some(l));
    lemma_decimal_int_plain(build);
    assert forall|i: int| 0 <= i < l.len() implies l[i] != '\n' by {
        if i < h.len() {
            assert(l[i] == h[i]);
        } else if i == h.len() {
        } else if i < h.len() + 1 + name.len() {
            assert(l[i] == name[i - h.len() - 1]);
        } else if i == h.len() + 1 + name.len() {
        } else if i < h.len() + 2 + name.len() + t.len() {
            assert(l[i] == t[i - h.len() - 2 - name.len()]);
            assert(0 <= i - h.len() - 2 - name.len() < 19);
        } else if i == h.len() + 2 + name.len() + t.len() {
        } else {
            assert(l[i] == d[i - h.len() - 3 - name.len() - t.len()]);
        }
    }
    assert(l.last() == d.last());
    assert(is_white_space('\r'));
}

proof fn lemma_history_lines_single(host: Option<Seq<char>>, name: Seq<char>, h: Seq<(i64, u32, i64)>)
    requires
        saveable_history((host, name, h)),
        forall|j: int| 0 <= j < h.len() ==> second_reads_back((#[trigger] h[j]).0),
    ensures
        forall|k: int| 0 <= k < history_lines(host, name, h).len() ==> single_line(#[trigger] history_lines(host, name, h)[k]),
    decreases h.len(),
{
    if h.len() > 0 {
        let d = h.drop_last();
        assert(whole_seconds(h));
        assert(saveable_history((host, name, d))) by {
            assert forall|j: int| 0 <= j < d.len() implies (#[trigger] d[j]).1 == 0 && FOUR_DIGIT_YEARS_START <= d[j].0 <= FOUR_DIGIT_YEARS_END by {
                assert(d[j] == h[j]);
            }
        }
        assert forall|j: int| 0 <= j < d.len() implies second_reads_back((#[trigger] d[j]).0) by {
            assert(d[j] == h[j]);
        }
        lemma_history_lines_single(host, name, d);
        let e = h[h.len() - 1];
        assert(e.1 == 0);
        lemma_saved_line(host, name, e.0, e.2);
        assert((e.0, e.1) == (e.0, 0u32));
        let l = report_line_text(host, name, (e.0, 0u32), e.2)->Some_0;
        let p = history_lines(host, name, d);
        assert(history_lines(host, name, h) == p.push(l));
        assert forall|k: int| 0 <= k < p.push(l).len() implies single_line(#[trigger] p.push(l)[k]) by {
            if k < p.len() {
                assert(p.push(l)[k] == p[k]);
            }
        }
    }
}

proof fn lemma_book_lines_single(s: Seq<KeyedHistory>)
    requires
        saveable_reports(s),
        forall|a: int, b: int| 0 <= a < s.len() && 0 <= b < s[a].2.len() ==> second_reads_back((#[trigger] s[a].2[b]).0),
    ensures
        forall|k: int| 0 <= k < book_lines(s).len() ==> single_line(#[trigger] book_lines(s)[k]),
    decreases s.len(),
{
    if s.len() > 0 {
        let d = s.drop_last();
        assert forall|a: int, b: int| 0 <= a < d.len() && 0 <= b < d[a].2.len() implies second_reads_back((#[trigger] d[a].2[b]).0) by {
            assert(d[a] == s[a]);
        }
        assert forall|i: int| 0 <= i < d.len() implies saveable_history(#[trigger] d[i]) by {
            assert(d[i] == s[i]);
        }
        lemma_book_lines_single(d);
        let e = s[s.len() - 1];
        assert(saveable_history(e));
        assert forall|j: int| 0 <= j < e.2.len() implies second_reads_back((#[trigger] e.2[j]).0) by {
            assert(s[s.len() - 1].2[j] == e.2[j]);
        }
        lemma_history_lines_single(e.0, e.1, e.2);
        let a = book_lines(d);
        let b = history_lines(e.0, e.1, e.2);
        assert forall|k: int| 0 <= k < (a + b).len() implies single_line(#[trigger] (a + b)[k]) by {
            if k < a.len() {
                assert((a + b)[k] == a[k]);
            } else {
                assert((a + b)[k] == b[k - a.len()]);
            }
        }
    }
}

proof fn lemma_after_lines_concat(m: Map<ReportKey, Seq<(i64, u32, i64)>>, a: Seq<Seq<char>>, b: Seq<Seq<char>>)
    ensures
        after_report_lines(m, a + b) == after_report_lines(after_report_lines(m, a), b),
    decreases b.len(),
{
    if b.len() == 0 {
        assert(a + b =~= a);
    } else {
        lemma_after_lines_concat(m, a, b.drop_last());
        assert((a + b).drop_last() =~= a + b.drop_last());
        assert((a + b).last() == b.last());
    }
}

/// Reading back the lines of a history that no key of `m` holds yet
/// records that history under its key.
proof fn lemma_after_history_lines(m: Map<ReportKey, Seq<(i64, u32, i64)>>, host: Option<Seq<char>>, name: Seq<char>, h: Seq<(i64, u32, i64)>)
    requires
        !m.contains_key((host, name)),
        0 < h.len() <= HISTORY_LIMIT,
        strictly_ordered(h),
        saveable_history((host, name, h)),
        forall|j: int| 0 <= j < h.len() ==> second_reads_back((#[trigger] h[j]).0),
    ensures
        after_report_lines(m, history_lines(host, name, h)) == m.insert((host, name), h),
    decreases h.len(),
{
    let k = (host, name);
    let d = h.drop_last();
    let e = h[h.len() - 1];
    assert(whole_seconds(h));
    assert(e.1 == 0 && FOUR_DIGIT_YEARS_START <= e.0 <= FOUR_DIGIT_YEARS_END);
    lemma_saved_line(host, name, e.0, e.2);
    assert((e.0, e.1) == (e.0, 0u32));
    let l = report_line_text(host, name, (e.0, 0u32), e.2)->Some_0;
    assert(history_lines(host, name, h) == history_lines(host, name, d).push(l));
    let hl = history_lines(host, name, d).push(l);
    assert(hl.drop_last() =~= history_lines(host, name, d));
    if d.len() == 0 {
        assert(history_lines(host, name, d) =~= Seq::<Seq<char>>::empty());
        assert(history_at(m, k) =~= Seq::<(i64, u32, i64)>::empty());
        assert(count_before_instant(Seq::<(i64, u32, i64)>::empty(), (e.0, 0u32)) == 0);
        assert(with_entry(Seq::empty(), (e.0, 0u32), e.2) =~= h);
        assert(newest(h) == h);
        assert(after_report_lines(m, hl.drop_last()) == m);
        assert(with_report_line(m, l) == with_report(m, k, (e.0, 0u32), e.2));
        assert(after_report_lines(m, hl) =~= m.insert(k, h));
    } else {
        assert(whole_seconds(h));
        assert(saveable_history((host, name, d))) by {
            assert forall|j: int| 0 <= j < d.len() implies (#[trigger] d[j]).1 == 0 && FOUR_DIGIT_YEARS_START <= d[j].0 <= FOUR_DIGIT_YEARS_END by {
                assert(d[j] == h[j]);
            }
        }
        assert forall|j: int| 0 <= j < d.len() implies second_reads_back((#[trigger] d[j]).0) by {
            assert(d[j] == h[j]);
        }
        assert forall|a: int, b: int| 0 <= a < b < d.len() implies instant_before(entry_instant(#[trigger] d[a]), entry_instant(#[trigger] d[b])) by {
            assert(instant_before(entry_instant(h[a]), entry_instant(h[b])));
        }
        lemma_after_history_lines(m, host, name, d);
        let m1 = m.insert(k, d);
        assert(history_at(m1, k) == d);
        assert forall|j: int| 0 <= j < d.len() implies instant_before(entry_instant(#[trigger] d[j]), (e.0, 0u32)) by {
            assert(instant_before(entry_instant(h[j]), entry_instant(h[h.len() - 1])));
        }
        lemma_count_before_instant(d, (e.0, 0u32), d.len() as int);
        assert(with_entry(d, (e.0, 0u32), e.2) =~= h);
        assert(after_report_lines(m, hl) =~= m.insert(k, h));
    }
}

proof fn lemma_after_book_lines(s: Seq<KeyedHistory>)
    requires
        keys_unique(s),
        forall|i: int| 0 <= i < s.len() ==> strictly_ordered((#[trigger] s[i]).2) && 0 < s[i].2.len() <= HISTORY_LIMIT,
        saveable_reports(s),
        forall|a: int, b: int| 0 <= a < s.len() && 0 <= b < s[a].2.len() ==> second_reads_back((#[trigger] s[a].2[b]).0),
    ensures
        after_report_lines(Map::empty(), book_lines(s)) == book_map(s),
    decreases s.len(),
{
    if s.len() == 0 {
        assert(book_lines(s) =~= Seq::<Seq<char>>::empty());
    } else {
        let d = s.drop_last();
        assert forall|a: int, b: int| 0 <= a < d.len() && 0 <= b < d[a].2.len() implies second_reads_back((#[trigger] d[a].2[b]).0) by {
            assert(d[a] == s[a]);
        }
        assert forall|i: int| 0 <= i < d.len() implies saveable_history(#[trigger] d[i]) by {
            assert(d[i] == s[i]);
        }
        assert forall|i: int| 0 <= i < d.len() implies strictly_ordered((#[trigger] d[i]).2) && 0 < d[i].2.len() <= HISTORY_LIMIT by {
            assert(d[i] == s[i]);
        }
        assert forall|a: int, b: int| 0 <= a < b < d.len() implies book_key(#[trigger] d[a]) != book_key(#[trigger] d[b]) by {
            assert(book_key(s[a]) != book_key(s[b]));
        }
        lemma_after_book_lines(d);
        let e = s[s.len() - 1];
        assert forall|i: int| 0 <= i < d.len() implies book_key(#[trigger] d[i]) != book_key(e) by {
            assert(book_key(s[i]) != book_key(s[s.len() - 1]));
        }
        lemma_book_map_lacks(d, book_key(e));
        assert(saveable_history(e));
        assert(strictly_ordered(e.2) && 0 < e.2.len() <= HISTORY_LIMIT);
        assert forall|j: int| 0 <= j < e.2.len() implies second_reads_back((#[trigger] e.2[j]).0) by {
            assert(s[s.len() - 1].2[j] == e.2[j]);
        }
        lemma_after_lines_concat(Map::empty(), book_lines(d), history_lines(e.0, e.1, e.2));
        lemma_after_history_lines(book_map(d), e.0, e.1, e.2);
    }
}

/// The reports file written for histories that it holds as they are reads
/// back as those histories.
proof fn lemma_reports_text_reads_back(s: Seq<KeyedHistory>)
    requires
        keys_unique(s),
        forall|i: int| 0 <= i < s.len() ==> strictly_ordered((#[trigger] s[i]).2) && 0 < s[i].2.len() <= HISTORY_LIMIT,
        saveable_reports(s),
        forall|a: int, b: int| 0 <= a < s.len() && 0 <= b < s[a].2.len() ==> second_reads_back((#[trigger] s[a].2[b]).0),
    ensures
        reports_of_text(reports_text(s)) == book_map(s),
{
    reveal_strlit("hostname,derivation name,utc time,build seconds");
    let hd = REPORTS_HEADER@;
    assert(hd == "hostname,derivation name,utc time,build seconds"@);
    assert(single_line(hd));
    lemma_book_lines_single(s);
    let ls = seq![hd] + book_lines(s);
    assert forall|i: int| 0 <= i < ls.len() implies single_line(#[trigger] ls[i]) by {
        if i > 0 {
            assert(ls[i] == book_lines(s)[i - 1]);
        }
    }
    lemma_lines_of_lines_text(ls);
    assert(ls.skip(1) =~= book_lines(s));
    lemma_after_book_lines(s);
}

proof fn lemma_count_before_instant_bounds(s: Seq<(i64, u32, i64)>, t: (i64, u32))
    ensures
        0 <= count_before_instant(s, t) <= s.len(),
    decreases s.len(),
{
    if s.len() > 0 {
        lemma_count_before_instant_bounds(s.drop_last(), t);
    }
}

/// A history with a build recorded in it holds at least one.
proof fn lemma_with_entry_not_empty(s: Seq<(i64, u32, i64)>, t: (i64, u32), v: i64)
    ensures
        newest(with_entry(s, t, v)).len() > 0,
{
    lemma_count_before_instant_bounds(s, t);
}

proof fn lemma_book_map_lacks(s: Seq<KeyedHistory>, k: ReportKey)
    requires
        forall|i: int| 0 <= i < s.len() ==> book_key(#[trigger] s[i]) != k,
    ensures
        !book_map(s).contains_key(k),
    decreases s.len(),
{
    if s.len() > 0 {
        lemma_book_map_lacks(s.drop_last(), k);
        assert(book_key(s[s.len() - 1]) != k);
    }
}

proof fn lemma_book_map_has(s: Seq<KeyedHistory>, i: int)
    requires
        keys_unique(s),
        0 <= i < s.len(),
    ensures
        book_map(s).contains_key(book_key(s[i])),
        book_map(s)[book_key(s[i])] == s[i].2,
    decreases s.len(),
{
    if i < s.len() - 1 {
        let d = s.drop_last();
        assert(keys_unique(d)) by {
            assert forall|a: int, b: int| 0 <= a < b < d.len() implies book_key(#[trigger] d[a]) != book_key(#[trigger] d[b]) by {
                assert(book_key(s[a]) != book_key(s[b]));
            }
        }
        lemma_book_map_has(d, i);
        assert(book_key(s[i]) != book_key(s[s.len() - 1]));
    }
}

proof fn lemma_book_map_update(s: Seq<KeyedHistory>, i: int, h: Seq<(i64, u32, i64)>)
    requires
        keys_unique(s),
        0 <= i < s.len(),
    ensures
        book_map(s.update(i, (s[i].0, s[i].1, h))) == book_map(s).insert(book_key(s[i]), h),
    decreases s.len(),
{
    let u = s.update(i, (s[i].0, s[i].1, h));
    let d = s.drop_last();
    if i == s.len() - 1 {
        assert(u.drop_last() =~= d);
        assert(book_map(u) =~= book_map(s).insert(book_key(s[i]), h));
    } else {
        assert(keys_unique(d)) by {
            assert forall|a: int, b: int| 0 <= a < b < d.len() implies book_key(#[trigger] d[a]) != book_key(#[trigger] d[b]) by {
                assert(book_key(s[a]) != book_key(s[b]));
            }
        }
        lemma_book_map_update(d, i, h);
        assert(u.drop_last() =~= d.update(i, (s[i].0, s[i].1, h)));
        assert(u.last() == s.last());
        assert(book_key(s[i]) != book_key(s[s.len() - 1]));
        assert(book_map(u) =~= book_map(s).insert(book_key(s[i]), h));
    }
}

/// The reports of all builds: for each host and derivation name, the
/// durations recorded for it.
#[derive(Debug)]
pub struct ReportBook {
    entries: Vec<(HostWithoutContext, String, History)>,
}

impl ReportBook {
    /// The histories in the order their builds were first recorded.
    pub closed spec fn view(&self) -> Seq<KeyedHistory> {
        self.entries@.map_values(|e: (HostWithoutContext, String, History)| (e.0@, e.1@, e.2.view()))
    }

    /// One history for each key, each a well-formed history of at least one
    /// build.
    pub closed spec fn wf(&self) -> bool {
        &&& keys_unique(self.view())
        &&& forall|i: int| 0 <= i < self.entries@.len() ==> (#[trigger] self.entries@[i]).2.wf() && self.entries@[i].2.view().len() > 0
    }

    /// No reports.
    pub fn new() -> (r: Self)
        ensures
            r.wf(),
            r.view() == Seq::<KeyedHistory>::empty(),
    {
        let r = ReportBook { entries: Vec::new() };
        assert(r.view() =~= Seq::<KeyedHistory>::empty());
        r
    }

    /// Reads the reports file `text`: each line after the header that holds
    /// a report (see [`parse_report_line`]) is recorded in turn; the others
    /// are passed over.
    pub fn from_text(text: &str) -> (r: Self)
        ensures
            r.wf(),
            book_map(r.view()) == reports_of_text(text@),
    {
        let cs = chars_of(text);
        let lines = split_lines(&cs);
        let ghost ls = line_views(lines@);
        let mut book = ReportBook::new();
        if lines.len() == 0 {
            return book;
        }
        let mut i: usize = 1;
        proof {
            assert(ls.subrange(1, 1) =~= Seq::<Seq<char>>::empty());
        }
        while i < lines.len()
            invariant
                1 <= i <= lines@.len(),
                ls == line_views(lines@),
                ls == lines_of(text@),
                book.wf(),
                book_map(book.view()) == after_report_lines(Map::empty(), ls.subrange(1, i as int)),
            decreases lines.len() - i,
        {
            let line = string_of(&lines[i], 0, lines[i].len());
            proof {
                assert(lines@[i as int]@.subrange(0, lines@[i as int]@.len() as int) =~= ls[i as int]);
                assert(ls.subrange(1, i + 1).drop_last() =~= ls.subrange(1, i as int));
            }
            match parse_report_line(line.as_str()) {
                Some(rep) => {
                    book.record(rep.host, rep.drv_name, rep.end_secs, rep.end_nanos, rep.build_secs);
                },
                None => {},
            }
            i += 1;
        }
        assert(ls.subrange(1, ls.len() as int) =~= ls.skip(1));
        book
    }

    /// Writes the reports file: the header, then a line for each recorded
    /// build (see [`report_line`]), each ended by a line break. Histories
    /// that the file holds as they are (see [`saveable_history`]) are read
    /// back by [`ReportBook::from_text`] as they were.
    pub fn to_text(&self) -> (r: String)
        requires
            self.wf(),
        ensures
            r@ == reports_text(self.view()),
            saveable_reports(self.view()) ==> reports_of_text(r@) == book_map(self.view()),
    {
        let ghost s = self.view();
        let ghost hd = seq![REPORTS_HEADER@];
        let mut out = owned(REPORTS_HEADER);
        push_str(&mut out, "\n");
        proof {
            reveal_strlit("\n");
            assert(hd.drop_last() =~= Seq::<Seq<char>>::empty());
            assert(book_lines(s.take(0)) =~= Seq::<Seq<char>>::empty());
            assert(hd + book_lines(s.take(0)) =~= hd);
            assert(lines_text(hd.drop_last()) == Seq::<char>::empty());
            assert(hd.last() == REPORTS_HEADER@);
            assert(lines_text(hd) == REPORTS_HEADER@ + seq!['\n']);
            assert(out@ =~= lines_text(hd));
        }
        let mut i: usize = 0;
        while i < self.entries.len()
            invariant
                i <= self.entries@.len(),
                s == self.view(),
                hd == seq![REPORTS_HEADER@],
                out@ == lines_text(hd + book_lines(s.take(i as int))),
                forall|a: int, b: int| 0 <= a < i && 0 <= b < s[a].2.len() && (#[trigger] s[a].2[b]).1 == 0
                    && FOUR_DIGIT_YEARS_START <= s[a].2[b].0 <= FOUR_DIGIT_YEARS_END ==> second_reads_back(s[a].2[b].0),
            decreases self.entries.len() - i,
        {
            let es = self.entries[i].2.entries();
            let ghost e = s[i as int];
            let ghost before = hd + book_lines(s.take(i as int));
            let mut j: usize = 0;
            proof {
                assert(e.2.take(0) =~= Seq::<(i64, u32, i64)>::empty());
                assert(before + history_lines(e.0, e.1, e.2.take(0)) =~= before);
            }
            while j < es.len()
                invariant
                    i < self.entries@.len(),
                    j <= es@.len(),
                    s == self.view(),
                    e == s[i as int],
                    es@ == e.2,
                    before == hd + book_lines(s.take(i as int)),
                    out@ == lines_text(before + history_lines(e.0, e.1, e.2.take(j as int))),
                    forall|b: int| 0 <= b < j && (#[trigger] e.2[b]).1 == 0
                        && FOUR_DIGIT_YEARS_START <= e.2[b].0 <= FOUR_DIGIT_YEARS_END ==> second_reads_back(e.2[b].0),
                decreases es.len() - j,
            {
                let (secs, nanos, build) = es[j];
                let ghost p = before + history_lines(e.0, e.1, e.2.take(j as int));
                proof {
                    assert(e.2.take(j + 1).drop_last() =~= e.2.take(j as int));
                    assert(e.2.take(j + 1).last() == (secs, nanos, build));
                }
                match report_line_for(&self.entries[i].0, self.entries[i].1.as_str(), secs, nanos, build) {
                    Some(l) => {
                        push_str(&mut out, l.as_str());
                        push_str(&mut out, "\n");
                        proof {
                            reveal_strlit("\n");
                            assert(before + history_lines(e.0, e.1, e.2.take(j + 1)) =~= p.push(l@));
                            assert(p.push(l@).drop_last() =~= p);
                            assert(out@ =~= lines_text(p.push(l@)));
                        }
                    },
                    None => {
                        proof {
                            assert(before + history_lines(e.0, e.1, e.2.take(j + 1)) =~= p);
                        }
                    },
                }
                j += 1;
            }
            proof {
                assert(e.2.take(es@.len() as int) =~= e.2);
                assert(s.take(i + 1).drop_last() =~= s.take(i as int));
                assert(s.take(i + 1).last() == e);
                assert(hd + book_lines(s.take(i + 1)) =~= before + history_lines(e.0, e.1, e.2));
            }
            i += 1;
        }
        proof {
            assert(s.take(s.len() as int) =~= s);
            if saveable_reports(s) {
                assert forall|a: int| 0 <= a < s.len() implies strictly_ordered((#[trigger] s[a]).2) && 0 < s[a].2.len() <= HISTORY_LIMIT by {
                    assert(self.entries@[a].2.wf());
                }
                assert forall|a: int, b: int| 0 <= a < s.len() && 0 <= b < s[a].2.len() implies second_reads_back((#[trigger] s[a].2[b]).0) by {
                    assert(saveable_history(s[a]));
                    assert(whole_seconds(s[a].2));
                }
                lemma_reports_text_reads_back(s);
            }
        }
        out
    }

    /// Where the history of `drv_name` on `host` stands.
    fn find(&self, host: &HostWithoutContext, drv_name: &str) -> (r: Option<usize>)
        ensures
            match r {
                Some(i) => i < self.view().len() && book_key(self.view()[i as int]) == (host@, drv_name@),
                None => forall|i: int| 0 <= i < self.view().len() ==> book_key(#[trigger] self.view()[i]) != (host@, drv_name@),
            },
    {
        let mut i: usize = 0;
        while i < self.entries.len()
            invariant
                i <= self.entries@.len(),
                forall|j: int| 0 <= j < i ==> book_key(#[trigger] self.view()[j]) != (host@, drv_name@),
            decreases self.entries.len() - i,
        {
            if self.entries[i].0.same_host(host) && str_eq(self.entries[i].1.as_str(), drv_name) {
                return Some(i);
            }
            i += 1;
        }
        None
    }

    /// The durations recorded for `drv_name` on `host`, if any are.
    pub fn history(&self, host: &HostWithoutContext, drv_name: &str) -> (r: Option<&History>)
        requires
            self.wf(),
        ensures
            match r {
                Some(h) => book_map(self.view()).contains_key((host@, drv_name@)) && h.wf()
                    && h.view() == book_map(self.view())[(host@, drv_name@)],
                None => !book_map(self.view()).contains_key((host@, drv_name@)),
            },
    {
        match self.find(host, drv_name) {
            Some(i) => {
                proof {
                    lemma_book_map_has(self.view(), i as int);
                }
                Some(&self.entries[i].2)
            },
            None => {
                proof {
                    lemma_book_map_lacks(self.view(), (host@, drv_name@));
                }
                None
            },
        }
    }

    /// Records that a build of `drv_name` on `host` ended at the instant
    /// (`secs`, `nanos`) and took `build_secs` seconds
    /// (`History::insert_with_limit` on its history, made where there is
    /// none).
    pub fn record(&mut self, host: HostWithoutContext, drv_name: String, secs: i64, nanos: u32, build_secs: i64)
        requires
            old(self).wf(),
        ensures
            final(self).wf(),
            book_map(final(self).view()) == with_report(book_map(old(self).view()), (host@, drv_name@), (secs, nanos), build_secs),
    {
        let ghost s = self.view();
        let ghost k = (host@, drv_name@);
        match self.find(&host, drv_name.as_str()) {
            Some(i) => {
                let mut h = self.entries[i].2.copied();
                proof {
                    lemma_book_map_has(s, i as int);
                }
                h.insert_with_limit(secs, nanos, build_secs);
                let ghost hv = h.view();
                self.entries.set(i, (host, drv_name, h));
                proof {
                    assert(self.view() =~= s.update(i as int, (s[i as int].0, s[i as int].1, hv)));
                    lemma_book_map_update(s, i as int, hv);
                    lemma_with_entry_not_empty(s[i as int].2, (secs, nanos), build_secs);
                    assert forall|a: int, b: int| 0 <= a < b < self.view().len() implies book_key(#[trigger] self.view()[a]) != book_key(#[trigger] self.view()[b]) by {
                        assert(book_key(self.view()[a]) == book_key(s[a]));
                        assert(book_key(self.view()[b]) == book_key(s[b]));
                    }
                    assert forall|j: int| 0 <= j < self.entries@.len() implies (#[trigger] self.entries@[j]).2.wf() && self.entries@[j].2.view().len() > 0 by {
                        if j != i {
                            assert(self.entries@[j] == old(self).entries@[j]);
                        }
                    }
                }
            },
            None => {
                let mut h = History::new();
                h.insert_with_limit(secs, nanos, build_secs);
                let ghost hv = h.view();
                self.entries.push((host, drv_name, h));
                proof {
                    lemma_book_map_lacks(s, k);
                    assert(self.view() =~= s.push((k.0, k.1, hv)));
                    assert(self.view().drop_last() =~= s);
                    lemma_with_entry_not_empty(Seq::empty(), (secs, nanos), build_secs);
                    assert forall|a: int, b: int| 0 <= a < b < self.view().len() implies book_key(#[trigger] self.view()[a]) != book_key(#[trigger] self.view()[b]) by {
                        assert(book_key(self.view()[a]) == book_key(s[a]));
                        if b < s.len() {
                            assert(book_key(self.view()[b]) == book_key(s[b]));
                        }
                    }
                    assert forall|j: int| 0 <= j < self.entries@.len() implies (#[trigger] self.entries@[j]).2.wf() && self.entries@[j].2.view().len() > 0 by {
                        if j < s.len() {
                            assert(self.entries@[j] == old(self).entries@[j]);
                        }
                    }
                }
            },
        }
    }
}

} // verus!
