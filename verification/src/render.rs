//! Rendering of the monitor's display: durations, host labels, the error and
//! trace sections, dependency summaries and the fitting of the whole text to
//! the terminal window.
pub mod forest;
pub mod hosts;
pub mod order;
pub mod progress;
pub mod selection;
pub mod table;
pub mod tree;

use vstd::prelude::*;
use crate::render::progress::{bytes_text, print_bytes};
use crate::render::table::{
    display_width, min_usize, prepend_lines, prepended_text, print_aligned_table, row_text,
    spec_display_width, styled_with, table_widths, truncate_display, truncated_text, Entry, BLUE,
    BOLD, GREEN, GREY, MAGENTA, RED, RESET, YELLOW,
};
use crate::text::{
    chars_of, contains, decimal, find, find_lit, join_strings, joined, line_views, lines_of,
    owned, push_char, push_decimal, push_str, split_lines, starts_with, starts_with_lit,
    contains_lit, str_eq, string_of, string_views, sub_chars, trim,
};
use crate::types::{host_name_only, Host, HostModel};

verus! {

pub const VERTICAL: &'static str = "┃";
pub const LOWERLEFT: &'static str = "┗";
pub const UPPERLEFT: &'static str = "┏";
pub const LEFT_T: &'static str = "┣";
pub const HORIZONTAL: &'static str = "━";
pub const DOWN: &'static str = "↓";
pub const UP: &'static str = "↑";
pub const CLOCK: &'static str = "⏱";
pub const RUNNING: &'static str = "⏵";
pub const DONE: &'static str = "✔";
pub const TODO: &'static str = "⏸";
pub const WARNING: &'static str = "⚠";
pub const AVERAGE: &'static str = "∅";
pub const BIGSUM: &'static str = "∑";

/// How the display is used: `silent` prints nothing once the build is done,
/// `piping` reads nix's output from a pipe.
#[derive(Clone, Copy, Debug, Default)]
pub struct Config {
    pub silent: bool,
    pub piping: bool,
}

// ---------------------------------------------------------------------
// Durations
// ---------------------------------------------------------------------

/// A number written with at least two digits (`{:02}`).
pub open spec fn two_digits(n: nat) -> Seq<char> {
    if n < 10 {
        seq!['0'] + decimal(n)
    } else {
        decimal(n)
    }
}

/// A duration in seconds as `05s`, `01m05s`, `02h01m05s` or `3d02h01m05s`.
pub open spec fn duration_text(s: nat) -> Seq<char> {
    if s < 60 {
        two_digits(s) + "s"@
    } else if s < 3600 {
        two_digits(s / 60) + "m"@ + two_digits(s % 60) + "s"@
    } else if s < 86400 {
        two_digits(s / 3600) + "h"@ + two_digits((s % 3600) / 60) + "m"@ + two_digits(s % 60)
            + "s"@
    } else {
        decimal(s / 86400) + "d"@ + two_digits((s % 86400) / 3600) + "h"@ + two_digits(
            (s % 3600) / 60,
        ) + "m"@ + two_digits(s % 60) + "s"@
    }
}

fn push_two_digits(out: &mut String, n: u64)
    ensures
        final(out)@ == old(out)@ + two_digits(n as nat),
{
    if n < 10 {
        push_char(out, '0');
    }
    push_decimal(out, n);
    assert(final(out)@ =~= old(out)@ + two_digits(n as nat));
}

/// A duration of whole seconds, as the display writes it.
pub fn format_duration_secs(secs: u64) -> (r: String)
    ensures
        r@ == duration_text(secs as nat),
{
    let minute: u64 = 60;
    let hour: u64 = 3600;
    let day: u64 = 86400;
    let mut out = String::new();
    if secs < minute {
        push_two_digits(&mut out, secs);
        push_str(&mut out, "s");
    } else if secs < hour {
        push_two_digits(&mut out, secs / minute);
        push_str(&mut out, "m");
        push_two_digits(&mut out, secs % minute);
        push_str(&mut out, "s");
    } else if secs < day {
        push_two_digits(&mut out, secs / hour);
        push_str(&mut out, "h");
        push_two_digits(&mut out, (secs % hour) / minute);
        push_str(&mut out, "m");
        push_two_digits(&mut out, secs % minute);
        push_str(&mut out, "s");
    } else {
        push_decimal(&mut out, secs / day);
        push_str(&mut out, "d");
        push_two_digits(&mut out, (secs % day) / hour);
        push_str(&mut out, "h");
        push_two_digits(&mut out, (secs % hour) / minute);
        push_str(&mut out, "m");
        push_two_digits(&mut out, secs % minute);
        push_str(&mut out, "s");
    }
    out
}

// ---------------------------------------------------------------------
// Table entries and hosts
// ---------------------------------------------------------------------

/// A count with its symbol as a table entry, styled by `color_fn`; a count
/// above zero is bold.
pub fn non_zero_entry<F: Fn(Entry) -> Entry>(symbol: &str, count: usize, color_fn: F) -> (r: Entry)
    requires
        forall|e: Entry| color_fn.requires((e,)),
    ensures
        exists|e: Entry|
            {
                &&& color_fn.ensures((e,), r)
                &&& e.lcontent@ == symbol@
                &&& e.rcontent@ == if count > 0 {
                    decimal(count as nat)
                } else {
                    "0"@
                }
                &&& e.codes@ == if count > 0 {
                    seq![BOLD]
                } else {
                    Seq::<&'static str>::empty()
                }
                &&& e.width == 1
                &&& e.lw == min_usize(spec_display_width(symbol@))
                &&& e.rw == min_usize(spec_display_width(e.rcontent@))
            },
{
    let e = if count > 0 {
        let n = crate::text::u64_to_string(count as u64);
        Entry::text(n.as_str()).label(symbol).bold()
    } else {
        Entry::text("0").label(symbol)
    };
    let ghost g = e;
    let r = color_fn(e);
    assert(color_fn.ensures((g,), r));
    r
}

/// The abbreviation of the first host in an association list of host names
/// and their abbreviations.
pub open spec fn abbrev_lookup(abbrevs: Seq<(String, String)>, h: Seq<char>) -> Option<Seq<char>>
    decreases abbrevs.len(),
{
    if abbrevs.len() == 0 {
        None
    } else if abbrevs[0].0@ == h {
        Some(abbrevs[0].1@)
    } else {
        abbrev_lookup(abbrevs.skip(1), h)
    }
}

/// A host as a row shows it: nothing for the local machine, else ` on `
/// and its abbreviation (or name), in magenta when `color`.
pub open spec fn single_host_text(host: HostModel, abbrevs: Seq<(String, String)>, color: bool) -> Seq<char> {
    match host {
        HostModel::Localhost => Seq::empty(),
        _ => {
            let h = host_name_only(host);
            let label = match abbrev_lookup(abbrevs, h) {
                Some(l) => l,
                None => h,
            };
            if color {
                " on "@ + MAGENTA@ + label + RESET@
            } else {
                " on "@ + label
            }
        },
    }
}

fn lookup_abbrev(abbrevs: &Vec<(String, String)>, h: &str) -> (r: Option<String>)
    ensures
        crate::types::opt_string_view(r) == abbrev_lookup(abbrevs@, h@),
{
    let mut i: usize = 0;
    assert(abbrevs@.skip(0) =~= abbrevs@);
    while i < abbrevs.len()
        invariant
            i <= abbrevs.len(),
            abbrev_lookup(abbrevs@, h@) == abbrev_lookup(abbrevs@.skip(i as int), h@),
        decreases abbrevs.len() - i,
    {
        assert(abbrevs@.skip(i as int)[0] == abbrevs@[i as int]);
        assert(abbrevs@.skip(i as int).skip(1) =~= abbrevs@.skip(i + 1));
        if crate::text::str_eq(abbrevs[i].0.as_str(), h) {
            return Some(abbrevs[i].1.clone());
        }
        i += 1;
    }
    None
}

/// How a host is shown after a derivation's name; `host_abbrevs` maps host
/// names to their abbreviations.
pub fn format_single_host(host: &Host, host_abbrevs: &Vec<(String, String)>, color: bool) -> (r: String)
    ensures
        r@ == single_host_text(host@, host_abbrevs@, color),
{
    match host {
        Host::Localhost => String::new(),
        _ => {
            let h = host.hostname_only();
            let label = match lookup_abbrev(host_abbrevs, h) {
                Some(l) => l,
                None => owned(h),
            };
            let mut out = owned(" on ");
            if color {
                push_str(&mut out, MAGENTA);
                push_str(&mut out, label.as_str());
                push_str(&mut out, RESET);
            } else {
                push_str(&mut out, label.as_str());
            }
            out
        },
    }
}

/// The first character of a text, or `?`.
pub open spec fn first_or_question(s: Seq<char>) -> char {
    if s.len() > 0 {
        s[0]
    } else {
        '?'
    }
}

/// The abbreviation of a host name: the first letters of its first two
/// dot-separated parts, or its first two characters where it has no dot.
pub open spec fn host_abbrev_text(h: Seq<char>) -> Seq<char> {
    match find(h, "."@) {
        Some(i) => {
            let rest = h.skip(i + 1);
            let second = match find(rest, "."@) {
                Some(j) => rest.take(j),
                None => rest,
            };
            seq![first_or_question(h.take(i)), first_or_question(second)]
        },
        None => if h.len() < 2 {
            h
        } else {
            h.take(2)
        },
    }
}

/// The abbreviation of a host name.
pub fn host_abbrev(h: &str) -> (r: String)
    ensures
        r@ == host_abbrev_text(h@),
{
    proof {
        reveal_strlit(".");
    }
    let cs = chars_of(h);
    match find_lit(&cs, ".") {
        Some(i) => {
            let rest = sub_chars(&cs, i + 1, cs.len());
            assert(rest@ =~= h@.skip(i + 1));
            let second_end = match find_lit(&rest, ".") {
                Some(j) => j,
                None => rest.len(),
            };
            let mut out = String::new();
            push_char(&mut out, if i > 0 { cs[0] } else { '?' });
            push_char(&mut out, if second_end > 0 { rest[0] } else { '?' });
            assert(out@ =~= host_abbrev_text(h@));
            out
        },
        None => {
            let n = if cs.len() < 2 { cs.len() } else { 2 };
            let r = string_of(&cs, 0, n);
            assert(r@ =~= host_abbrev_text(h@));
            r
        },
    }
}

/// The texts of `s`, each once, in order of first occurrence.
pub open spec fn distinct_texts(s: Seq<Seq<char>>) -> Seq<Seq<char>>
    decreases s.len(),
{
    if s.len() == 0 {
        Seq::empty()
    } else {
        let prev = distinct_texts(s.drop_last());
        if prev.contains(s.last()) {
            prev
        } else {
            prev.push(s.last())
        }
    }
}

/// The abbreviations of the hosts at work: none where fewer than two
/// distinct hosts are, else each distinct host with its abbreviation.
pub open spec fn host_abbrevs_of(hosts: Seq<Seq<char>>) -> Seq<(Seq<char>, Seq<char>)> {
    let d = distinct_texts(hosts);
    if d.len() <= 1 {
        Seq::empty()
    } else {
        d.map_values(|h: Seq<char>| (h, host_abbrev_text(h)))
    }
}

pub open spec fn pair_views(v: Seq<(String, String)>) -> Seq<(Seq<char>, Seq<char>)> {
    v.map_values(|p: (String, String)| (p.0@, p.1@))
}

fn has_text(v: &Vec<String>, s: &String) -> (r: bool)
    ensures
        r == string_views(v@).contains(s@),
{
    let mut i: usize = 0;
    while i < v.len()
        invariant
            i <= v.len(),
            forall|k: int| 0 <= k < i ==> string_views(v@)[k] != s@,
        decreases v.len() - i,
    {
        if crate::text::str_eq(v[i].as_str(), s.as_str()) {
            assert(string_views(v@)[i as int] == s@);
            return true;
        }
        i += 1;
    }
    false
}

/// The abbreviations of the names of the hosts at work (those of running
/// builds and downloads).
pub fn compute_host_abbrevs(hosts: &Vec<String>) -> (r: Vec<(String, String)>)
    ensures
        pair_views(r@) == host_abbrevs_of(string_views(hosts@)),
{
    let ghost hv = string_views(hosts@);
    let mut distinct: Vec<String> = Vec::new();
    let mut k: usize = 0;
    while k < hosts.len()
        invariant
            k <= hosts.len(),
            hv == string_views(hosts@),
            string_views(distinct@) == distinct_texts(hv.take(k as int)),
        decreases hosts.len() - k,
    {
        assert(hv.take(k + 1).drop_last() =~= hv.take(k as int));
        assert(hv.take(k + 1).last() == hosts@[k as int]@);
        if !has_text(&distinct, &hosts[k]) {
            let ghost before = string_views(distinct@);
            distinct.push(hosts[k].clone());
            assert(string_views(distinct@) =~= before.push(hosts@[k as int]@));
        }
        k += 1;
    }
    assert(hv.take(hosts.len() as int) =~= hv);
    let ghost d = string_views(distinct@);
    let mut out: Vec<(String, String)> = Vec::new();
    if distinct.len() <= 1 {
        assert(pair_views(out@) =~= host_abbrevs_of(hv));
        return out;
    }
    let mut i: usize = 0;
    while i < distinct.len()
        invariant
            i <= distinct.len(),
            d == string_views(distinct@),
            pair_views(out@) =~= d.take(i as int).map_values(|h: Seq<char>| (h, host_abbrev_text(h))),
        decreases distinct.len() - i,
    {
        let a = host_abbrev(distinct[i].as_str());
        let ghost before = pair_views(out@);
        out.push((distinct[i].clone(), a));
        assert(pair_views(out@) =~= before.push((d[i as int], host_abbrev_text(d[i as int]))));
        assert(d.take(i + 1).map_values(|h: Seq<char>| (h, host_abbrev_text(h))) =~= d.take(
            i as int,
        ).map_values(|h: Seq<char>| (h, host_abbrev_text(h))).push(
            (d[i as int], host_abbrev_text(d[i as int])),
        ));
        i += 1;
    }
    assert(d.take(distinct.len() as int) =~= d);
    out
}

// ---------------------------------------------------------------------
// Dependency summaries
// ---------------------------------------------------------------------

/// How many builds and transfers of each kind a summary holds.
#[derive(Clone, Copy, Debug, Default, PartialEq, Eq)]
pub struct DependencyCounts {
    pub planned_builds: usize,
    pub running_builds: usize,
    pub completed_builds: usize,
    pub failed_builds: usize,
    pub planned_downloads: usize,
    pub running_downloads: usize,
    pub completed_downloads: usize,
    pub running_uploads: usize,
    pub completed_uploads: usize,
}

/// A count in color with its symbol.
pub open spec fn count_part(color: &'static str, n: usize, symbol: Seq<char>) -> Seq<char> {
    color@ + decimal(n as nat) + " "@ + symbol + RESET@
}

pub open spec fn part_if(acc: Seq<Seq<char>>, n: usize, part: Seq<char>) -> Seq<Seq<char>> {
    if n > 0 {
        acc.push(part)
    } else {
        acc
    }
}

/// The parts of a summary of what a derivation waits for: failed, running
/// and planned builds, running uploads and downloads, planned downloads,
/// each where there are any.
pub open spec fn dependency_parts(s: DependencyCounts) -> Seq<Seq<char>> {
    let p0 = part_if(Seq::empty(), s.failed_builds, count_part(RED, s.failed_builds, WARNING@));
    let p1 = part_if(p0, s.running_builds, count_part(YELLOW, s.running_builds, RUNNING@));
    let p2 = part_if(p1, s.planned_builds, count_part(BLUE, s.planned_builds, TODO@));
    let p3 = part_if(p2, s.running_uploads, count_part(YELLOW, s.running_uploads, UP@));
    let p4 = part_if(p3, s.running_downloads, count_part(YELLOW, s.running_downloads, DOWN@));
    part_if(
        p4,
        s.planned_downloads,
        count_part(BLUE, s.planned_downloads, DOWN@ + " "@ + TODO@),
    )
}

fn push_count_part(parts: &mut Vec<String>, color: &'static str, n: usize, symbol: &str)
    ensures
        string_views(final(parts)@) == part_if(string_views(old(parts)@), n, count_part(color, n, symbol@)),
{
    if n > 0 {
        let mut p = owned(color);
        push_decimal(&mut p, n as u64);
        push_str(&mut p, " ");
        push_str(&mut p, symbol);
        push_str(&mut p, RESET);
        let ghost before = string_views(parts@);
        parts.push(p);
        assert(string_views(parts@) =~= before.push(count_part(color, n, symbol@)));
    }
}

/// What a derivation waits for, as the tree shows it after a planned leaf.
pub fn format_dependency_summary(s: &DependencyCounts) -> (r: String)
    ensures
        r@ == joined(dependency_parts(*s), " "@),
{
    let mut parts: Vec<String> = Vec::new();
    push_count_part(&mut parts, RED, s.failed_builds, WARNING);
    push_count_part(&mut parts, YELLOW, s.running_builds, RUNNING);
    push_count_part(&mut parts, BLUE, s.planned_builds, TODO);
    push_count_part(&mut parts, YELLOW, s.running_uploads, UP);
    push_count_part(&mut parts, YELLOW, s.running_downloads, DOWN);
    let mut down_todo = owned(DOWN);
    push_str(&mut down_todo, " ");
    push_str(&mut down_todo, TODO);
    push_count_part(&mut parts, BLUE, s.planned_downloads, down_todo.as_str());
    assert(string_views(parts@) == dependency_parts(*s));
    join_strings(&parts, " ")
}

// ---------------------------------------------------------------------
// Errors and traces
// ---------------------------------------------------------------------

/// Where nix's build log excerpt starts in an error message.
pub const LOG_EXCERPT_MARKER: &'static str = "\n       last 10 log lines:";

/// A message without its build log excerpt.
pub open spec fn before_log_excerpt(e: Seq<char>) -> Seq<char> {
    match find(e, LOG_EXCERPT_MARKER@) {
        Some(i) => e.take(i),
        None => e,
    }
}

/// The number of lines of all the messages.
pub open spec fn total_lines(v: Seq<Seq<char>>) -> int
    decreases v.len(),
{
    if v.len() == 0 {
        0
    } else {
        total_lines(v.drop_last()) + lines_of(v.last()).len()
    }
}

/// The lines of the messages, in order, each without its log excerpt when
/// `compact`.
pub open spec fn message_lines(msgs: Seq<Seq<char>>, compact: bool) -> Seq<Seq<char>>
    decreases msgs.len(),
{
    if msgs.len() == 0 {
        Seq::empty()
    } else {
        message_lines(msgs.drop_last(), compact) + lines_of(
            if compact {
                before_log_excerpt(msgs.last())
            } else {
                msgs.last()
            },
        )
    }
}

/// A framed section: a title line and the messages' lines, each led by the
/// vertical bar.
pub open spec fn section_text(title: Seq<char>, msgs: Seq<Seq<char>>, max_height: usize) -> Seq<char> {
    let compact = total_lines(msgs) > max_height;
    prepended_text(
        Seq::empty(),
        VERTICAL@ + " "@,
        VERTICAL@ + " "@,
        seq![HORIZONTAL@ + title] + message_lines(msgs, compact),
    )
}

/// The errors section: newest error first.
pub open spec fn errors_text(errors: Seq<Seq<char>>, max_height: usize) -> Seq<char> {
    section_text(
        BOLD@ + RED@ + decimal(errors.len()) + " Errors: "@ + RESET@,
        errors.reverse(),
        max_height,
    )
}

/// The traces section, in order.
pub open spec fn traces_text(traces: Seq<Seq<char>>, max_height: usize) -> Seq<char> {
    section_text(
        BOLD@ + YELLOW@ + decimal(traces.len()) + " "@ + (if traces.len() == 1 {
            " Trace"@
        } else {
            " Traces"@
        }) + ": "@ + RESET@,
        traces,
        max_height,
    )
}

/// Appends the lines of `text` to `out`.
fn push_lines(out: &mut Vec<String>, text: &Vec<char>)
    ensures
        string_views(final(out)@) == string_views(old(out)@) + lines_of(text@),
{
    let ls = split_lines(text);
    let ghost lv = line_views(ls@);
    let mut i: usize = 0;
    while i < ls.len()
        invariant
            i <= ls.len(),
            lv == line_views(ls@),
            string_views(out@) == string_views(old(out)@) + lv.take(i as int),
        decreases ls.len() - i,
    {
        let l = string_of(&ls[i], 0, ls[i].len());
        assert(ls@[i as int]@.subrange(0, ls@[i as int]@.len() as int) =~= lv[i as int]);
        let ghost before = string_views(out@);
        out.push(l);
        assert(string_views(out@) =~= before.push(lv[i as int]));
        assert(lv.take(i + 1) =~= lv.take(i as int).push(lv[i as int]));
        i += 1;
    }
    assert(lv.take(ls.len() as int) =~= lv);
}

/// Whether the messages have more than `max_height` lines in all.
fn more_lines_than(msgs: &Vec<Vec<char>>, max_height: usize) -> (r: bool)
    ensures
        r == (total_lines(line_views(msgs@)) > max_height),
{
    let ghost mv = line_views(msgs@);
    let mut total: usize = 0;
    let mut i: usize = 0;
    while i < msgs.len()
        invariant
            i <= msgs.len(),
            mv == line_views(msgs@),
            total as int == total_lines(mv.take(i as int)),
            total <= max_height,
        decreases msgs.len() - i,
    {
        let n = split_lines(&msgs[i]).len();
        assert(mv.take(i + 1).drop_last() =~= mv.take(i as int));
        assert(mv.take(i + 1).last() == msgs@[i as int]@);
        if n > max_height - total {
            proof {
                lemma_total_lines_prefix(mv, i + 1);
            }
            return true;
        }
        total = total + n;
        i += 1;
    }
    assert(mv.take(msgs.len() as int) =~= mv);
    false
}

proof fn lemma_total_lines_prefix(v: Seq<Seq<char>>, k: int)
    requires
        0 <= k <= v.len(),
    ensures
        total_lines(v.take(k)) <= total_lines(v),
    decreases v.len(),
{
    if k < v.len() {
        lemma_total_lines_prefix(v.drop_last(), k);
        assert(v.drop_last().take(k) =~= v.take(k));
    } else {
        assert(v.take(k) =~= v);
    }
}

/// The lines of the messages (given as characters), each without its log
/// excerpt when `compact`.
fn all_message_lines(msgs: &Vec<Vec<char>>, compact: bool, out: &mut Vec<String>)
    ensures
        string_views(final(out)@) == string_views(old(out)@) + message_lines(line_views(msgs@), compact),
{
    let ghost mv = line_views(msgs@);
    let marker = chars_of(LOG_EXCERPT_MARKER);
    let mut i: usize = 0;
    while i < msgs.len()
        invariant
            i <= msgs.len(),
            mv == line_views(msgs@),
            marker@ == LOG_EXCERPT_MARKER@,
            string_views(out@) == string_views(old(out)@) + message_lines(mv.take(i as int), compact),
        decreases msgs.len() - i,
    {
        assert(mv.take(i + 1).drop_last() =~= mv.take(i as int));
        assert(mv.take(i + 1).last() == msgs@[i as int]@);
        let m = &msgs[i];
        if compact {
            let cut = match crate::text::find_from_exec(m, &marker, 0) {
                Some(k) => {
                    proof {
                        crate::text::lemma_find_from(m@, marker@, 0);
                    }
                    sub_chars(m, 0, k)
                },
                None => sub_chars(m, 0, m.len()),
            };
            assert(cut@ =~= before_log_excerpt(m@));
            push_lines(out, &cut);
        } else {
            push_lines(out, m);
        }
        i += 1;
    }
    assert(mv.take(msgs.len() as int) =~= mv);
}

fn section(title: String, msgs: &Vec<Vec<char>>, max_height: usize) -> (r: String)
    ensures
        r@ == section_text(title@, line_views(msgs@), max_height),
{
    let compact = more_lines_than(msgs, max_height);
    let mut head = owned(HORIZONTAL);
    push_str(&mut head, title.as_str());
    let mut lines: Vec<String> = Vec::new();
    let ghost h = head@;
    lines.push(head);
    assert(string_views(lines@) =~= seq![HORIZONTAL@ + title@]);
    all_message_lines(msgs, compact, &mut lines);
    assert(string_views(lines@) == seq![HORIZONTAL@ + title@] + message_lines(line_views(msgs@), compact));
    let mut bar = owned(VERTICAL);
    push_str(&mut bar, " ");
    let r = prepend_lines("", bar.as_str(), bar.as_str(), &lines);
    proof {
        reveal_strlit("");
        assert(""@ =~= Seq::<char>::empty());
        assert(lines@.map_values(|s: String| s@) =~= string_views(lines@));
        assert(r@ == prepended_text(Seq::empty(), VERTICAL@ + " "@, VERTICAL@ + " "@, string_views(lines@)));
    }
    r
}

/// The errors section of the display, newest error first; where the errors
/// have more than `max_height` lines, their build log excerpts are left out.
pub fn render_errors(errors: &[String], max_height: usize) -> (r: String)
    ensures
        r@ == errors_text(errors@.map_values(|e: String| e@), max_height),
{
    let ghost ev = errors@.map_values(|e: String| e@);
    let mut msgs: Vec<Vec<char>> = Vec::new();
    let mut i: usize = errors.len();
    while i > 0
        invariant
            i <= errors.len(),
            ev == errors@.map_values(|e: String| e@),
            line_views(msgs@) =~= ev.reverse().take(errors.len() - i),
        decreases i,
    {
        i -= 1;
        let ghost before = line_views(msgs@);
        msgs.push(chars_of(errors[i].as_str()));
        assert(line_views(msgs@) =~= before.push(ev[i as int]));
        assert(ev.reverse().take(errors.len() - i) =~= ev.reverse().take(errors.len() - i - 1).push(
            ev[i as int],
        ));
    }
    assert(ev.reverse().take(errors.len() as int) =~= ev.reverse());
    let mut title = owned(BOLD);
    push_str(&mut title, RED);
    push_decimal(&mut title, errors.len() as u64);
    push_str(&mut title, " Errors: ");
    push_str(&mut title, RESET);
    section(title, &msgs, max_height)
}

/// The traces section of the display; where the traces have more than
/// `max_height` lines, their build log excerpts are left out.
pub fn render_traces(traces: &[String], max_height: usize) -> (r: String)
    ensures
        r@ == traces_text(traces@.map_values(|e: String| e@), max_height),
{
    let ghost tv = traces@.map_values(|e: String| e@);
    let mut msgs: Vec<Vec<char>> = Vec::new();
    let mut i: usize = 0;
    while i < traces.len()
        invariant
            i <= traces.len(),
            tv == traces@.map_values(|e: String| e@),
            line_views(msgs@) =~= tv.take(i as int),
        decreases traces.len() - i,
    {
        let ghost before = line_views(msgs@);
        msgs.push(chars_of(traces[i].as_str()));
        assert(line_views(msgs@) =~= before.push(tv[i as int]));
        i += 1;
    }
    assert(tv.take(traces.len() as int) =~= tv);
    let mut title = owned(BOLD);
    push_str(&mut title, YELLOW);
    push_decimal(&mut title, traces.len() as u64);
    push_str(&mut title, " ");
    if traces.len() == 1 {
        push_str(&mut title, " Trace");
    } else {
        push_str(&mut title, " Traces");
    }
    push_str(&mut title, ": ");
    push_str(&mut title, RESET);
    section(title, &msgs, max_height)
}

// ---------------------------------------------------------------------
// Fitting the display to the window
// ---------------------------------------------------------------------

/// A line of the frame or of the summary table, which is never cut.
pub open spec fn is_table_line(l: Seq<char>) -> bool {
    contains(l, " │ "@) || starts_with(l, LEFT_T@) || starts_with(l, LOWERLEFT@) || contains(
        l,
        BIGSUM@,
    )
}

/// A line cut to the window's width, with an ellipsis, where it is wider.
pub open spec fn fitted_line(l: Seq<char>, width: usize) -> Seq<char> {
    if !is_table_line(l) && min_usize(spec_display_width(l)) > width {
        truncated_text(l, if width > 0 { (width - 1) as nat } else { 0 }) + "…"@ + RESET@
    } else {
        l
    }
}

pub open spec fn fitted_lines(ls: Seq<Seq<char>>, width: usize) -> Seq<Seq<char>> {
    ls.map_values(|l: Seq<char>| fitted_line(l, width))
}

/// The display fitted to a window: lines cut to its width and, where they
/// do not fit its height (of more than 6 lines), the first line, an
/// ellipsis line and the last `height - 4` lines.
pub open spec fn window_text(output: Seq<char>, width: usize, height: usize) -> Seq<char> {
    let t = fitted_lines(lines_of(output), width);
    if t.len() >= height && height > 6 {
        let take: int = height - 4;
        let start: int = if t.len() > take {
            t.len() - take
        } else {
            0
        };
        joined(seq![t[0], " ⋮ "@] + t.skip(start), "\n"@)
    } else {
        joined(t, "\n"@)
    }
}

fn fit_line(l: &Vec<char>, width: usize) -> (r: String)
    ensures
        r@ == fitted_line(l@, width),
{
    let text = string_of(l, 0, l.len());
    assert(l@.subrange(0, l@.len() as int) =~= l@);
    let is_table = contains_lit(l, " │ ") || starts_with_lit(l, LEFT_T) || starts_with_lit(
        l,
        LOWERLEFT,
    ) || contains_lit(l, BIGSUM);
    if !is_table && display_width(text.as_str()) > width {
        let max = if width > 0 {
            width - 1
        } else {
            0
        };
        let mut out = truncate_display(text.as_str(), max);
        push_str(&mut out, "…");
        push_str(&mut out, RESET);
        out
    } else {
        text
    }
}

/// Fits the display's text to a window of `width` columns and `height` lines.
pub fn truncate_output_to_window(output: &str, width: usize, height: usize) -> (r: String)
    ensures
        r@ == window_text(output@, width, height),
{
    let cs = chars_of(output);
    let ls = split_lines(&cs);
    let ghost lv = line_views(ls@);
    let ghost t = fitted_lines(lv, width);
    let mut fitted: Vec<String> = Vec::new();
    let mut i: usize = 0;
    while i < ls.len()
        invariant
            i <= ls.len(),
            lv == line_views(ls@),
            t == fitted_lines(lv, width),
            string_views(fitted@) =~= t.take(i as int),
        decreases ls.len() - i,
    {
        let f = fit_line(&ls[i], width);
        let ghost before = string_views(fitted@);
        fitted.push(f);
        assert(string_views(fitted@) =~= before.push(t[i as int]));
        assert(t.take(i + 1) =~= t.take(i as int).push(t[i as int]));
        i += 1;
    }
    assert(t.take(ls.len() as int) =~= t);
    if fitted.len() >= height && height > 6 {
        let take = height - 4;
        let start = if fitted.len() > take {
            fitted.len() - take
        } else {
            0
        };
        let mut rows: Vec<String> = Vec::new();
        rows.push(fitted[0].clone());
        rows.push(owned(" ⋮ "));
        let mut k = start;
        while k < fitted.len()
            invariant
                start <= k <= fitted.len(),
                fitted.len() >= 1,
                string_views(fitted@) =~= t,
                string_views(rows@) =~= seq![t[0], " ⋮ "@] + t.subrange(start as int, k as int),
            decreases fitted.len() - k,
        {
            let ghost before = string_views(rows@);
            rows.push(fitted[k].clone());
            assert(string_views(rows@) =~= before.push(t[k as int]));
            k += 1;
        }
        assert(t.subrange(start as int, fitted.len() as int) =~= t.skip(start as int));
        join_strings(&rows, "\n")
    } else {
        join_strings(&fitted, "\n")
    }
}

// ---------------------------------------------------------------------
// The hosts of transfers
// ---------------------------------------------------------------------

/// The hosts of `hs`, each once, in order of first occurrence.
pub open spec fn distinct_hosts(hs: Seq<HostModel>) -> Seq<HostModel>
    decreases hs.len(),
{
    if hs.len() == 0 {
        Seq::empty()
    } else {
        let prev = distinct_hosts(hs.drop_last());
        if prev.contains(hs.last()) {
            prev
        } else {
            prev.push(hs.last())
        }
    }
}

pub open spec fn host_views(v: Seq<Host>) -> Seq<HostModel> {
    v.map_values(|h: Host| h@)
}

/// The label of a host: its abbreviation, or its name.
pub open spec fn host_label(abbrevs: Seq<(String, String)>, h: HostModel) -> Seq<char> {
    match abbrev_lookup(abbrevs, host_name_only(h)) {
        Some(l) => l,
        None => host_name_only(h),
    }
}

/// The hosts of a derivation's transfers, as ` from a, b` (or ` to ...`);
/// nothing where fewer than two hosts have abbreviations or there are no
/// transfers. Each host is named once, in order of first mention.
pub open spec fn hosts_text(hosts: Seq<HostModel>, abbrevs: Seq<(String, String)>, dir: Seq<char>) -> Seq<char> {
    if abbrevs.len() <= 1 || hosts.len() == 0 {
        Seq::empty()
    } else {
        " "@ + dir + " "@ + joined(
            distinct_hosts(hosts).map_values(|h: HostModel| host_label(abbrevs, h)),
            ", "@,
        )
    }
}

fn opt_str_eq(a: &Option<String>, b: &Option<String>) -> (r: bool)
    ensures
        r == (crate::types::opt_string_view(*a) == crate::types::opt_string_view(*b)),
{
    match (a, b) {
        (Some(x), Some(y)) => crate::text::str_eq(x.as_str(), y.as_str()),
        (None, None) => true,
        _ => false,
    }
}

fn same_host(a: &Host, b: &Host) -> (r: bool)
    ensures
        r == (a@ == b@),
{
    match (a, b) {
        (Host::Localhost, Host::Localhost) => true,
        (
            Host::Remote { proto: p1, user: u1, host: h1 },
            Host::Remote { proto: p2, user: u2, host: h2 },
        ) => opt_str_eq(p1, p2) && opt_str_eq(u1, u2) && crate::text::str_eq(h1.as_str(), h2.as_str()),
        _ => false,
    }
}

fn has_host(v: &Vec<Host>, h: &Host) -> (r: bool)
    ensures
        r == host_views(v@).contains(h@),
{
    let mut i: usize = 0;
    while i < v.len()
        invariant
            i <= v.len(),
            forall|k: int| 0 <= k < i ==> host_views(v@)[k] != h@,
        decreases v.len() - i,
    {
        if same_host(&v[i], h) {
            assert(host_views(v@)[i as int] == h@);
            return true;
        }
        i += 1;
    }
    false
}

/// The hosts of a derivation's transfers, as a row shows them after its name.
pub fn format_hosts(hosts: &Vec<Host>, host_abbrevs: &Vec<(String, String)>, dir: &str) -> (r: String)
    ensures
        r@ == hosts_text(host_views(hosts@), host_abbrevs@, dir@),
{
    if host_abbrevs.len() <= 1 || hosts.len() == 0 {
        return String::new();
    }
    let ghost hv = host_views(hosts@);
    let mut distinct: Vec<Host> = Vec::new();
    let mut k: usize = 0;
    while k < hosts.len()
        invariant
            k <= hosts.len(),
            hv == host_views(hosts@),
            host_views(distinct@) == distinct_hosts(hv.take(k as int)),
        decreases hosts.len() - k,
    {
        assert(hv.take(k + 1).drop_last() =~= hv.take(k as int));
        assert(hv.take(k + 1).last() == hosts@[k as int]@);
        if !has_host(&distinct, &hosts[k]) {
            let ghost before = host_views(distinct@);
            distinct.push(hosts[k].copied());
            assert(host_views(distinct@) =~= before.push(hosts@[k as int]@));
        }
        k += 1;
    }
    assert(hv.take(hosts.len() as int) =~= hv);
    let ghost d = host_views(distinct@);
    let ghost labels = d.map_values(|h: HostModel| host_label(host_abbrevs@, h));
    let mut names: Vec<String> = Vec::new();
    let mut i: usize = 0;
    while i < distinct.len()
        invariant
            i <= distinct.len(),
            d == host_views(distinct@),
            labels == d.map_values(|h: HostModel| host_label(host_abbrevs@, h)),
            string_views(names@) =~= labels.take(i as int),
        decreases distinct.len() - i,
    {
        let h = distinct[i].hostname_only();
        let label = match lookup_abbrev(host_abbrevs, h) {
            Some(l) => l,
            None => owned(h),
        };
        let ghost before = string_views(names@);
        names.push(label);
        assert(string_views(names@) =~= before.push(labels[i as int]));
        i += 1;
    }
    assert(labels.take(distinct.len() as int) =~= labels);
    let mut out = owned(" ");
    push_str(&mut out, dir);
    push_str(&mut out, " ");
    let list = join_strings(&names, ", ");
    push_str(&mut out, list.as_str());
    out
}

// ---------------------------------------------------------------------
// The summary table
// ---------------------------------------------------------------------

/// What the summary table shows of one host: its name with the protocol in
/// brackets, its builds and transfers, and the bytes its downloads have
/// done of those expected.
#[derive(Clone, Debug, Default, PartialEq, Eq)]
pub struct HostStats {
    pub host: String,
    pub running_builds: usize,
    pub completed_builds: usize,
    pub running_downloads: usize,
    pub completed_downloads: usize,
    pub running_uploads: usize,
    pub completed_uploads: usize,
    pub done: usize,
    pub expected: usize,
}

/// An entry of the table, by its style codes, left and right content and
/// the cells it spans.
pub struct EntrySpec {
    pub codes: Seq<&'static str>,
    pub left: Seq<char>,
    pub right: Seq<char>,
    pub width: usize,
}

/// `e` is the entry that `m` describes, with its contents measured.
pub open spec fn entry_is(e: Entry, m: EntrySpec) -> bool {
    &&& e.codes@ == m.codes
    &&& e.lcontent@ == m.left
    &&& e.rcontent@ == m.right
    &&& e.width == m.width
    &&& e.lw == min_usize(spec_display_width(m.left))
    &&& e.rw == min_usize(spec_display_width(m.right))
}

pub open spec fn row_is(row: Seq<Entry>, m: Seq<EntrySpec>) -> bool {
    row.len() == m.len() && forall|i: int| 0 <= i < row.len() ==> entry_is(#[trigger] row[i], m[i])
}

pub open spec fn rows_are(rows: Seq<Vec<Entry>>, m: Seq<Seq<EntrySpec>>) -> bool {
    rows.len() == m.len() && forall|i: int| 0 <= i < rows.len() ==> row_is(#[trigger] rows[i]@, m[i])
}

pub open spec fn blank_spec() -> EntrySpec {
    EntrySpec { codes: Seq::empty(), left: Seq::empty(), right: Seq::empty(), width: 1 }
}

/// A count with its symbol, as `non_zero_entry` makes it, in `color`.
pub open spec fn count_spec(symbol: Seq<char>, n: usize, color: &'static str) -> EntrySpec {
    EntrySpec {
        codes: if n > 0 {
            seq![BOLD, color]
        } else {
            seq![color]
        },
        left: symbol,
        right: if n > 0 {
            decimal(n as nat)
        } else {
            "0"@
        },
        width: 1,
    }
}

/// A count where it is above zero, else a blank entry.
pub open spec fn count_or_blank(symbol: Seq<char>, n: usize, color: &'static str) -> EntrySpec {
    if n > 0 {
        count_spec(symbol, n, color)
    } else {
        blank_spec()
    }
}

pub open spec fn header_spec(t: Seq<char>, code: &'static str, width: usize) -> EntrySpec {
    EntrySpec { codes: seq![code], left: t, right: Seq::empty(), width }
}

/// The bytes that downloads have done of those expected, where any are
/// expected.
pub open spec fn bytes_spec(done: usize, expected: usize) -> EntrySpec {
    if expected > 0 {
        EntrySpec {
            codes: seq![GREEN],
            left: Seq::empty(),
            right: DOWN@ + " "@ + bytes_text(done as nat) + "/"@ + bytes_text(expected as nat),
            width: 1,
        }
    } else {
        blank_spec()
    }
}

pub open spec fn cols_if(show: bool, cols: Seq<EntrySpec>) -> Seq<EntrySpec> {
    if show {
        cols
    } else {
        Seq::empty()
    }
}

pub open spec fn shows_builds(c: DependencyCounts) -> bool {
    c.running_builds + c.completed_builds + c.planned_builds > 0
}

pub open spec fn shows_downloads(c: DependencyCounts) -> bool {
    c.running_downloads + c.completed_downloads + c.planned_downloads > 0
}

pub open spec fn shows_uploads(c: DependencyCounts) -> bool {
    c.running_uploads + c.completed_uploads > 0
}

pub open spec fn header_row_spec(c: DependencyCounts, show_hosts: bool) -> Seq<EntrySpec> {
    cols_if(shows_builds(c), seq![header_spec("Builds"@, BOLD, 3)]) + cols_if(
        shows_downloads(c),
        seq![header_spec("Downloads"@, BOLD, 4)],
    ) + cols_if(shows_uploads(c), seq![header_spec("Uploads"@, BOLD, 2)]) + cols_if(
        show_hosts,
        seq![header_spec("Host"@, BOLD, 1)],
    )
}

pub open spec fn host_row_spec(c: DependencyCounts, h: HostStats) -> Seq<EntrySpec> {
    cols_if(
        shows_builds(c),
        seq![
            count_or_blank(RUNNING@, h.running_builds, YELLOW),
            count_or_blank(DONE@, h.completed_builds, GREEN),
            blank_spec(),
        ],
    ) + cols_if(
        shows_downloads(c),
        seq![
            count_or_blank(DOWN@, h.running_downloads, YELLOW),
            count_or_blank(DOWN@, h.completed_downloads, GREEN),
            blank_spec(),
            bytes_spec(h.done, h.expected),
        ],
    ) + cols_if(
        shows_uploads(c),
        seq![
            count_or_blank(UP@, h.running_uploads, YELLOW),
            count_or_blank(UP@, h.completed_uploads, GREEN),
        ],
    ) + seq![header_spec(h.host@, MAGENTA, 1)]
}

pub open spec fn total_row_spec(c: DependencyCounts, done: usize, expected: usize, time: Seq<char>) -> Seq<EntrySpec> {
    cols_if(
        shows_builds(c),
        seq![
            count_spec(RUNNING@, c.running_builds, YELLOW),
            count_spec(DONE@, c.completed_builds, GREEN),
            count_spec(TODO@, c.planned_builds, BLUE),
        ],
    ) + cols_if(
        shows_downloads(c),
        seq![
            count_spec(DOWN@, c.running_downloads, YELLOW),
            count_spec(DOWN@, c.completed_downloads, GREEN),
            count_spec(TODO@, c.planned_downloads, BLUE),
            bytes_spec(done, expected),
        ],
    ) + cols_if(
        shows_uploads(c),
        seq![count_spec(UP@, c.running_uploads, YELLOW), count_spec(UP@, c.completed_uploads, GREEN)],
    ) + seq![header_spec(time, BOLD, 1)]
}

/// The rows of the summary table: a header where any column shows, a row
/// per host where there is more than one, and the totals with the time.
pub open spec fn summary_rows_spec(
    c: DependencyCounts,
    hosts: Seq<HostStats>,
    done: usize,
    expected: usize,
    time: Seq<char>,
) -> Seq<Seq<EntrySpec>> {
    let show_hosts = hosts.len() > 1;
    let header = header_row_spec(c, show_hosts);
    (if header.len() > 0 {
        seq![header]
    } else {
        Seq::empty()
    }) + (if show_hosts {
        hosts.map_values(|h: HostStats| host_row_spec(c, h))
    } else {
        Seq::empty()
    }) + seq![total_row_spec(c, done, expected, time)]
}

/// How many columns a row spans.
pub open spec fn cells_spanned(row: Seq<EntrySpec>) -> int
    decreases row.len(),
{
    if row.len() == 0 {
        0
    } else {
        cells_spanned(row.drop_last()) + row.last().width
    }
}

proof fn lemma_cells_spanned_concat(a: Seq<EntrySpec>, b: Seq<EntrySpec>)
    ensures
        cells_spanned(a + b) == cells_spanned(a) + cells_spanned(b),
    decreases b.len(),
{
    if b.len() == 0 {
        assert(a + b =~= a);
    } else {
        lemma_cells_spanned_concat(a, b.drop_last());
        assert((a + b).drop_last() =~= a + b.drop_last());
    }
}

proof fn lemma_cells_spanned_ones(row: Seq<EntrySpec>)
    requires
        forall|i: int| 0 <= i < row.len() ==> (#[trigger] row[i]).width == 1,
    ensures
        cells_spanned(row) == row.len(),
    decreases row.len(),
{
    if row.len() > 0 {
        lemma_cells_spanned_ones(row.drop_last());
    }
}

proof fn lemma_cells_spanned_single(e: EntrySpec)
    ensures
        cells_spanned(seq![e]) == e.width,
{
    assert(seq![e].drop_last() =~= Seq::<EntrySpec>::empty());
    assert(cells_spanned(Seq::<EntrySpec>::empty()) == 0);
}

proof fn lemma_cells_spanned_cols(show: bool, cols: Seq<EntrySpec>)
    ensures
        cells_spanned(cols_if(show, cols)) == if show { cells_spanned(cols) } else { 0 },
{
}

/// The summary table lines up: every host row spans as many columns as the
/// totals row, and so does the header where hosts are shown (it then heads
/// the host column); without hosts the header stops before the time. Host
/// rows come in the order of `hosts`, each ending with that host's name;
/// the totals row comes last and ends with the time.
pub proof fn lemma_summary_rows_line_up(c: DependencyCounts, hosts: Seq<HostStats>, done: usize, expected: usize, time: Seq<char>)
    ensures
        ({
            let rows = summary_rows_spec(c, hosts, done, expected, time);
            let h = header_row_spec(c, hosts.len() > 1);
            let first_host = if h.len() > 0 { 1int } else { 0int };
            &&& rows.len() == first_host + (if hosts.len() > 1 { hosts.len() as int } else { 0int }) + 1
            &&& rows.last() == total_row_spec(c, done, expected, time)
            &&& rows.last().last().left == time
            &&& h.len() > 0 ==> rows[0] == h && cells_spanned(h) + (if hosts.len() > 1 { 0int } else { 1int })
                == cells_spanned(rows.last())
            &&& hosts.len() > 1 ==> forall|j: int| 0 <= j < hosts.len() ==> {
                &&& #[trigger] rows[first_host + j] == host_row_spec(c, hosts[j])
                &&& rows[first_host + j].last().left == hosts[j].host@
                &&& cells_spanned(rows[first_host + j]) == cells_spanned(rows.last())
            }
        }),
{
    let rows = summary_rows_spec(c, hosts, done, expected, time);
    let show_hosts = hosts.len() > 1;
    let h = header_row_spec(c, show_hosts);
    let b = shows_builds(c);
    let d = shows_downloads(c);
    let u = shows_uploads(c);
    let bc = seq![
        count_spec(RUNNING@, c.running_builds, YELLOW),
        count_spec(DONE@, c.completed_builds, GREEN),
        count_spec(TODO@, c.planned_builds, BLUE),
    ];
    let dc = seq![
        count_spec(DOWN@, c.running_downloads, YELLOW),
        count_spec(DOWN@, c.completed_downloads, GREEN),
        count_spec(TODO@, c.planned_downloads, BLUE),
        bytes_spec(done, expected),
    ];
    let uc = seq![count_spec(UP@, c.running_uploads, YELLOW), count_spec(UP@, c.completed_uploads, GREEN)];
    let tail = seq![header_spec(time, BOLD, 1)];
    let total = total_row_spec(c, done, expected, time);
    lemma_cells_spanned_ones(bc);
    assert(cells_spanned(bc) == 3);
    lemma_cells_spanned_ones(dc);
    assert(cells_spanned(dc) == 4);
    lemma_cells_spanned_ones(uc);
    assert(cells_spanned(uc) == 2);
    lemma_cells_spanned_single(header_spec(time, BOLD, 1));
    let body = if b { 3int } else { 0int } + if d { 4int } else { 0int } + if u { 2int } else { 0int };
    lemma_cells_spanned_cols(b, bc);
    lemma_cells_spanned_cols(d, dc);
    lemma_cells_spanned_cols(u, uc);
    lemma_cells_spanned_concat(cols_if(b, bc), cols_if(d, dc));
    lemma_cells_spanned_concat(cols_if(b, bc) + cols_if(d, dc), cols_if(u, uc));
    lemma_cells_spanned_concat(cols_if(b, bc) + cols_if(d, dc) + cols_if(u, uc), tail);
    assert(cells_spanned(total) == body + 1);
    // The header.
    let hb = seq![header_spec("Builds"@, BOLD, 3)];
    let hd = seq![header_spec("Downloads"@, BOLD, 4)];
    let hu = seq![header_spec("Uploads"@, BOLD, 2)];
    let hh = seq![header_spec("Host"@, BOLD, 1)];
    lemma_cells_spanned_single(header_spec("Builds"@, BOLD, 3));
    lemma_cells_spanned_single(header_spec("Downloads"@, BOLD, 4));
    lemma_cells_spanned_single(header_spec("Uploads"@, BOLD, 2));
    lemma_cells_spanned_single(header_spec("Host"@, BOLD, 1));
    assert(cells_spanned(hb) == 3);
    assert(cells_spanned(hd) == 4);
    assert(cells_spanned(hu) == 2);
    assert(cells_spanned(hh) == 1);
    lemma_cells_spanned_cols(b, hb);
    lemma_cells_spanned_cols(d, hd);
    lemma_cells_spanned_cols(u, hu);
    lemma_cells_spanned_cols(show_hosts, hh);
    lemma_cells_spanned_concat(cols_if(b, hb), cols_if(d, hd));
    lemma_cells_spanned_concat(cols_if(b, hb) + cols_if(d, hd), cols_if(u, hu));
    lemma_cells_spanned_concat(cols_if(b, hb) + cols_if(d, hd) + cols_if(u, hu), cols_if(show_hosts, hh));
    assert(cells_spanned(h) == body + if show_hosts { 1int } else { 0int });
    // The host rows.
    assert forall|hs: HostStats| cells_spanned(#[trigger] host_row_spec(c, hs)) == body + 1 && host_row_spec(c, hs).last().left == hs.host@ by {
        let hbc = seq![
            count_or_blank(RUNNING@, hs.running_builds, YELLOW),
            count_or_blank(DONE@, hs.completed_builds, GREEN),
            blank_spec(),
        ];
        let hdc = seq![
            count_or_blank(DOWN@, hs.running_downloads, YELLOW),
            count_or_blank(DOWN@, hs.completed_downloads, GREEN),
            blank_spec(),
            bytes_spec(hs.done, hs.expected),
        ];
        let huc = seq![
            count_or_blank(UP@, hs.running_uploads, YELLOW),
            count_or_blank(UP@, hs.completed_uploads, GREEN),
        ];
        let ht = seq![header_spec(hs.host@, MAGENTA, 1)];
        lemma_cells_spanned_ones(hbc);
        assert(cells_spanned(hbc) == 3);
        lemma_cells_spanned_ones(hdc);
        assert(cells_spanned(hdc) == 4);
        lemma_cells_spanned_ones(huc);
        assert(cells_spanned(huc) == 2);
        lemma_cells_spanned_single(header_spec(hs.host@, MAGENTA, 1));
        assert(cells_spanned(ht) == 1);
        lemma_cells_spanned_cols(b, hbc);
        lemma_cells_spanned_cols(d, hdc);
        lemma_cells_spanned_cols(u, huc);
        lemma_cells_spanned_concat(cols_if(b, hbc), cols_if(d, hdc));
        lemma_cells_spanned_concat(cols_if(b, hbc) + cols_if(d, hdc), cols_if(u, huc));
        lemma_cells_spanned_concat(cols_if(b, hbc) + cols_if(d, hdc) + cols_if(u, huc), ht);
    }
    let first = if h.len() > 0 { seq![h] } else { Seq::<Seq<EntrySpec>>::empty() };
    let mid = if show_hosts { hosts.map_values(|hs: HostStats| host_row_spec(c, hs)) } else { Seq::<Seq<EntrySpec>>::empty() };
    assert(rows == first + mid + seq![total]);
    assert(total.last() == header_spec(time, BOLD, 1));
    if show_hosts {
        assert forall|j: int| 0 <= j < hosts.len() implies #[trigger] rows[first.len() + j] == host_row_spec(c, hosts[j]) by {
            assert(rows[first.len() + j] == mid[j]);
        }
    }
}

pub open spec fn table_sep() -> Seq<char> {
    " │ "@
}

/// The lines of a table laid out with the summary's separator.
pub open spec fn summary_lines(rows: Seq<Vec<Entry>>) -> Seq<Seq<char>> {
    let sep_w = min_usize(spec_display_width(table_sep()));
    Seq::new(
        rows.len(),
        |i: int| row_text(rows[i]@, 0, 0, table_widths(rows, sep_w), table_sep(), sep_w),
    )
}

fn blank() -> (r: Entry)
    ensures
        entry_is(r, blank_spec()),
{
    let r = Entry::text("");
    proof {
        reveal_strlit("");
        assert(r.rcontent@ =~= Seq::<char>::empty());
    }
    r
}

/// The colors of counts in the summary table.
#[derive(Clone, Copy)]
enum Tint {
    Yellow,
    Green,
    Blue,
}

spec fn tint_code(t: Tint) -> &'static str {
    match t {
        Tint::Yellow => YELLOW,
        Tint::Green => GREEN,
        Tint::Blue => BLUE,
    }
}

fn count_entry(symbol: &str, n: usize, tint: Tint) -> (r: Entry)
    ensures
        entry_is(r, count_spec(symbol@, n, tint_code(tint))),
{
    let r = match tint {
        Tint::Yellow => non_zero_entry(symbol, n, |e: Entry| -> (r: Entry)
            ensures
                styled_with(r, e, YELLOW),
            { e.yellow() }),
        Tint::Green => non_zero_entry(symbol, n, |e: Entry| -> (r: Entry)
            ensures
                styled_with(r, e, GREEN),
            { e.green() }),
        Tint::Blue => non_zero_entry(symbol, n, |e: Entry| -> (r: Entry)
            ensures
                styled_with(r, e, BLUE),
            { e.blue() }),
    };
    proof {
        reveal_strlit("0");
        let c = tint_code(tint);
        if n > 0 {
            assert(r.codes@ =~= seq![BOLD, c]);
        } else {
            assert(r.codes@ =~= seq![c]);
        }
    }
    r
}

fn count_or_blank_entry(symbol: &str, n: usize, tint: Tint) -> (r: Entry)
    ensures
        entry_is(r, count_or_blank(symbol@, n, tint_code(tint))),
{
    if n > 0 {
        count_entry(symbol, n, tint)
    } else {
        blank()
    }
}

fn header_entry(t: &str, code: &'static str, width: usize) -> (r: Entry)
    ensures
        entry_is(r, header_spec(t@, code, width)),
{
    let e = Entry::header(t).styled(code).cells(width);
    assert(e.codes@ =~= seq![code]);
    e
}

fn bytes_entry(done: usize, expected: usize) -> (r: Entry)
    ensures
        entry_is(r, bytes_spec(done, expected)),
{
    if expected > 0 {
        let mut t = owned(DOWN);
        push_str(&mut t, " ");
        let d = print_bytes(done);
        push_str(&mut t, d.as_str());
        push_str(&mut t, "/");
        let x = print_bytes(expected);
        push_str(&mut t, x.as_str());
        let e = Entry::text(t.as_str()).green();
        proof {
            reveal_strlit("");
            assert(e.codes@ =~= seq![GREEN]);
            assert(e.lcontent@ =~= Seq::<char>::empty());
        }
        e
    } else {
        blank()
    }
}

fn push_entry(row: &mut Vec<Entry>, e: Entry, Ghost(spec): Ghost<Seq<EntrySpec>>, Ghost(m): Ghost<EntrySpec>)
    requires
        row_is(old(row)@, spec),
        entry_is(e, m),
    ensures
        row_is(final(row)@, spec.push(m)),
{
    row.push(e);
    assert(forall|i: int| 0 <= i < spec.len() ==> final(row)@[i] == old(row)@[i]);
}

/// The summary table of the display, framed as its last section: a header
/// where any column shows, a row per host where there is more than one, and
/// the totals with `time_text`. `hosts` come in the order they are shown;
/// `done` and `expected` are the bytes of all downloads.
pub fn render_summary_table(
    counts: &DependencyCounts,
    hosts: &Vec<HostStats>,
    done: usize,
    expected: usize,
    time_text: &str,
) -> (r: String)
    ensures
        exists|rows: Seq<Vec<Entry>>|
            {
                &&& rows_are(rows, summary_rows_spec(*counts, hosts@, done, expected, time_text@))
                &&& r@ == prepended_text(
                    "━━━ "@,
                    VERTICAL@ + "    "@,
                    LOWERLEFT@ + HORIZONTAL@ + " "@ + BIGSUM@ + " "@,
                    summary_lines(rows),
                )
            },
{
    let c = *counts;
    let show_b = c.running_builds > 0 || c.completed_builds > 0 || c.planned_builds > 0;
    let show_d = c.running_downloads > 0 || c.completed_downloads > 0 || c.planned_downloads > 0;
    let show_u = c.running_uploads > 0 || c.completed_uploads > 0;
    let show_hosts = hosts.len() > 1;
    assert(show_b == shows_builds(c));
    assert(show_d == shows_downloads(c));
    assert(show_u == shows_uploads(c));
    let ghost spec = summary_rows_spec(c, hosts@, done, expected, time_text@);

    // The header row.
    let mut header: Vec<Entry> = Vec::new();
    let ghost mut hs: Seq<EntrySpec> = Seq::empty();
    if show_b {
        push_entry(&mut header, header_entry("Builds", BOLD, 3), Ghost(hs), Ghost(header_spec("Builds"@, BOLD, 3)));
        proof { hs = hs.push(header_spec("Builds"@, BOLD, 3)); }
    }
    if show_d {
        push_entry(&mut header, header_entry("Downloads", BOLD, 4), Ghost(hs), Ghost(header_spec("Downloads"@, BOLD, 4)));
        proof { hs = hs.push(header_spec("Downloads"@, BOLD, 4)); }
    }
    if show_u {
        push_entry(&mut header, header_entry("Uploads", BOLD, 2), Ghost(hs), Ghost(header_spec("Uploads"@, BOLD, 2)));
        proof { hs = hs.push(header_spec("Uploads"@, BOLD, 2)); }
    }
    if show_hosts {
        push_entry(&mut header, header_entry("Host", BOLD, 1), Ghost(hs), Ghost(header_spec("Host"@, BOLD, 1)));
        proof { hs = hs.push(header_spec("Host"@, BOLD, 1)); }
    }
    assert(hs =~= header_row_spec(c, show_hosts));

    let mut rows: Vec<Vec<Entry>> = Vec::new();
    let ghost mut rs: Seq<Seq<EntrySpec>> = Seq::empty();
    if header.len() > 0 {
        rows.push(header);
        proof { rs = rs.push(hs); }
    }
    assert(rows_are(rows@, rs));

    // A row per host.
    if show_hosts {
        let mut i: usize = 0;
        while i < hosts.len()
            invariant
                i <= hosts.len(),
                show_b == shows_builds(c),
                show_d == shows_downloads(c),
                show_u == shows_uploads(c),
                rows_are(rows@, rs + hosts@.take(i as int).map_values(|h: HostStats| host_row_spec(c, h))),
            decreases hosts.len() - i,
        {
            let h = &hosts[i];
            let mut row: Vec<Entry> = Vec::new();
            let ghost mut es: Seq<EntrySpec> = Seq::empty();
            if show_b {
                push_entry(&mut row, count_or_blank_entry(RUNNING, h.running_builds, Tint::Yellow), Ghost(es), Ghost(count_or_blank(RUNNING@, h.running_builds, YELLOW)));
                proof { es = es.push(count_or_blank(RUNNING@, h.running_builds, YELLOW)); }
                push_entry(&mut row, count_or_blank_entry(DONE, h.completed_builds, Tint::Green), Ghost(es), Ghost(count_or_blank(DONE@, h.completed_builds, GREEN)));
                proof { es = es.push(count_or_blank(DONE@, h.completed_builds, GREEN)); }
                push_entry(&mut row, blank(), Ghost(es), Ghost(blank_spec()));
                proof { es = es.push(blank_spec()); }
            }
            if show_d {
                push_entry(&mut row, count_or_blank_entry(DOWN, h.running_downloads, Tint::Yellow), Ghost(es), Ghost(count_or_blank(DOWN@, h.running_downloads, YELLOW)));
                proof { es = es.push(count_or_blank(DOWN@, h.running_downloads, YELLOW)); }
                push_entry(&mut row, count_or_blank_entry(DOWN, h.completed_downloads, Tint::Green), Ghost(es), Ghost(count_or_blank(DOWN@, h.completed_downloads, GREEN)));
                proof { es = es.push(count_or_blank(DOWN@, h.completed_downloads, GREEN)); }
                push_entry(&mut row, blank(), Ghost(es), Ghost(blank_spec()));
                proof { es = es.push(blank_spec()); }
                push_entry(&mut row, bytes_entry(h.done, h.expected), Ghost(es), Ghost(bytes_spec(h.done, h.expected)));
                proof { es = es.push(bytes_spec(h.done, h.expected)); }
            }
            if show_u {
                push_entry(&mut row, count_or_blank_entry(UP, h.running_uploads, Tint::Yellow), Ghost(es), Ghost(count_or_blank(UP@, h.running_uploads, YELLOW)));
                proof { es = es.push(count_or_blank(UP@, h.running_uploads, YELLOW)); }
                push_entry(&mut row, count_or_blank_entry(UP, h.completed_uploads, Tint::Green), Ghost(es), Ghost(count_or_blank(UP@, h.completed_uploads, GREEN)));
                proof { es = es.push(count_or_blank(UP@, h.completed_uploads, GREEN)); }
            }
            push_entry(&mut row, header_entry(h.host.as_str(), MAGENTA, 1), Ghost(es), Ghost(header_spec(h.host@, MAGENTA, 1)));
            proof { es = es.push(header_spec(h.host@, MAGENTA, 1)); }
            assert(es =~= host_row_spec(c, *h));
            let ghost before = rows@;
            rows.push(row);
            proof {
                let prev = rs + hosts@.take(i as int).map_values(|h: HostStats| host_row_spec(c, h));
                let next = rs + hosts@.take(i + 1).map_values(|h: HostStats| host_row_spec(c, h));
                assert(next =~= prev.push(es));
                assert forall|k: int| 0 <= k < rows@.len() implies row_is(#[trigger] rows@[k]@, next[k]) by {
                    if k < before.len() {
                        assert(rows@[k] == before[k]);
                    }
                }
            }
            i += 1;
        }
        assert(hosts@.take(hosts.len() as int) =~= hosts@);
        proof { rs = rs + hosts@.map_values(|h: HostStats| host_row_spec(c, h)); }
    }
    assert(rows_are(rows@, rs));

    // The totals.
    let mut total: Vec<Entry> = Vec::new();
    let ghost mut ts: Seq<EntrySpec> = Seq::empty();
    if show_b {
        push_entry(&mut total, count_entry(RUNNING, c.running_builds, Tint::Yellow), Ghost(ts), Ghost(count_spec(RUNNING@, c.running_builds, YELLOW)));
        proof { ts = ts.push(count_spec(RUNNING@, c.running_builds, YELLOW)); }
        push_entry(&mut total, count_entry(DONE, c.completed_builds, Tint::Green), Ghost(ts), Ghost(count_spec(DONE@, c.completed_builds, GREEN)));
        proof { ts = ts.push(count_spec(DONE@, c.completed_builds, GREEN)); }
        push_entry(&mut total, count_entry(TODO, c.planned_builds, Tint::Blue), Ghost(ts), Ghost(count_spec(TODO@, c.planned_builds, BLUE)));
        proof { ts = ts.push(count_spec(TODO@, c.planned_builds, BLUE)); }
    }
    if show_d {
        push_entry(&mut total, count_entry(DOWN, c.running_downloads, Tint::Yellow), Ghost(ts), Ghost(count_spec(DOWN@, c.running_downloads, YELLOW)));
        proof { ts = ts.push(count_spec(DOWN@, c.running_downloads, YELLOW)); }
        push_entry(&mut total, count_entry(DOWN, c.completed_downloads, Tint::Green), Ghost(ts), Ghost(count_spec(DOWN@, c.completed_downloads, GREEN)));
        proof { ts = ts.push(count_spec(DOWN@, c.completed_downloads, GREEN)); }
        push_entry(&mut total, count_entry(TODO, c.planned_downloads, Tint::Blue), Ghost(ts), Ghost(count_spec(TODO@, c.planned_downloads, BLUE)));
        proof { ts = ts.push(count_spec(TODO@, c.planned_downloads, BLUE)); }
        push_entry(&mut total, bytes_entry(done, expected), Ghost(ts), Ghost(bytes_spec(done, expected)));
        proof { ts = ts.push(bytes_spec(done, expected)); }
    }
    if show_u {
        push_entry(&mut total, count_entry(UP, c.running_uploads, Tint::Yellow), Ghost(ts), Ghost(count_spec(UP@, c.running_uploads, YELLOW)));
        proof { ts = ts.push(count_spec(UP@, c.running_uploads, YELLOW)); }
        push_entry(&mut total, count_entry(UP, c.completed_uploads, Tint::Green), Ghost(ts), Ghost(count_spec(UP@, c.completed_uploads, GREEN)));
        proof { ts = ts.push(count_spec(UP@, c.completed_uploads, GREEN)); }
    }
    push_entry(&mut total, header_entry(time_text, BOLD, 1), Ghost(ts), Ghost(header_spec(time_text@, BOLD, 1)));
    proof { ts = ts.push(header_spec(time_text@, BOLD, 1)); }
    assert(ts =~= total_row_spec(c, done, expected, time_text@));
    let ghost before = rows@;
    rows.push(total);
    proof {
        let next = rs.push(ts);
        assert forall|k: int| 0 <= k < rows@.len() implies row_is(#[trigger] rows@[k]@, next[k]) by {
            if k < before.len() {
                assert(rows@[k] == before[k]);
            }
        }
        rs = next;
        assert(rs =~= spec);
    }
    assert(rows_are(rows@, spec));

    let lines = print_aligned_table(rows.as_slice(), " │ ");
    proof {
        let views = lines@.map_values(|s: String| s@);
        assert(views =~= summary_lines(rows@));
    }
    let mut mid = owned(VERTICAL);
    push_str(&mut mid, "    ");
    let mut bot = owned(LOWERLEFT);
    push_str(&mut bot, HORIZONTAL);
    push_str(&mut bot, " ");
    push_str(&mut bot, BIGSUM);
    push_str(&mut bot, " ");
    prepend_lines("━━━ ", mid.as_str(), bot.as_str(), &lines)
}

// ---------------------------------------------------------------------
// Laws
// ---------------------------------------------------------------------

/// Every host at work is named once among the distinct hosts.
pub proof fn lemma_distinct_hosts_each_once(hosts: Seq<Seq<char>>)
    ensures
        distinct_texts(hosts).no_duplicates(),
        forall|i: int| 0 <= i < hosts.len() ==> distinct_texts(hosts).contains(#[trigger] hosts[i]),
        forall|h: Seq<char>| distinct_texts(hosts).contains(h) ==> hosts.contains(h),
    decreases hosts.len(),
{
    if hosts.len() > 0 {
        let prev = hosts.drop_last();
        lemma_distinct_hosts_each_once(prev);
        let d = distinct_texts(hosts);
        let dp = distinct_texts(prev);
        let x = hosts.last();
        if !dp.contains(x) {
            assert forall|i: int, j: int| 0 <= i < d.len() && 0 <= j < d.len() && i != j implies d[i]
                != d[j] by {
                if i < dp.len() && j < dp.len() {
                } else if i == dp.len() {
                    assert(d[j] == dp[j]);
                } else {
                    assert(d[i] == dp[i]);
                }
            }
            assert(d[dp.len() as int] == x);
        }
        assert forall|i: int| 0 <= i < hosts.len() implies d.contains(#[trigger] hosts[i]) by {
            if i < prev.len() {
                assert(prev[i] == hosts[i]);
                assert(dp.contains(prev[i]));
                if !dp.contains(x) {
                    let k = choose|k: int| 0 <= k < dp.len() && dp[k] == prev[i];
                    assert(d[k] == prev[i]);
                }
            } else {
                if !dp.contains(x) {
                    assert(d[dp.len() as int] == x);
                }
            }
        }
        assert forall|h: Seq<char>| d.contains(h) implies hosts.contains(h) by {
            let k = choose|k: int| 0 <= k < d.len() && d[k] == h;
            if k < dp.len() {
                assert(dp[k] == h);
                assert(dp.contains(h));
                assert(prev.contains(h));
                let j = choose|j: int| 0 <= j < prev.len() && prev[j] == h;
                assert(hosts[j] == h);
            } else {
                assert(hosts[hosts.len() - 1] == h);
            }
        }
    }
}

/// Where two or more distinct hosts are at work, each of them has exactly
/// one abbreviation, its own.
pub proof fn lemma_host_abbrevs_cover_hosts(hosts: Seq<Seq<char>>)
    requires
        distinct_texts(hosts).len() > 1,
    ensures
        host_abbrevs_of(hosts).len() == distinct_texts(hosts).len(),
        forall|i: int|
            0 <= i < hosts.len() ==> exists|k: int|
                0 <= k < host_abbrevs_of(hosts).len() && #[trigger] host_abbrevs_of(hosts)[k] == (
                    hosts[i],
                    host_abbrev_text(#[trigger] hosts[i]),
                ),
{
    lemma_distinct_hosts_each_once(hosts);
    let d = distinct_texts(hosts);
    assert forall|i: int| 0 <= i < hosts.len() implies exists|k: int|
        0 <= k < host_abbrevs_of(hosts).len() && #[trigger] host_abbrevs_of(hosts)[k] == (
            hosts[i],
            host_abbrev_text(#[trigger] hosts[i]),
        ) by {
        assert(d.contains(hosts[i]));
        let k = choose|k: int| 0 <= k < d.len() && d[k] == hosts[i];
        assert(host_abbrevs_of(hosts)[k] == (hosts[i], host_abbrev_text(hosts[i])));
    }
}

// ---------------------------------------------------------------------
// Rows of the dependency tree
// ---------------------------------------------------------------------

/// What a row of the dependency tree shows of a derivation. Durations are
/// whole seconds, present where they are shown (over a second); host texts
/// are as `format_hosts` and `format_single_host` write them.
#[derive(Clone, Debug, PartialEq)]
pub enum RowState {
    /// Outputs being downloaded, with the hosts, the time since the earliest
    /// download started and the progress text.
    Downloading { hosts: String, elapsed: Option<u64>, progress: String },
    /// Outputs being uploaded.
    Uploading { hosts: String, elapsed: Option<u64>, progress: String },
    /// Nothing known but a download in the plan.
    PlannedDownload,
    /// Outputs downloaded: the bytes and the hosts.
    Downloaded { bytes: usize, hosts: String },
    /// Outputs uploaded.
    Uploaded { bytes: usize, hosts: String },
    Unknown,
    Planned,
    /// Building on a host, in a phase, for a time with an estimate.
    Building { host: String, phase: Option<String>, elapsed: Option<(u64, Option<u64>)> },
    /// Failed on a host after a time, in a phase.
    Failed { host: String, fail_type: crate::types::FailType, duration: u64, phase: Option<String> },
    /// Built on a host, in a time.
    Built { host: String, duration: Option<u64> },
}

pub open spec fn part_when(parts: Seq<Seq<char>>, cond: bool, part: Seq<char>) -> Seq<Seq<char>> {
    if cond {
        parts.push(part)
    } else {
        parts
    }
}

pub open spec fn clock_text(secs: u64) -> Seq<char> {
    CLOCK@ + " "@ + duration_text(secs as nat)
}

/// A running transfer: its head, the hosts, the time and the progress.
pub open spec fn transfer_row(arrow: Seq<char>, name: Seq<char>, hosts: Seq<char>, elapsed: Option<u64>, progress: Seq<char>) -> Seq<char> {
    let p0 = seq![BOLD@ + YELLOW@ + arrow + " "@ + RUNNING@ + " "@ + name + RESET@];
    let p1 = part_when(p0, hosts.len() > 0, trim(hosts));
    let p2 = match elapsed {
        Some(s) => p1.push(clock_text(s)),
        None => p1,
    };
    let p3 = part_when(p2, progress.len() > 0, GREEN@ + trim(progress) + RESET@);
    joined(p3, " "@)
}

/// A finished transfer: its head and, in grey, the bytes and the hosts.
pub open spec fn transferred_row(arrow: Seq<char>, name: Seq<char>, bytes: usize, hosts: Seq<char>) -> Seq<char> {
    let head = GREEN@ + arrow + " "@ + DONE@ + " "@ + name + RESET@;
    let g1 = part_when(Seq::empty(), bytes > 0, bytes_text(bytes as nat));
    let g2 = part_when(g1, hosts.len() > 0, trim(hosts));
    if g2.len() > 0 {
        head + " "@ + GREY@ + joined(g2, " "@) + RESET@
    } else {
        head
    }
}

pub open spec fn phase_part(parts: Seq<Seq<char>>, phase: Option<String>, prefix: Seq<char>, suffix: Seq<char>) -> Seq<Seq<char>> {
    match phase {
        Some(p) => parts.push(prefix + p@ + suffix),
        None => parts,
    }
}

/// The text of a row without what it waits for.
pub open spec fn row_state_text(name: Seq<char>, st: RowState) -> Seq<char> {
    match st {
        RowState::Downloading { hosts, elapsed, progress } => transfer_row(DOWN@, name, hosts@, elapsed, progress@),
        RowState::Uploading { hosts, elapsed, progress } => transfer_row(UP@, name, hosts@, elapsed, progress@),
        RowState::PlannedDownload => BLUE@ + DOWN@ + " "@ + TODO@ + " "@ + name + RESET@,
        RowState::Downloaded { bytes, hosts } => transferred_row(DOWN@, name, bytes, hosts@),
        RowState::Uploaded { bytes, hosts } => transferred_row(UP@, name, bytes, hosts@),
        RowState::Unknown => name,
        RowState::Planned => BLUE@ + TODO@ + " "@ + name + RESET@,
        RowState::Building { host, phase, elapsed } => {
            let p0 = seq![BOLD@ + YELLOW@ + RUNNING@ + " "@ + name + RESET@];
            let p1 = part_when(p0, host@.len() > 0, trim(host@));
            let p2 = phase_part(p1, phase, BOLD@ + "("@, ")"@ + RESET@);
            let p3 = match elapsed {
                Some((d, Some(e))) => p2.push(clock_text(d) + " ("@ + AVERAGE@ + " "@ + duration_text(e as nat) + ")"@),
                Some((d, None)) => p2.push(clock_text(d)),
                None => p2,
            };
            joined(p3, " "@)
        },
        RowState::Failed { host, fail_type, duration, phase } => {
            let p0 = seq![WARNING@, name];
            let p1 = part_when(p0, host@.len() > 0, trim(host@));
            let p2 = p1 + seq![
                "failed with"@,
                crate::types::fail_type_text(fail_type),
                "after"@,
                CLOCK@,
                duration_text(duration as nat),
            ];
            let p3 = phase_part(p2, phase, "in "@, Seq::empty());
            BOLD@ + RED@ + joined(p3, " "@) + RESET@
        },
        RowState::Built { host, duration } => {
            let head = GREEN@ + DONE@ + " "@ + name + RESET@;
            let e1 = part_when(Seq::empty(), host@.len() > 0, trim(host@));
            let e2 = match duration {
                Some(d) => e1.push(clock_text(d)),
                None => e1,
            };
            if e2.len() > 0 {
                head + " "@ + GREY@ + joined(e2, " "@) + RESET@
            } else {
                head
            }
        },
    }
}

/// How a row of the dependency tree begins: the mark of the derivation's
/// state in its colors, then the derivation's name.
pub open spec fn row_head(name: Seq<char>, st: RowState) -> Seq<char> {
    match st {
        RowState::Downloading { .. } => BOLD@ + YELLOW@ + DOWN@ + " "@ + RUNNING@ + " "@ + name + RESET@,
        RowState::Uploading { .. } => BOLD@ + YELLOW@ + UP@ + " "@ + RUNNING@ + " "@ + name + RESET@,
        RowState::PlannedDownload => BLUE@ + DOWN@ + " "@ + TODO@ + " "@ + name + RESET@,
        RowState::Downloaded { .. } => GREEN@ + DOWN@ + " "@ + DONE@ + " "@ + name + RESET@,
        RowState::Uploaded { .. } => GREEN@ + UP@ + " "@ + DONE@ + " "@ + name + RESET@,
        RowState::Unknown => name,
        RowState::Planned => BLUE@ + TODO@ + " "@ + name + RESET@,
        RowState::Building { .. } => BOLD@ + YELLOW@ + RUNNING@ + " "@ + name + RESET@,
        RowState::Failed { .. } => BOLD@ + RED@ + WARNING@ + " "@ + name,
        RowState::Built { .. } => GREEN@ + DONE@ + " "@ + name + RESET@,
    }
}

proof fn lemma_starts_with_append(s: Seq<char>, p: Seq<char>, t: Seq<char>)
    requires
        starts_with(s, p),
    ensures
        starts_with(s + t, p),
{
    assert((s + t).subrange(0, p.len() as int) =~= s.subrange(0, p.len() as int));
}

proof fn lemma_joined_prefix(parts: Seq<Seq<char>>, sep: Seq<char>, k: int)
    requires
        1 <= k <= parts.len(),
    ensures
        starts_with(joined(parts, sep), joined(parts.take(k), sep)),
    decreases parts.len(),
{
    if k == parts.len() {
        assert(parts.take(k) =~= parts);
        assert(joined(parts, sep).subrange(0, joined(parts, sep).len() as int) =~= joined(parts, sep));
    } else {
        let d = parts.drop_last();
        lemma_joined_prefix(d, sep, k);
        assert(d.take(k) =~= parts.take(k));
        lemma_starts_with_append(joined(d, sep), joined(parts.take(k), sep), sep);
        lemma_starts_with_append(joined(d, sep) + sep, joined(parts.take(k), sep), parts.last());
    }
}

proof fn lemma_starts_with_self(s: Seq<char>)
    ensures
        starts_with(s, s),
{
    assert(s.subrange(0, s.len() as int) =~= s);
}

/// Every row of the dependency tree begins with the mark of the
/// derivation's state and its name (see [`row_head`]); the row of a failed
/// build shown without a host goes on to say that it failed, and how.
pub proof fn lemma_rows_begin_with_mark_and_name(name: Seq<char>, st: RowState)
    ensures
        starts_with(row_state_text(name, st), row_head(name, st)),
        st matches RowState::Failed { host, fail_type, .. } ==> (host@.len() == 0 ==> starts_with(
            row_state_text(name, st),
            BOLD@ + RED@ + WARNING@ + " "@ + name + " "@ + "failed with"@ + " "@ + crate::types::fail_type_text(fail_type),
        )),
{
    let t = row_state_text(name, st);
    match st {
        RowState::Downloading { hosts, elapsed, progress } => {
            transfer_head(DOWN@, name, hosts@, elapsed, progress@);
        },
        RowState::Uploading { hosts, elapsed, progress } => {
            transfer_head(UP@, name, hosts@, elapsed, progress@);
        },
        RowState::Downloaded { bytes, hosts } => {
            transferred_head(DOWN@, name, bytes, hosts@);
        },
        RowState::Uploaded { bytes, hosts } => {
            transferred_head(UP@, name, bytes, hosts@);
        },
        RowState::Building { host, phase, elapsed } => {
            let p0 = seq![BOLD@ + YELLOW@ + RUNNING@ + " "@ + name + RESET@];
            let p1 = part_when(p0, host@.len() > 0, trim(host@));
            let p2 = phase_part(p1, phase, BOLD@ + "("@, ")"@ + RESET@);
            let p3 = match elapsed {
                Some((d, Some(e))) => p2.push(clock_text(d) + " ("@ + AVERAGE@ + " "@ + duration_text(e as nat) + ")"@),
                Some((d, None)) => p2.push(clock_text(d)),
                None => p2,
            };
            assert(p3[0] == p0[0]);
            lemma_joined_prefix(p3, " "@, 1);
            assert(p3.take(1).drop_last() =~= Seq::<Seq<char>>::empty());
            assert(joined(p3.take(1), " "@) == p0[0]);
            assert(p0[0] =~= row_head(name, st));
        },
        RowState::Failed { host, fail_type, duration, phase } => {
            let p0 = seq![WARNING@, name];
            let p1 = part_when(p0, host@.len() > 0, trim(host@));
            let p2 = p1 + seq![
                "failed with"@,
                crate::types::fail_type_text(fail_type),
                "after"@,
                CLOCK@,
                duration_text(duration as nat),
            ];
            let p3 = phase_part(p2, phase, "in "@, Seq::empty());
            let j = joined(p3, " "@);
            assert(p3[0] == WARNING@ && p3[1] == name);
            lemma_joined_prefix(p3, " "@, 2);
            let q2 = p3.take(2);
            assert(q2.drop_last() =~= seq![WARNING@]);
            assert(joined(seq![WARNING@], " "@) == WARNING@);
            assert(q2.last() == name);
            assert(joined(q2, " "@) == joined(q2.drop_last(), " "@) + " "@ + q2.last());
            assert(joined(p3.take(2), " "@) == WARNING@ + " "@ + name);
            let pre = BOLD@ + RED@;
            assert(t == pre + j + RESET@);
            assert(starts_with(pre + j, pre + (WARNING@ + " "@ + name))) by {
                assert((pre + j).subrange(0, (pre.len() + (WARNING@ + " "@ + name).len()) as int) =~= pre + j.subrange(0, (WARNING@ + " "@ + name).len() as int));
            }
            lemma_starts_with_append(pre + j, pre + (WARNING@ + " "@ + name), RESET@);
            assert(pre + (WARNING@ + " "@ + name) =~= row_head(name, st));
            if host@.len() == 0 {
                assert(p3[2] == "failed with"@ && p3[3] == crate::types::fail_type_text(fail_type));
                lemma_joined_prefix(p3, " "@, 4);
                let q = p3.take(4);
                assert(q.drop_last() =~= p3.take(3));
                assert(p3.take(3).drop_last() =~= p3.take(2));
                let long = WARNING@ + " "@ + name + " "@ + "failed with"@ + " "@ + crate::types::fail_type_text(fail_type);
                let q3 = p3.take(3);
                assert(q3.last() == "failed with"@);
                assert(joined(q3, " "@) == joined(q3.drop_last(), " "@) + " "@ + q3.last());
                assert(q.last() == crate::types::fail_type_text(fail_type));
                assert(joined(q, " "@) == joined(q.drop_last(), " "@) + " "@ + q.last());
                assert(joined(q, " "@) =~= long);
                assert((pre + j).subrange(0, (pre.len() + long.len()) as int) =~= pre + j.subrange(0, long.len() as int));
                lemma_starts_with_append(pre + j, pre + long, RESET@);
                assert(pre + long =~= BOLD@ + RED@ + WARNING@ + " "@ + name + " "@ + "failed with"@ + " "@ + crate::types::fail_type_text(fail_type));
            }
        },
        RowState::Built { host, duration } => {
            let head = GREEN@ + DONE@ + " "@ + name + RESET@;
            lemma_starts_with_self(head);
            lemma_starts_with_append(head, head, " "@);
            let e1 = part_when(Seq::empty(), host@.len() > 0, trim(host@));
            let e2 = match duration {
                Some(d) => e1.push(clock_text(d)),
                None => e1,
            };
            lemma_starts_with_append(head + " "@, head, GREY@);
            lemma_starts_with_append(head + " "@ + GREY@, head, joined(e2, " "@));
            lemma_starts_with_append(head + " "@ + GREY@ + joined(e2, " "@), head, RESET@);
        },
        _ => {
            lemma_starts_with_self(t);
        },
    }
}

proof fn transfer_head(arrow: Seq<char>, name: Seq<char>, hosts: Seq<char>, elapsed: Option<u64>, progress: Seq<char>)
    ensures
        starts_with(transfer_row(arrow, name, hosts, elapsed, progress), BOLD@ + YELLOW@ + arrow + " "@ + RUNNING@ + " "@ + name + RESET@),
{
    let p0 = seq![BOLD@ + YELLOW@ + arrow + " "@ + RUNNING@ + " "@ + name + RESET@];
    let p1 = part_when(p0, hosts.len() > 0, trim(hosts));
    let p2 = match elapsed {
        Some(s) => p1.push(clock_text(s)),
        None => p1,
    };
    let p3 = part_when(p2, progress.len() > 0, GREEN@ + trim(progress) + RESET@);
    assert(p3[0] == p0[0]);
    lemma_joined_prefix(p3, " "@, 1);
    assert(p3.take(1).drop_last() =~= Seq::<Seq<char>>::empty());
    assert(joined(p3.take(1), " "@) == p0[0]);
}

proof fn transferred_head(arrow: Seq<char>, name: Seq<char>, bytes: usize, hosts: Seq<char>)
    ensures
        starts_with(transferred_row(arrow, name, bytes, hosts), GREEN@ + arrow + " "@ + DONE@ + " "@ + name + RESET@),
{
    let head = GREEN@ + arrow + " "@ + DONE@ + " "@ + name + RESET@;
    let g1 = part_when(Seq::empty(), bytes > 0, bytes_text(bytes as nat));
    let g2 = part_when(g1, hosts.len() > 0, trim(hosts));
    lemma_starts_with_self(head);
    lemma_starts_with_append(head, head, " "@);
    lemma_starts_with_append(head + " "@, head, GREY@);
    lemma_starts_with_append(head + " "@ + GREY@, head, joined(g2, " "@));
    lemma_starts_with_append(head + " "@ + GREY@ + joined(g2, " "@), head, RESET@);
}

/// A row of the dependency tree: the derivation's state and, for a planned
/// leaf, what it waits for.
pub open spec fn tree_row_text(name: Seq<char>, st: RowState, waiting: Option<DependencyCounts>) -> Seq<char> {
    let tail = match waiting {
        Some(c) => {
            let s = joined(dependency_parts(c), " "@);
            if s.len() > 0 {
                " "@ + GREY@ + " waiting for "@ + s + RESET@
            } else {
                Seq::empty()
            }
        },
        None => Seq::empty(),
    };
    row_state_text(name, st) + tail
}

/// 1 for a count above zero, else 0.
pub open spec fn nonzero(n: usize) -> int {
    if n > 0 {
        1
    } else {
        0
    }
}

/// A row begins as the derivation's state shows it (see
/// [`lemma_rows_begin_with_mark_and_name`]), and what it waits for only
/// follows it: a part for each kind of build or transfer it waits for, the
/// failed ones first, and nothing at all where it waits for nothing.
pub proof fn lemma_waiting_follows_the_row(name: Seq<char>, st: RowState, waiting: Option<DependencyCounts>)
    ensures
        starts_with(tree_row_text(name, st, waiting), row_state_text(name, st)),
        starts_with(tree_row_text(name, st, waiting), row_head(name, st)),
        waiting is None ==> tree_row_text(name, st, waiting) == row_state_text(name, st),
        waiting matches Some(c) ==> {
            &&& dependency_parts(c).len() == nonzero(c.failed_builds) + nonzero(c.running_builds) + nonzero(c.planned_builds)
                + nonzero(c.running_uploads) + nonzero(c.running_downloads) + nonzero(c.planned_downloads)
            &&& c.failed_builds > 0 ==> dependency_parts(c)[0] == count_part(RED, c.failed_builds, WARNING@)
            &&& dependency_parts(c).len() == 0 ==> tree_row_text(name, st, waiting) == row_state_text(name, st)
        },
{
    let t = row_state_text(name, st);
    let w = tree_row_text(name, st, waiting);
    lemma_starts_with_self(t);
    let tail = w.subrange(t.len() as int, w.len() as int);
    assert(w =~= t + tail);
    lemma_starts_with_append(t, t, tail);
    lemma_rows_begin_with_mark_and_name(name, st);
    let h = row_head(name, st);
    assert(w.subrange(0, h.len() as int) =~= t.subrange(0, h.len() as int));
    if let Some(c) = waiting {
        if dependency_parts(c).len() == 0 {
            assert(dependency_parts(c) =~= Seq::<Seq<char>>::empty());
            assert(joined(dependency_parts(c), " "@) == Seq::<char>::empty());
            assert(w =~= t);
        }
    } else {
        assert(w =~= t);
    }
}

fn trimmed_string(s: &String) -> (r: String)
    ensures
        r@ == trim(s@),
{
    let cs = chars_of(s.as_str());
    let t = crate::text::trimmed(&cs);
    let r = string_of(&t, 0, t.len());
    assert(t@.subrange(0, t@.len() as int) =~= t@);
    r
}

fn push_part(parts: &mut Vec<String>, p: String)
    ensures
        string_views(final(parts)@) == string_views(old(parts)@).push(p@),
{
    parts.push(p);
    assert(string_views(final(parts)@) =~= string_views(old(parts)@).push(p@));
}

fn clock_string(secs: u64) -> (r: String)
    ensures
        r@ == clock_text(secs),
{
    let mut c = owned(CLOCK);
    push_str(&mut c, " ");
    let d = format_duration_secs(secs);
    push_str(&mut c, d.as_str());
    c
}

fn transfer_row_exec(arrow: &str, name: &str, hosts: &String, elapsed: Option<u64>, progress: &String) -> (r: String)
    ensures
        r@ == transfer_row(arrow@, name@, hosts@, elapsed, progress@),
{
    let mut parts: Vec<String> = Vec::new();
    let mut head = owned(BOLD);
    push_str(&mut head, YELLOW);
    push_str(&mut head, arrow);
    push_str(&mut head, " ");
    push_str(&mut head, RUNNING);
    push_str(&mut head, " ");
    push_str(&mut head, name);
    push_str(&mut head, RESET);
    push_part(&mut parts, head);
    assert(string_views(parts@) =~= seq![BOLD@ + YELLOW@ + arrow@ + " "@ + RUNNING@ + " "@ + name@ + RESET@]);
    if !hosts.as_str().is_empty() {
        push_part(&mut parts, trimmed_string(hosts));
    }
    match elapsed {
        Some(s) => push_part(&mut parts, clock_string(s)),
        None => {},
    }
    if !progress.as_str().is_empty() {
        let mut p = owned(GREEN);
        let t = trimmed_string(progress);
        push_str(&mut p, t.as_str());
        push_str(&mut p, RESET);
        push_part(&mut parts, p);
    }
    proof {
        reveal_strlit("");
    }
    join_strings(&parts, " ")
}

fn transferred_row_exec(arrow: &str, name: &str, bytes: usize, hosts: &String) -> (r: String)
    ensures
        r@ == transferred_row(arrow@, name@, bytes, hosts@),
{
    let mut head = owned(GREEN);
    push_str(&mut head, arrow);
    push_str(&mut head, " ");
    push_str(&mut head, DONE);
    push_str(&mut head, " ");
    push_str(&mut head, name);
    push_str(&mut head, RESET);
    let mut grey: Vec<String> = Vec::new();
    if bytes > 0 {
        push_part(&mut grey, print_bytes(bytes));
    }
    if !hosts.as_str().is_empty() {
        push_part(&mut grey, trimmed_string(hosts));
    }
    assert(string_views(grey@) =~= part_when(
        part_when(Seq::empty(), bytes > 0, bytes_text(bytes as nat)),
        hosts@.len() > 0,
        trim(hosts@),
    ));
    if grey.len() > 0 {
        push_str(&mut head, " ");
        push_str(&mut head, GREY);
        let g = join_strings(&grey, " ");
        push_str(&mut head, g.as_str());
        push_str(&mut head, RESET);
    }
    head
}

fn push_phase(parts: &mut Vec<String>, phase: &Option<String>, prefix: &str, suffix: &str)
    ensures
        string_views(final(parts)@) == phase_part(string_views(old(parts)@), *phase, prefix@, suffix@),
{
    match phase {
        Some(p) => {
            let mut t = owned(prefix);
            push_str(&mut t, p.as_str());
            push_str(&mut t, suffix);
            push_part(parts, t);
        },
        None => {},
    }
}

fn row_state_exec(name: &str, st: &RowState) -> (r: String)
    ensures
        r@ == row_state_text(name@, *st),
{
    match st {
        RowState::Downloading { hosts, elapsed, progress } => transfer_row_exec(DOWN, name, hosts, *elapsed, progress),
        RowState::Uploading { hosts, elapsed, progress } => transfer_row_exec(UP, name, hosts, *elapsed, progress),
        RowState::PlannedDownload => {
            let mut t = owned(BLUE);
            push_str(&mut t, DOWN);
            push_str(&mut t, " ");
            push_str(&mut t, TODO);
            push_str(&mut t, " ");
            push_str(&mut t, name);
            push_str(&mut t, RESET);
            t
        },
        RowState::Downloaded { bytes, hosts } => transferred_row_exec(DOWN, name, *bytes, hosts),
        RowState::Uploaded { bytes, hosts } => transferred_row_exec(UP, name, *bytes, hosts),
        RowState::Unknown => owned(name),
        RowState::Planned => {
            let mut t = owned(BLUE);
            push_str(&mut t, TODO);
            push_str(&mut t, " ");
            push_str(&mut t, name);
            push_str(&mut t, RESET);
            t
        },
        RowState::Building { host, phase, elapsed } => {
            let mut parts: Vec<String> = Vec::new();
            let mut head = owned(BOLD);
            push_str(&mut head, YELLOW);
            push_str(&mut head, RUNNING);
            push_str(&mut head, " ");
            push_str(&mut head, name);
            push_str(&mut head, RESET);
            push_part(&mut parts, head);
            assert(string_views(parts@) =~= seq![BOLD@ + YELLOW@ + RUNNING@ + " "@ + name@ + RESET@]);
            if !host.as_str().is_empty() {
                push_part(&mut parts, trimmed_string(host));
            }
            let mut open = owned(BOLD);
            push_str(&mut open, "(");
            let mut close = owned(")");
            push_str(&mut close, RESET);
            push_phase(&mut parts, phase, open.as_str(), close.as_str());
            match elapsed {
                Some((d, est)) => {
                    let mut c = clock_string(*d);
                    match est {
                        Some(e) => {
                            push_str(&mut c, " (");
                            push_str(&mut c, AVERAGE);
                            push_str(&mut c, " ");
                            let es = format_duration_secs(*e);
                            push_str(&mut c, es.as_str());
                            push_str(&mut c, ")");
                        },
                        None => {},
                    }
                    push_part(&mut parts, c);
                },
                None => {},
            }
            join_strings(&parts, " ")
        },
        RowState::Failed { host, fail_type, duration, phase } => {
            let mut parts: Vec<String> = Vec::new();
            push_part(&mut parts, owned(WARNING));
            push_part(&mut parts, owned(name));
            assert(string_views(parts@) =~= seq![WARNING@, name@]);
            if !host.as_str().is_empty() {
                push_part(&mut parts, trimmed_string(host));
            }
            let ghost before = string_views(parts@);
            push_part(&mut parts, owned("failed with"));
            push_part(&mut parts, fail_type.to_display_string());
            push_part(&mut parts, owned("after"));
            push_part(&mut parts, owned(CLOCK));
            push_part(&mut parts, format_duration_secs(*duration));
            assert(string_views(parts@) =~= before + seq![
                "failed with"@,
                crate::types::fail_type_text(*fail_type),
                "after"@,
                CLOCK@,
                duration_text(*duration as nat),
            ]);
            push_phase(&mut parts, phase, "in ", "");
            proof {
                reveal_strlit("");
            }
            let mut t = owned(BOLD);
            push_str(&mut t, RED);
            let j = join_strings(&parts, " ");
            push_str(&mut t, j.as_str());
            push_str(&mut t, RESET);
            t
        },
        RowState::Built { host, duration } => {
            let mut head = owned(GREEN);
            push_str(&mut head, DONE);
            push_str(&mut head, " ");
            push_str(&mut head, name);
            push_str(&mut head, RESET);
            let mut extra: Vec<String> = Vec::new();
            if !host.as_str().is_empty() {
                push_part(&mut extra, trimmed_string(host));
            }
            match duration {
                Some(d) => push_part(&mut extra, clock_string(*d)),
                None => {},
            }
            assert(string_views(extra@).len() > 0 ==> string_views(extra@).len() == extra@.len());
            if extra.len() > 0 {
                push_str(&mut head, " ");
                push_str(&mut head, GREY);
                let j = join_strings(&extra, " ");
                push_str(&mut head, j.as_str());
                push_str(&mut head, RESET);
            }
            proof {
                let e1 = part_when(Seq::empty(), host@.len() > 0, trim(host@));
                assert(string_views(extra@) =~= match duration {
                    Some(d) => e1.push(clock_text(*d)),
                    None => e1,
                });
            }
            head
        },
    }
}

/// A row of the dependency tree for a derivation named `name` in state
/// `st`; `waiting`, for a planned leaf, are the counts of what it waits for.
pub fn derivation_row_text(name: &str, st: &RowState, waiting: Option<DependencyCounts>) -> (r: String)
    ensures
        r@ == tree_row_text(name@, *st, waiting),
{
    let mut row = row_state_exec(name, st);
    match waiting {
        Some(c) => {
            let s = format_dependency_summary(&c);
            if !s.as_str().is_empty() {
                push_str(&mut row, " ");
                push_str(&mut row, GREY);
                push_str(&mut row, " waiting for ");
                push_str(&mut row, s.as_str());
                push_str(&mut row, RESET);
            }
        },
        None => {},
    }
    row
}


/// The title of the dependency graph.
pub open spec fn graph_title() -> Seq<char> {
    RESET@ + BOLD@ + BLUE@ + "Dependency Graph"@ + RESET@
}

/// The heading of the dependency graph: its title, then, where there are
/// several roots, how many it shows.
pub open spec fn graph_header(num_raw_roots: nat, num_roots: nat) -> Seq<char> {
    let inner = if num_raw_roots <= 1 {
        graph_title()
    } else if num_raw_roots == num_roots {
        graph_title() + " with "@ + decimal(num_roots) + " roots"@
    } else {
        graph_title() + " showing "@ + decimal(num_roots) + " of "@ + decimal(num_raw_roots) + " roots"@
    };
    " "@ + inner + ":"@
}

/// The dependency graph section: the heading, then the rows of the tree,
/// framed.
pub open spec fn builds_text(rows: Seq<Seq<char>>, num_raw_roots: nat, num_roots: nat) -> Seq<char> {
    prepended_text(HORIZONTAL@, VERTICAL@ + " "@, VERTICAL@ + " "@, seq![graph_header(num_raw_roots, num_roots)] + rows)
}

/// The dependency graph section for the rows of the shown tree, which has
/// `num_roots` of the `num_raw_roots` roots.
pub fn render_builds(rows: &Vec<String>, num_raw_roots: usize, num_roots: usize) -> (r: String)
    ensures
        r@ == builds_text(string_views(rows@), num_raw_roots as nat, num_roots as nat),
{
    let mut head = owned(" ");
    push_str(&mut head, RESET);
    push_str(&mut head, BOLD);
    push_str(&mut head, BLUE);
    push_str(&mut head, "Dependency Graph");
    push_str(&mut head, RESET);
    if num_raw_roots <= 1 {
    } else if num_raw_roots == num_roots {
        push_str(&mut head, " with ");
        push_decimal(&mut head, num_roots as u64);
        push_str(&mut head, " roots");
    } else {
        push_str(&mut head, " showing ");
        push_decimal(&mut head, num_roots as u64);
        push_str(&mut head, " of ");
        push_decimal(&mut head, num_raw_roots as u64);
        push_str(&mut head, " roots");
    }
    push_str(&mut head, ":");
    proof {
        let t = graph_title();
        if num_raw_roots <= 1 {
            assert(head@ =~= " "@ + t + ":"@);
        } else if num_raw_roots == num_roots {
            assert(head@ =~= " "@ + (t + " with "@ + decimal(num_roots as nat) + " roots"@) + ":"@);
        } else {
            assert(head@ =~= " "@ + (t + " showing "@ + decimal(num_roots as nat) + " of "@ + decimal(num_raw_roots as nat) + " roots"@) + ":"@);
        }
    }
    let mut lines: Vec<String> = Vec::new();
    lines.push(head);
    let mut i: usize = 0;
    while i < rows.len()
        invariant
            i <= rows.len(),
            string_views(lines@) == seq![graph_header(num_raw_roots as nat, num_roots as nat)] + string_views(rows@.take(i as int)),
        decreases rows.len() - i,
    {
        let ghost before = lines@;
        let row = rows[i].clone();
        assert(row@ == rows@[i as int]@);
        lines.push(row);
        proof {
            assert(rows@.take(i + 1) =~= rows@.take(i as int).push(rows@[i as int]));
            assert(string_views(lines@) =~= string_views(before).push(row@));
            assert(string_views(rows@.take(i + 1)) =~= string_views(rows@.take(i as int)).push(row@));
            assert(string_views(lines@) =~= seq![graph_header(num_raw_roots as nat, num_roots as nat)] + string_views(rows@.take(i + 1)));
        }
        i += 1;
    }
    assert(rows@.take(rows@.len() as int) =~= rows@);
    let mut bar = owned(VERTICAL);
    push_str(&mut bar, " ");
    let r = prepend_lines(HORIZONTAL, bar.as_str(), bar.as_str(), &lines);
    proof {
        assert(lines@.map_values(|s: String| s@) =~= string_views(lines@));
    }
    r
}

/// A derivation's name, followed by its platform where that differs from
/// the platform of the machine that builds.
pub open spec fn platform_name(name: Seq<char>, build_platform: Option<Seq<char>>, platform: Option<Seq<char>>) -> Seq<char> {
    match (build_platform, platform) {
        (Some(p1), Some(p2)) => if p1 != p2 {
            name + "-"@ + p2
        } else {
            name
        },
        _ => name,
    }
}

/// The name under which a derivation is shown.
pub fn format_differing_platform(name: &str, build_platform: &Option<String>, platform: &Option<String>) -> (r: String)
    ensures
        r@ == platform_name(
            name@,
            match build_platform {
                Some(p) => Some(p@),
                None => None,
            },
            match platform {
                Some(p) => Some(p@),
                None => None,
            },
        ),
{
    let mut r = owned(name);
    match (build_platform, platform) {
        (Some(p1), Some(p2)) => {
            if !str_eq(p1.as_str(), p2.as_str()) {
                push_str(&mut r, "-");
                push_str(&mut r, p2.as_str());
            }
        },
        _ => {},
    }
    r
}


/// The display's sections joined: the first led by the upper corner, each
/// other on a new line led by the left tee.
pub open spec fn sections_text(sections: Seq<Seq<char>>) -> Seq<char>
    decreases sections.len(),
{
    if sections.len() == 0 {
        Seq::empty()
    } else if sections.len() == 1 {
        UPPERLEFT@ + sections[0]
    } else {
        sections_text(sections.drop_last()) + "\n"@ + RESET@ + LEFT_T@ + sections.last()
    }
}

/// The whole display from its sections, fitted to the window.
pub fn assemble_sections(sections: &Vec<String>, width: usize, height: usize) -> (r: String)
    ensures
        r@ == window_text(RESET@ + sections_text(string_views(sections@)), width, height),
{
    let ghost views = string_views(sections@);
    let mut out = owned(RESET);
    let mut i: usize = 0;
    while i < sections.len()
        invariant
            i <= sections.len(),
            views == string_views(sections@),
            out@ == RESET@ + sections_text(views.take(i as int)),
        decreases sections.len() - i,
    {
        if i == 0 {
            push_str(&mut out, UPPERLEFT);
        } else {
            push_str(&mut out, "\n");
            push_str(&mut out, RESET);
            push_str(&mut out, LEFT_T);
        }
        push_str(&mut out, sections[i].as_str());
        proof {
            let t = views.take(i + 1);
            assert(t.drop_last() =~= views.take(i as int));
            assert(t.last() == sections@[i as int]@);
            if i == 0 {
                assert(views.take(0) =~= Seq::<Seq<char>>::empty());
                assert(out@ =~= RESET@ + (UPPERLEFT@ + sections@[0]@));
            } else {
                assert(out@ =~= RESET@ + (sections_text(views.take(i as int)) + "\n"@ + RESET@ + LEFT_T@ + sections@[i as int]@));
            }
        }
        i += 1;
    }
    assert(views.take(sections@.len() as int) =~= views);
    truncate_output_to_window(out.as_str(), width, height)
}

/// The line shown while nix has said nothing yet, `secs` seconds in; after
/// the first quarter minute it asks whether the input was redirected.
pub open spec fn waiting_text(secs: nat, long: bool) -> Seq<char> {
    let time = CLOCK@ + " "@ + duration_text(secs);
    if long {
        BOLD@ + time + RESET@ + GREY@
            + " nom hasn‘t detected any input. Have you redirected nix-build stderr into nom? (See -h and the README for details.)"@
            + RESET@
    } else {
        BOLD@ + time + RESET@
    }
}

/// The line shown while nix has said nothing yet; `long` says whether the
/// wait has passed a quarter minute.
pub fn waiting_line(secs: u64, long: bool) -> (r: String)
    ensures
        r@ == waiting_text(secs as nat, long),
{
    let mut out = owned(BOLD);
    push_str(&mut out, CLOCK);
    push_str(&mut out, " ");
    push_str(&mut out, format_duration_secs(secs).as_str());
    push_str(&mut out, RESET);
    if long {
        push_str(&mut out, GREY);
        push_str(&mut out, " nom hasn‘t detected any input. Have you redirected nix-build stderr into nom? (See -h and the README for details.)");
        push_str(&mut out, RESET);
    }
    out
}

/// The line shown when there is nothing else to show, `secs` seconds in.
pub open spec fn idle_text(secs: nat) -> Seq<char> {
    BOLD@ + CLOCK@ + " "@ + duration_text(secs) + RESET@
}

pub fn idle_line(secs: u64) -> (r: String)
    ensures
        r@ == idle_text(secs as nat),
{
    let mut out = owned(BOLD);
    push_str(&mut out, CLOCK);
    push_str(&mut out, " ");
    push_str(&mut out, format_duration_secs(secs).as_str());
    push_str(&mut out, RESET);
    out
}


/// The last cell of the summary table: while the build runs, the time it
/// has taken; once it is over, how it ended, at what local time and after
/// how long — with build failures, with errors from nix, or fine.
pub open spec fn status_text(finished: bool, failed_builds: nat, nix_errors: nat, local_time: Seq<char>, secs: nat) -> Seq<char> {
    let dur = duration_text(secs);
    if !finished {
        CLOCK@ + " "@ + dur
    } else if failed_builds > 0 {
        BOLD@ + RED@ + WARNING@ + " Exited after "@ + decimal(failed_builds) + " build failures at "@ + local_time + " after "@
            + dur + RESET@
    } else if nix_errors > 0 {
        BOLD@ + RED@ + WARNING@ + " Exited with "@ + decimal(nix_errors) + " errors reported by nix at "@ + local_time
            + " after "@ + dur + RESET@
    } else {
        BOLD@ + GREEN@ + DONE@ + " Finished at "@ + local_time + " after "@ + dur + RESET@
    }
}

pub fn status_line(finished: bool, failed_builds: usize, nix_errors: usize, local_time: &str, secs: u64) -> (r: String)
    ensures
        r@ == status_text(finished, failed_builds as nat, nix_errors as nat, local_time@, secs as nat),
{
    let dur = format_duration_secs(secs);
    if !finished {
        let mut out = owned(CLOCK);
        push_str(&mut out, " ");
        push_str(&mut out, dur.as_str());
        return out;
    }
    let mut out = owned(BOLD);
    if failed_builds > 0 {
        push_str(&mut out, RED);
        push_str(&mut out, WARNING);
        push_str(&mut out, " Exited after ");
        push_decimal(&mut out, failed_builds as u64);
        push_str(&mut out, " build failures at ");
    } else if nix_errors > 0 {
        push_str(&mut out, RED);
        push_str(&mut out, WARNING);
        push_str(&mut out, " Exited with ");
        push_decimal(&mut out, nix_errors as u64);
        push_str(&mut out, " errors reported by nix at ");
    } else {
        push_str(&mut out, GREEN);
        push_str(&mut out, DONE);
        push_str(&mut out, " Finished at ");
    }
    push_str(&mut out, local_time);
    push_str(&mut out, " after ");
    push_str(&mut out, dur.as_str());
    push_str(&mut out, RESET);
    out
}


/// The state of a derivation's build, without its details.
#[derive(Clone, Copy, Debug, PartialEq, Eq, Structural)]
pub enum StatusKind {
    Unknown,
    Planned,
    Building,
    Failed,
    Built,
}

/// Which kind of row a derivation gets.
#[derive(Clone, Copy, Debug, PartialEq, Eq, Structural)]
pub enum RowKind {
    Downloading,
    Uploading,
    PlannedDownload,
    Downloaded,
    Uploaded,
    Unknown,
    Planned,
    Building,
    Failed,
    Built,
}

/// What the transfers of a derivation's outputs are: whether any is being
/// downloaded, uploaded, planned to be downloaded, or done either way.
#[derive(Clone, Copy, Debug, PartialEq, Eq, Structural)]
pub struct OutputTransfers {
    pub running_download: bool,
    pub running_upload: bool,
    pub planned_download: bool,
    pub completed_download: bool,
    pub completed_upload: bool,
}

/// A running download comes first, then a running upload; else the build's
/// state decides, and for an unknown build the transfers planned or done.
pub open spec fn row_kind_of(status: StatusKind, t: OutputTransfers) -> RowKind {
    if t.running_download {
        RowKind::Downloading
    } else if t.running_upload {
        RowKind::Uploading
    } else {
        match status {
            StatusKind::Unknown => if t.planned_download {
                RowKind::PlannedDownload
            } else if t.completed_download {
                RowKind::Downloaded
            } else if t.completed_upload {
                RowKind::Uploaded
            } else {
                RowKind::Unknown
            },
            StatusKind::Planned => RowKind::Planned,
            StatusKind::Building => RowKind::Building,
            StatusKind::Failed => RowKind::Failed,
            StatusKind::Built => RowKind::Built,
        }
    }
}

/// Decides the kind of a derivation's row.
pub fn row_kind(status: StatusKind, t: OutputTransfers) -> (r: RowKind)
    ensures
        r == row_kind_of(status, t),
{
    if t.running_download {
        RowKind::Downloading
    } else if t.running_upload {
        RowKind::Uploading
    } else {
        match status {
            StatusKind::Unknown => if t.planned_download {
                RowKind::PlannedDownload
            } else if t.completed_download {
                RowKind::Downloaded
            } else if t.completed_upload {
                RowKind::Uploaded
            } else {
                RowKind::Unknown
            },
            StatusKind::Planned => RowKind::Planned,
            StatusKind::Building => RowKind::Building,
            StatusKind::Failed => RowKind::Failed,
            StatusKind::Built => RowKind::Built,
        }
    }
}

/// A running transfer of an output decides a derivation's row, a download
/// before an upload. Otherwise a known build state shows as itself: the row
/// is a failure row exactly when the build failed, a building row exactly
/// when it runs, and so on. Only a derivation whose build state is unknown
/// shows its planned or completed transfers, and its row is bare exactly
/// when it has none at all.
pub proof fn lemma_row_shows_the_build_state(status: StatusKind, t: OutputTransfers)
    ensures
        t.running_download ==> row_kind_of(status, t) == RowKind::Downloading,
        !t.running_download && t.running_upload ==> row_kind_of(status, t) == RowKind::Uploading,
        !t.running_download && !t.running_upload ==> {
            &&& (row_kind_of(status, t) == RowKind::Failed <==> status == StatusKind::Failed)
            &&& (row_kind_of(status, t) == RowKind::Building <==> status == StatusKind::Building)
            &&& (row_kind_of(status, t) == RowKind::Planned <==> status == StatusKind::Planned)
            &&& (row_kind_of(status, t) == RowKind::Built <==> status == StatusKind::Built)
        },
        status != StatusKind::Unknown && !t.running_download && !t.running_upload ==> row_kind_of(status, t)
            != RowKind::Unknown,
        row_kind_of(status, t) == RowKind::Unknown <==> (status == StatusKind::Unknown && !t.running_download
            && !t.running_upload && !t.planned_download && !t.completed_download && !t.completed_upload),
{
}

/// A leaf whose build is planned, or unknown with a download planned, shows
/// what its dependencies are waiting for.
pub open spec fn shows_waiting_of(is_leaf: bool, status: StatusKind, planned_download: bool) -> bool {
    is_leaf && (status == StatusKind::Planned || (status == StatusKind::Unknown && planned_download))
}

/// Only a leaf shows what it waits for, and a leaf shows it exactly when its
/// build is planned, or its build is unknown and a download of it planned.
pub proof fn lemma_waiting_shown_on_planned_leaves(is_leaf: bool, status: StatusKind, planned_download: bool)
    ensures
        !is_leaf ==> !shows_waiting_of(is_leaf, status, planned_download),
        is_leaf && status == StatusKind::Planned ==> shows_waiting_of(is_leaf, status, planned_download),
        is_leaf && status == StatusKind::Unknown ==> shows_waiting_of(is_leaf, status, planned_download) == planned_download,
        status != StatusKind::Planned && status != StatusKind::Unknown ==> !shows_waiting_of(is_leaf, status, planned_download),
{
}

pub fn shows_waiting(is_leaf: bool, status: StatusKind, planned_download: bool) -> (r: bool)
    ensures
        r == shows_waiting_of(is_leaf, status, planned_download),
{
    is_leaf && (status == StatusKind::Planned || (status == StatusKind::Unknown && planned_download))
}

} // verus!
