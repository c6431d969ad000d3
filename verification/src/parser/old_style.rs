//! The messages of nix's human-readable ("old-style") stderr output.
use vstd::prelude::*;
use crate::text::{
    line_views, lines_acc, lines_of, split_lines, strip_cr, chars_of, contains, contains_lit, ends_with, ends_with_lit, find, find_lit, is_ascii_alphabetic, is_ascii_alphabetic_char, is_ascii_digit, is_ascii_digit_char, is_white_space, is_whitespace, skip_ws, starts_with, starts_with_lit, strip_suffix, string_of, sub_chars, trim, trim_start, trimmed,
};
use crate::types::{
    parse_derivation_path, parse_host, parse_store_path, Derivation, FailType, Host, HostModel,
    StorePath,
};

verus! {

// ---------------------------------------------------------------------
// Stripping terminal escape sequences
// ---------------------------------------------------------------------

/// The text from index `i` on with escape sequences removed: an escape
/// character starts a sequence that ends with the next ASCII letter.
pub open spec fn strip_from(s: Seq<char>, i: int, in_escape: bool) -> Seq<char>
    decreases s.len() - i,
{
    if i < 0 || i >= s.len() {
        Seq::empty()
    } else if in_escape {
        strip_from(s, i + 1, !is_ascii_alphabetic(s[i]))
    } else if s[i] == '\u{1b}' {
        strip_from(s, i + 1, true)
    } else {
        seq![s[i]] + strip_from(s, i + 1, false)
    }
}

/// `s` without its terminal escape sequences.
pub open spec fn strip_ansi(s: Seq<char>) -> Seq<char> {
    strip_from(s, 0, false)
}

fn strip_ansi_chars(cs: &Vec<char>) -> (r: Vec<char>)
    ensures
        r@ == strip_ansi(cs@),
{
    let mut out: Vec<char> = Vec::new();
    let mut i: usize = 0;
    let mut esc = false;
    while i < cs.len()
        invariant
            i <= cs.len(),
            out@ + strip_from(cs@, i as int, esc) == strip_ansi(cs@),
        decreases cs.len() - i,
    {
        let c = cs[i];
        if esc {
            esc = !is_ascii_alphabetic_char(c);
        } else if c == '\u{1b}' {
            esc = true;
        } else {
            let ghost before = out@;
            out.push(c);
            assert(before + (seq![c] + strip_from(cs@, i + 1, false)) =~= out@ + strip_from(
                cs@,
                i + 1,
                false,
            ));
        }
        i += 1;
    }
    assert(out@ + strip_from(cs@, i as int, esc) =~= out@);
    out
}

/// `s` without its terminal escape sequences: each escape character and the
/// characters after it up to and including the next ASCII letter are dropped.
pub fn strip_ansi_codes(s: &str) -> (r: String)
    ensures
        r@ == strip_ansi(s@),
{
    let cs = chars_of(s);
    let out = strip_ansi_chars(&cs);
    string_of(&out, 0, out.len())
}

// ---------------------------------------------------------------------
// Lines and their lengths in bytes
// ---------------------------------------------------------------------

/// The number of bytes of a character in UTF-8.
pub open spec fn char_utf8_len(c: char) -> nat {
    if (c as u32) < 0x80 {
        1
    } else if (c as u32) < 0x800 {
        2
    } else if (c as u32) < 0x10000 {
        3
    } else {
        4
    }
}

/// The number of bytes of a text in UTF-8 (`str::len`).
pub open spec fn utf8_len(s: Seq<char>) -> nat
    decreases s.len(),
{
    if s.len() == 0 {
        0
    } else {
        utf8_len(s.drop_last()) + char_utf8_len(s.last())
    }
}

/// Whether a text ends inside a line: it is not empty and its last
/// character is no line ending.
pub open spec fn open_ended(s: Seq<char>) -> bool {
    s.len() > 0 && s.last() != '\n'
}

/// The bytes of line `i` (counted from 1) of `count` lines with its line
/// ending: the last line of an open-ended text has none.
pub open spec fn line_end_bytes(i: int, count: int, open: bool) -> nat {
    if open && i == count {
        0
    } else {
        1
    }
}

/// The bytes of the first `n` lines, each counted with its line ending
/// where it has one (`open`: the text's last line has none).
pub open spec fn lines_bytes(ls: Seq<Seq<char>>, n: int, open: bool) -> nat
    decreases n,
{
    if n <= 0 {
        0
    } else {
        lines_bytes(ls, n - 1, open) + utf8_len(ls[n - 1]) + line_end_bytes(n, ls.len() as int, open)
    }
}

/// A count held in a `usize`, capped at `usize::MAX`.
pub open spec fn sat_usize(n: int) -> usize {
    if n > usize::MAX {
        usize::MAX
    } else if n < 0 {
        0
    } else {
        n as usize
    }
}

fn sat_add(a: usize, b: usize) -> (r: usize)
    ensures
        r == sat_usize(a + b),
{
    if a > usize::MAX - b {
        usize::MAX
    } else {
        a + b
    }
}

fn char_bytes(c: char) -> (r: usize)
    ensures
        r == char_utf8_len(c),
{
    let u = c as u32;
    if u < 0x80 {
        1
    } else if u < 0x800 {
        2
    } else if u < 0x10000 {
        3
    } else {
        4
    }
}

/// The UTF-8 length of `cs`, capped at `usize::MAX`.
fn utf8_bytes(cs: &Vec<char>) -> (r: usize)
    ensures
        r == sat_usize(utf8_len(cs@) as int),
{
    let mut n: usize = 0;
    let mut i: usize = 0;
    while i < cs.len()
        invariant
            i <= cs.len(),
            n == sat_usize(utf8_len(cs@.take(i as int)) as int),
        decreases cs.len() - i,
    {
        assert(cs@.take(i + 1).drop_last() == cs@.take(i as int));
        n = sat_add(n, char_bytes(cs[i]));
        i += 1;
    }
    assert(cs@.take(cs.len() as int) == cs@);
    n
}

/// The bytes of the first `n` lines, capped at `usize::MAX`.
fn lines_byte_count(ls: &Vec<Vec<char>>, n: usize, open: bool) -> (r: usize)
    requires
        n <= ls.len(),
    ensures
        r == sat_usize(lines_bytes(line_views(ls@), n as int, open) as int),
{
    let mut total: usize = 0;
    let mut k: usize = 0;
    while k < n
        invariant
            k <= n <= ls.len(),
            total == sat_usize(lines_bytes(line_views(ls@), k as int, open) as int),
        decreases n - k,
    {
        let b = utf8_bytes(&ls[k]);
        let end: usize = if open && k + 1 == ls.len() {
            0
        } else {
            1
        };
        total = sat_add(sat_add(total, b), end);
        k += 1;
    }
    total
}

// ---------------------------------------------------------------------
// Messages
// ---------------------------------------------------------------------

/// A size as nix writes it in a plan, such as `134.19 MiB`: the number as
/// written, and the factor of its unit (`K` 1024, `M` 1024², `G` 1024³,
/// `T` 1024⁴, anything else 1). Reading the number is left to the caller.
#[derive(Clone, Debug, PartialEq)]
pub struct SizeText {
    pub number: String,
    pub multiplier: u64,
}

/// A message of the human-readable output. A plan lists each derivation or
/// path once, in the order of first mention.
#[derive(Clone, Debug, PartialEq)]
pub enum NixOldStyleMessage {
    Uploading(StorePath, Host),
    Downloading(StorePath, Host),
    PlanCopies(usize),
    Build(Derivation, Host),
    PlanBuilds(Vec<Derivation>, Derivation),
    PlanDownloads(Option<SizeText>, Option<SizeText>, Vec<StorePath>),
    Checking(Derivation),
    Failed(Derivation, FailType),
}

pub enum OldStyleModel {
    Uploading((Seq<char>, Seq<char>), HostModel),
    Downloading((Seq<char>, Seq<char>), HostModel),
    PlanCopies(usize),
    Build((Seq<char>, Seq<char>), HostModel),
    PlanBuilds(Seq<(Seq<char>, Seq<char>)>, (Seq<char>, Seq<char>)),
    PlanDownloads(Option<(Seq<char>, u64)>, Option<(Seq<char>, u64)>, Seq<(Seq<char>, Seq<char>)>),
    Checking((Seq<char>, Seq<char>)),
    Failed((Seq<char>, Seq<char>), FailType),
}

pub open spec fn size_view(o: Option<SizeText>) -> Option<(Seq<char>, u64)> {
    match o {
        Some(t) => Some((t.number@, t.multiplier)),
        None => None,
    }
}

pub open spec fn drv_views(v: Seq<Derivation>) -> Seq<(Seq<char>, Seq<char>)> {
    v.map_values(|d: Derivation| d@)
}

pub open spec fn path_views(v: Seq<StorePath>) -> Seq<(Seq<char>, Seq<char>)> {
    v.map_values(|p: StorePath| p@)
}

impl View for NixOldStyleMessage {
    type V = OldStyleModel;

    open spec fn view(&self) -> OldStyleModel {
        match self {
            NixOldStyleMessage::Uploading(p, h) => OldStyleModel::Uploading(p@, h@),
            NixOldStyleMessage::Downloading(p, h) => OldStyleModel::Downloading(p@, h@),
            NixOldStyleMessage::PlanCopies(n) => OldStyleModel::PlanCopies(*n),
            NixOldStyleMessage::Build(d, h) => OldStyleModel::Build(d@, h@),
            NixOldStyleMessage::PlanBuilds(v, d) => OldStyleModel::PlanBuilds(drv_views(v@), d@),
            NixOldStyleMessage::PlanDownloads(a, b, v) => OldStyleModel::PlanDownloads(
                size_view(*a),
                size_view(*b),
                path_views(v@),
            ),
            NixOldStyleMessage::Checking(d) => OldStyleModel::Checking(d@),
            NixOldStyleMessage::Failed(d, f) => OldStyleModel::Failed(d@, *f),
        }
    }
}

/// What a chunk of output starts with: a message and the number of bytes
/// it takes, no message, or a plan header that the parser cannot slice
/// (a `)` before the first `(`).
pub enum ChunkOutcome {
    Malformed,
    Nothing,
    Message(OldStyleModel, int),
}

/// The text between the first two `'` of a line.
pub open spec fn tick_content(s: Seq<char>) -> Option<Seq<char>> {
    match find(s, "'"@) {
        Some(i) => match find(s.skip(i + 1), "'"@) {
            Some(j) => Some(s.skip(i + 1).take(j)),
            None => None,
        },
        None => None,
    }
}

pub open spec fn tick_drv(s: Seq<char>) -> Option<(Seq<char>, Seq<char>)> {
    match tick_content(s) {
        Some(t) => parse_derivation_path(t),
        None => None,
    }
}

pub open spec fn tick_path(s: Seq<char>) -> Option<(Seq<char>, Seq<char>)> {
    match tick_content(s) {
        Some(t) => parse_store_path(t),
        None => None,
    }
}

/// `s` up to its first `'`.
pub open spec fn upto_tick(s: Seq<char>) -> Seq<char> {
    match find(s, "'"@) {
        Some(j) => s.take(j),
        None => s,
    }
}

/// The host named after the first `marker` of a line, up to the next `'`.
pub open spec fn host_after(line: Seq<char>, marker: Seq<char>) -> Option<HostModel> {
    match find(line, marker) {
        Some(i) => Some(parse_host(upto_tick(line.skip(i + marker.len())))),
        None => None,
    }
}

/// A plan line naming a derivation.
pub open spec fn drv_line(l: Seq<char>) -> Option<(Seq<char>, Seq<char>)> {
    let t = trim(l);
    if starts_with(t, "/nix/store/"@) && ends_with(t, ".drv"@) {
        parse_derivation_path(t)
    } else {
        None
    }
}

/// A plan line naming a store path.
pub open spec fn path_line(l: Seq<char>) -> Option<(Seq<char>, Seq<char>)> {
    let t = trim(l);
    if starts_with(t, "/nix/store/"@) {
        parse_store_path(t)
    } else {
        None
    }
}

/// The number of consecutive derivation lines from line `i` on.
pub open spec fn drv_run(ls: Seq<Seq<char>>, i: int) -> nat
    decreases ls.len() - i,
{
    if 0 <= i < ls.len() && drv_line(ls[i]) is Some {
        1 + drv_run(ls, i + 1)
    } else {
        0
    }
}

/// The number of consecutive store path lines from line `i` on.
pub open spec fn path_run(ls: Seq<Seq<char>>, i: int) -> nat
    decreases ls.len() - i,
{
    if 0 <= i < ls.len() && path_line(ls[i]) is Some {
        1 + path_run(ls, i + 1)
    } else {
        0
    }
}

/// `acc` with `x` added unless it is there already.
pub open spec fn dedup_push<A>(acc: Seq<A>, x: A) -> Seq<A> {
    if acc.contains(x) {
        acc
    } else {
        acc.push(x)
    }
}

/// The derivations of lines `1..n`, each once, in order of first mention.
pub open spec fn collected_drvs(ls: Seq<Seq<char>>, n: int) -> Seq<(Seq<char>, Seq<char>)>
    decreases n,
{
    if n <= 1 {
        Seq::empty()
    } else {
        match drv_line(ls[n - 1]) {
            Some(d) => dedup_push(collected_drvs(ls, n - 1), d),
            None => collected_drvs(ls, n - 1),
        }
    }
}

/// The store paths of lines `1..n`, each once, in order of first mention.
pub open spec fn collected_paths(ls: Seq<Seq<char>>, n: int) -> Seq<(Seq<char>, Seq<char>)>
    decreases n,
{
    if n <= 1 {
        Seq::empty()
    } else {
        match path_line(ls[n - 1]) {
            Some(p) => dedup_push(collected_paths(ls, n - 1), p),
            None => collected_paths(ls, n - 1),
        }
    }
}

/// The header of a download plan.
pub open spec fn plan_download_header(first: Seq<char>) -> bool {
    (starts_with(first, "these paths will be fetched"@) || starts_with(
        first,
        "this path will be fetched"@,
    ) || (starts_with(first, "these "@) && contains(first, "paths will be fetched"@))) && contains(
        first,
        "download,"@,
    )
}

/// `s` up to its first `,`.
pub open spec fn before_comma(s: Seq<char>) -> Seq<char> {
    match find(s, ","@) {
        Some(i) => s.take(i),
        None => s,
    }
}

/// `s` after its first `,`, where it has one.
pub open spec fn after_comma(s: Seq<char>) -> Option<Seq<char>> {
    match find(s, ","@) {
        Some(i) => Some(s.skip(i + 1)),
        None => None,
    }
}

/// The index of the first white space at or after `i`, or the length.
pub open spec fn ws_from(s: Seq<char>, i: int) -> int
    decreases s.len() - i,
{
    if 0 <= i < s.len() && !is_white_space(s[i]) {
        ws_from(s, i + 1)
    } else {
        i
    }
}

/// The first word of a text that starts with no white space.
pub open spec fn first_word(t: Seq<char>) -> Seq<char> {
    t.take(ws_from(t, 0))
}

/// The second word of a text that starts with no white space, or the empty
/// text.
pub open spec fn second_word(t: Seq<char>) -> Seq<char> {
    first_word(trim_start(t.skip(ws_from(t, 0))))
}

pub open spec fn unit_multiplier(u: Seq<char>) -> u64 {
    if starts_with(u, "KiB"@) || starts_with(u, "K"@) {
        1024
    } else if starts_with(u, "MiB"@) || starts_with(u, "M"@) {
        1048576
    } else if starts_with(u, "GiB"@) || starts_with(u, "G"@) {
        1073741824
    } else if starts_with(u, "TiB"@) || starts_with(u, "T"@) {
        1099511627776
    } else {
        1
    }
}

/// The size in one part of a plan header, such as ` 134.19 MiB download`.
pub open spec fn size_of_part(p: Seq<char>, suffix: Seq<char>) -> Option<(Seq<char>, u64)> {
    match strip_suffix(trim(p), suffix) {
        Some(r) => {
            let t = trim(r);
            if t.len() == 0 {
                None
            } else {
                Some((first_word(t), unit_multiplier(second_word(t))))
            }
        },
        None => None,
    }
}

pub open spec fn all_digits(d: Seq<char>) -> bool {
    forall|i: int| 0 <= i < d.len() ==> is_ascii_digit(#[trigger] d[i])
}

/// The value of a text of decimal digits.
pub open spec fn digits_value(d: Seq<char>) -> int
    decreases d.len(),
{
    if d.len() == 0 {
        0
    } else {
        digits_value(d.drop_last()) * 10 + (d.last() as int - 48)
    }
}

/// `usize::from_str`: an optional `+` and at least one digit, with a value
/// that fits.
pub open spec fn parse_usize_text(s: Seq<char>) -> Option<usize> {
    let d = if s.len() > 0 && s[0] == '+' {
        s.skip(1)
    } else {
        s
    };
    if d.len() > 0 && all_digits(d) && digits_value(d) <= usize::MAX {
        Some(digits_value(d) as usize)
    } else {
        None
    }
}

/// The index of the first digit at or after `i`, or the length.
pub open spec fn first_digit_from(s: Seq<char>, i: int) -> int
    decreases s.len() - i,
{
    if 0 <= i < s.len() && !is_ascii_digit(s[i]) {
        first_digit_from(s, i + 1)
    } else {
        i
    }
}

/// The end of `s.take(j)` once trailing non-digits are dropped.
pub open spec fn last_digit_end(s: Seq<char>, j: int) -> int
    decreases j,
{
    if 0 < j <= s.len() && !is_ascii_digit(s[j - 1]) {
        last_digit_end(s, j - 1)
    } else {
        j
    }
}

/// `s` with leading and trailing non-digits trimmed.
pub open spec fn digit_trim(s: Seq<char>) -> Seq<char> {
    let a = first_digit_from(s, 0);
    if a >= s.len() {
        Seq::empty()
    } else {
        s.subrange(a, last_digit_end(s, s.len() as int))
    }
}

/// The exit code written after a marker: its digits as an `i32`, or 1 where
/// they do not read as one.
pub open spec fn exit_code_of(tail: Seq<char>) -> i32 {
    let t = digit_trim(tail);
    if t.len() > 0 && all_digits(t) && digits_value(t) <= i32::MAX {
        digits_value(t) as i32
    } else {
        1
    }
}

/// The exit code after `failed with exit code` in a line.
pub open spec fn exit_code_after(l: Seq<char>) -> i32 {
    match find(l, "failed with exit code"@) {
        Some(i) => exit_code_of(l.skip(i + "failed with exit code"@.len())),
        None => 1,
    }
}

/// `copying path '...' from '...'` or `to '...'`; `None` where the line is
/// read by the later rules.
pub open spec fn copy_rule(line: Seq<char>, len: int) -> Option<ChunkOutcome> {
    if !starts_with(line, "copying path '"@) {
        None
    } else {
        match tick_path(line) {
            None => Some(ChunkOutcome::Nothing),
            Some(p) => match host_after(line, "' from '"@) {
                Some(h) => Some(ChunkOutcome::Message(OldStyleModel::Downloading(p, h), len)),
                None => match host_after(line, "' to '"@) {
                    Some(h) => Some(ChunkOutcome::Message(OldStyleModel::Uploading(p, h), len)),
                    None => None,
                },
            },
        }
    }
}

/// `copying <n> paths...`; `None` where the line is read by the later rules.
pub open spec fn copies_rule(line: Seq<char>, len: int) -> Option<ChunkOutcome> {
    if !(starts_with(line, "copying "@) && ends_with(line, " paths..."@)) {
        None
    } else {
        match strip_suffix(line.skip("copying "@.len() as int), " paths..."@) {
            None => Some(ChunkOutcome::Nothing),
            Some(m) => match parse_usize_text(trim(m)) {
                Some(n) => Some(ChunkOutcome::Message(OldStyleModel::PlanCopies(n), len)),
                None => None,
            },
        }
    }
}

/// A message on the first line (or, for `Cannot build`, the first two).
pub open spec fn single_line_outcome(ls: Seq<Seq<char>>, open: bool) -> ChunkOutcome {
    let line = ls[0];
    let len: int = lines_bytes(ls, 1, open) as int;
    if starts_with(line, "building '"@) {
        match tick_drv(line) {
            None => ChunkOutcome::Nothing,
            Some(d) => ChunkOutcome::Message(
                OldStyleModel::Build(
                    d,
                    match host_after(line, "' on '"@) {
                        Some(h) => h,
                        None => HostModel::Localhost,
                    },
                ),
                len,
            ),
        }
    } else {
        match copy_rule(line, len) {
            Some(o) => o,
            None => match copies_rule(line, len) {
                Some(o) => o,
                None => if starts_with(line, "checking outputs of '"@) {
                    match tick_drv(line) {
                        None => ChunkOutcome::Nothing,
                        Some(d) => ChunkOutcome::Message(OldStyleModel::Checking(d), len),
                    }
                } else if contains(line, "builder for '"@) && contains(line, "failed with exit code"@) {
                    match tick_drv(line) {
                        None => ChunkOutcome::Nothing,
                        Some(d) => ChunkOutcome::Message(
                            OldStyleModel::Failed(d, FailType::ExitCode(exit_code_after(line))),
                            len,
                        ),
                    }
                } else if contains(line, "Cannot build '"@) && ls.len() >= 2 && contains(
                    ls[1],
                    "failed with exit code"@,
                ) {
                    match tick_drv(line) {
                        None => ChunkOutcome::Nothing,
                        Some(d) => ChunkOutcome::Message(
                            OldStyleModel::Failed(d, FailType::ExitCode(exit_code_after(ls[1]))),
                            lines_bytes(ls, 2, open) as int,
                        ),
                    }
                } else if contains(line, "hash mismatch in fixed-output derivation '"@) {
                    match tick_drv(line) {
                        None => ChunkOutcome::Nothing,
                        Some(d) => ChunkOutcome::Message(
                            OldStyleModel::Failed(d, FailType::HashMismatch),
                            len,
                        ),
                    }
                } else {
                    ChunkOutcome::Nothing
                },
            },
        }
    }
}

/// What a chunk of output starts with. Escape sequences are stripped first;
/// a build plan and a download plan take their header and the store lines
/// after it, any other message its first line.
pub open spec fn chunk_outcome(chunk: Seq<char>) -> ChunkOutcome {
    let text = strip_ansi(chunk);
    let open = open_ended(text);
    let ls = lines_of(text);
    if ls.len() == 0 {
        ChunkOutcome::Nothing
    } else {
        let first = trim(ls[0]);
        let nb: int = drv_run(ls, 1) as int;
        if ends_with(first, "will be built:"@) && nb > 0 {
            match drv_line(ls[nb]) {
                Some(last) => ChunkOutcome::Message(
                    OldStyleModel::PlanBuilds(collected_drvs(ls, nb + 1), last),
                    lines_bytes(ls, nb + 1, open) as int,
                ),
                None => ChunkOutcome::Nothing,
            }
        } else if plan_download_header(first) {
            match find(first, "("@) {
                None => ChunkOutcome::Nothing,
                Some(ps) => match find(first, ")"@) {
                    None => ChunkOutcome::Nothing,
                    Some(pe) => if pe < ps + 1 {
                        ChunkOutcome::Malformed
                    } else {
                        let inner = first.subrange(ps + 1, pe);
                        let np: int = path_run(ls, 1) as int;
                        ChunkOutcome::Message(
                            OldStyleModel::PlanDownloads(
                                size_of_part(before_comma(inner), "download"@),
                                match after_comma(inner) {
                                    Some(r) => size_of_part(before_comma(r), "unpacked"@),
                                    None => None,
                                },
                                collected_paths(ls, np + 1),
                            ),
                            lines_bytes(ls, np + 1, open) as int,
                        )
                    },
                },
            }
        } else {
            single_line_outcome(ls, open)
        }
    }
}

// ---------------------------------------------------------------------
// Reading the parts of a line
// ---------------------------------------------------------------------

fn tick_content_exec(s: &Vec<char>) -> (r: Option<Vec<char>>)
    ensures
        match r {
            Some(t) => tick_content(s@) == Some(t@),
            None => tick_content(s@) is None,
        },
{
    proof {
        reveal_strlit("'");
    }
    match find_lit(s, "'") {
        None => None,
        Some(i) => {
            let rest = sub_chars(s, i + 1, s.len());
            assert(rest@ =~= s@.skip(i + 1));
            match find_lit(&rest, "'") {
                None => None,
                Some(j) => {
                    let t = sub_chars(&rest, 0, j);
                    assert(t@ =~= rest@.take(j as int));
                    Some(t)
                },
            }
        },
    }
}

fn tick_drv_exec(s: &Vec<char>) -> (r: Option<Derivation>)
    ensures
        match r {
            Some(d) => tick_drv(s@) == Some(d@),
            None => tick_drv(s@) is None,
        },
{
    match tick_content_exec(s) {
        None => None,
        Some(t) => {
            let ts = string_of(&t, 0, t.len());
            assert(t@.subrange(0, t@.len() as int) =~= t@);
            Derivation::parse(ts.as_str())
        },
    }
}

fn tick_path_exec(s: &Vec<char>) -> (r: Option<StorePath>)
    ensures
        match r {
            Some(p) => tick_path(s@) == Some(p@),
            None => tick_path(s@) is None,
        },
{
    match tick_content_exec(s) {
        None => None,
        Some(t) => {
            let ts = string_of(&t, 0, t.len());
            assert(t@.subrange(0, t@.len() as int) =~= t@);
            StorePath::parse(ts.as_str())
        },
    }
}

fn host_after_exec(line: &Vec<char>, marker: &str) -> (r: Option<Host>)
    ensures
        match r {
            Some(h) => host_after(line@, marker@) == Some(h@),
            None => host_after(line@, marker@) is None,
        },
{
    proof {
        reveal_strlit("'");
    }
    match find_lit(line, marker) {
        None => None,
        Some(i) => {
            let m = chars_of(marker);
            let rest = sub_chars(line, i + m.len(), line.len());
            assert(rest@ =~= line@.skip(i + marker@.len()));
            let end = match find_lit(&rest, "'") {
                Some(j) => j,
                None => rest.len(),
            };
            let h = string_of(&rest, 0, end);
            assert(h@ =~= upto_tick(rest@));
            Some(Host::parse(h.as_str()))
        },
    }
}

fn drv_line_exec(l: &Vec<char>) -> (r: Option<Derivation>)
    ensures
        match r {
            Some(d) => drv_line(l@) == Some(d@),
            None => drv_line(l@) is None,
        },
{
    let t = trimmed(l);
    if starts_with_lit(&t, "/nix/store/") && ends_with_lit(&t, ".drv") {
        let ts = string_of(&t, 0, t.len());
        assert(t@.subrange(0, t@.len() as int) =~= t@);
        Derivation::parse(ts.as_str())
    } else {
        None
    }
}

fn path_line_exec(l: &Vec<char>) -> (r: Option<StorePath>)
    ensures
        match r {
            Some(p) => path_line(l@) == Some(p@),
            None => path_line(l@) is None,
        },
{
    let t = trimmed(l);
    if starts_with_lit(&t, "/nix/store/") {
        let ts = string_of(&t, 0, t.len());
        assert(t@.subrange(0, t@.len() as int) =~= t@);
        StorePath::parse(ts.as_str())
    } else {
        None
    }
}

fn same_drv(a: &Derivation, b: &Derivation) -> (r: bool)
    ensures
        r == (a@ == b@),
{
    crate::text::str_eq(a.store_path.hash.as_str(), b.store_path.hash.as_str())
        && crate::text::str_eq(a.store_path.name.as_str(), b.store_path.name.as_str())
}

fn same_path(a: &StorePath, b: &StorePath) -> (r: bool)
    ensures
        r == (a@ == b@),
{
    crate::text::str_eq(a.hash.as_str(), b.hash.as_str()) && crate::text::str_eq(
        a.name.as_str(),
        b.name.as_str(),
    )
}

fn has_drv(v: &Vec<Derivation>, d: &Derivation) -> (r: bool)
    ensures
        r == drv_views(v@).contains(d@),
{
    let mut i: usize = 0;
    while i < v.len()
        invariant
            i <= v.len(),
            forall|k: int| 0 <= k < i ==> drv_views(v@)[k] != d@,
        decreases v.len() - i,
    {
        if same_drv(&v[i], d) {
            assert(drv_views(v@)[i as int] == d@);
            return true;
        }
        i += 1;
    }
    false
}

fn has_path(v: &Vec<StorePath>, p: &StorePath) -> (r: bool)
    ensures
        r == path_views(v@).contains(p@),
{
    let mut i: usize = 0;
    while i < v.len()
        invariant
            i <= v.len(),
            forall|k: int| 0 <= k < i ==> path_views(v@)[k] != p@,
        decreases v.len() - i,
    {
        if same_path(&v[i], p) {
            assert(path_views(v@)[i as int] == p@);
            return true;
        }
        i += 1;
    }
    false
}

// ---------------------------------------------------------------------
// Numbers and sizes
// ---------------------------------------------------------------------

proof fn lemma_digits_value_prefix(d: Seq<char>, k: int)
    requires
        all_digits(d),
        0 <= k <= d.len(),
    ensures
        0 <= digits_value(d.take(k)) <= digits_value(d),
    decreases d.len(),
{
    if k < d.len() {
        assert(all_digits(d.drop_last()));
        lemma_digits_value_prefix(d.drop_last(), k);
        assert(d.drop_last().take(k) =~= d.take(k));
        assert(d.take(d.len() as int) =~= d);
    } else {
        assert(d.take(k) =~= d);
        lemma_digits_value_nonneg(d);
    }
}

proof fn lemma_digits_value_nonneg(d: Seq<char>)
    requires
        all_digits(d),
    ensures
        digits_value(d) >= 0,
    decreases d.len(),
{
    if d.len() > 0 {
        assert(all_digits(d.drop_last()));
        lemma_digits_value_nonneg(d.drop_last());
    }
}

/// The value of `d` where it is all digits, not empty, and at most `max`.
fn bounded_decimal(d: &Vec<char>, max: u64) -> (r: Option<u64>)
    ensures
        match r {
            Some(v) => d@.len() > 0 && all_digits(d@) && digits_value(d@) == v as int && v <= max,
            None => !(d@.len() > 0 && all_digits(d@) && digits_value(d@) <= max),
        },
{
    if d.len() == 0 {
        return None;
    }
    let mut v: u64 = 0;
    let mut i: usize = 0;
    while i < d.len()
        invariant
            i <= d.len(),
            all_digits(d@.take(i as int)),
            v as int == digits_value(d@.take(i as int)),
            v <= max,
        decreases d.len() - i,
    {
        let c = d[i];
        if !is_ascii_digit_char(c) {
            assert(!is_ascii_digit(d@[i as int]));
            return None;
        }
        let dig: u64 = (c as u32 - 48) as u64;
        assert(d@.take(i + 1).drop_last() =~= d@.take(i as int));
        assert(all_digits(d@.take(i + 1)));
        if dig > max || v > (max - dig) / 10 {
            proof {
                assert(v * 10 + dig > max) by (nonlinear_arith)
                    requires
                        dig > max || v > (max - dig) / 10,
                        dig <= 9,
                ;
                if all_digits(d@) {
                    lemma_digits_value_prefix(d@, i + 1);
                }
            }
            return None;
        }
        assert(v * 10 + dig <= max) by (nonlinear_arith)
            requires
                v <= (max - dig) / 10,
                dig <= max,
        ;
        v = v * 10 + dig;
        i += 1;
    }
    assert(d@.take(d@.len() as int) =~= d@);
    Some(v)
}

fn parse_usize_exec(s: &Vec<char>) -> (r: Option<usize>)
    ensures
        r == parse_usize_text(s@),
{
    let d = if s.len() > 0 && s[0] == '+' {
        sub_chars(s, 1, s.len())
    } else {
        sub_chars(s, 0, s.len())
    };
    assert(d@ =~= (if s@.len() > 0 && s@[0] == '+' {
        s@.skip(1)
    } else {
        s@
    }));
    match bounded_decimal(&d, usize::MAX as u64) {
        Some(v) => Some(v as usize),
        None => None,
    }
}

fn exit_code_exec(tail: &Vec<char>) -> (r: i32)
    ensures
        r == exit_code_of(tail@),
{
    let mut a: usize = 0;
    while a < tail.len() && !is_ascii_digit_char(tail[a])
        invariant
            a <= tail.len(),
            first_digit_from(tail@, 0) == first_digit_from(tail@, a as int),
        decreases tail.len() - a,
    {
        a += 1;
    }
    if a >= tail.len() {
        return 1;
    }
    let mut b: usize = tail.len();
    while b > 0 && !is_ascii_digit_char(tail[b - 1])
        invariant
            b <= tail.len(),
            last_digit_end(tail@, tail.len() as int) == last_digit_end(tail@, b as int),
            a < tail.len(),
            is_ascii_digit(tail@[a as int]),
            a < b,
        decreases b,
    {
        b -= 1;
    }
    let t = sub_chars(tail, a, b);
    match bounded_decimal(&t, 2147483647u64) {
        Some(v) => v as i32,
        None => 1,
    }
}

fn exit_code_after_exec(l: &Vec<char>) -> (r: i32)
    ensures
        r == exit_code_after(l@),
{
    match find_lit(l, "failed with exit code") {
        Some(i) => {
            let m = chars_of("failed with exit code");
            let rest = sub_chars(l, i + m.len(), l.len());
            assert(rest@ =~= l@.skip(i + "failed with exit code"@.len()));
            exit_code_exec(&rest)
        },
        None => 1,
    }
}

fn ws_from_exec(s: &Vec<char>, i: usize) -> (r: usize)
    requires
        i <= s.len(),
    ensures
        r as int == ws_from(s@, i as int),
        i <= r <= s.len(),
{
    let mut k = i;
    while k < s.len() && !is_whitespace(s[k])
        invariant
            i <= k <= s.len(),
            ws_from(s@, i as int) == ws_from(s@, k as int),
        decreases s.len() - k,
    {
        k += 1;
    }
    k
}

fn unit_multiplier_exec(u: &Vec<char>) -> (r: u64)
    ensures
        r == unit_multiplier(u@),
{
    if starts_with_lit(u, "KiB") || starts_with_lit(u, "K") {
        1024
    } else if starts_with_lit(u, "MiB") || starts_with_lit(u, "M") {
        1048576
    } else if starts_with_lit(u, "GiB") || starts_with_lit(u, "G") {
        1073741824
    } else if starts_with_lit(u, "TiB") || starts_with_lit(u, "T") {
        1099511627776
    } else {
        1
    }
}

fn strip_suffix_lit(s: &Vec<char>, lit: &str) -> (r: Option<Vec<char>>)
    ensures
        match r {
            Some(t) => strip_suffix(s@, lit@) == Some(t@),
            None => strip_suffix(s@, lit@) is None,
        },
{
    if ends_with_lit(s, lit) {
        let p = chars_of(lit);
        Some(sub_chars(s, 0, s.len() - p.len()))
    } else {
        None
    }
}

fn size_of_part_exec(p: &Vec<char>, suffix: &str) -> (r: Option<SizeText>)
    ensures
        size_view(r) == size_of_part(p@, suffix@),
{
    let tp = trimmed(p);
    match strip_suffix_lit(&tp, suffix) {
        None => None,
        Some(rest) => {
            let t = trimmed(&rest);
            if t.len() == 0 {
                return None;
            }
            let e = ws_from_exec(&t, 0);
            let word = string_of(&t, 0, e);
            let after = sub_chars(&t, e, t.len());
            assert(after@ =~= t@.skip(ws_from(t@, 0)));
            let mut a0: usize = 0;
            while a0 < after.len() && is_whitespace(after[a0])
                invariant
                    a0 <= after.len(),
                    skip_ws(after@, 0) == skip_ws(after@, a0 as int),
                decreases after.len() - a0,
            {
                a0 += 1;
            }
            let lead = sub_chars(&after, a0, after.len());
            assert(lead@ =~= trim_start(after@));
            let e2 = ws_from_exec(&lead, 0);
            let unit = sub_chars(&lead, 0, e2);
            Some(SizeText { number: word, multiplier: unit_multiplier_exec(&unit) })
        },
    }
}

// ---------------------------------------------------------------------
// The rules
// ---------------------------------------------------------------------

/// A parse result stands for an outcome other than `Malformed`: nothing, or
/// the message with the number of bytes it takes.
pub open spec fn outcome_matches(r: Option<(NixOldStyleMessage, usize)>, o: ChunkOutcome) -> bool {
    match o {
        ChunkOutcome::Malformed => false,
        ChunkOutcome::Nothing => r is None,
        ChunkOutcome::Message(m, n) => r matches Some((msg, c)) && msg@ == m && c == sat_usize(n),
    }
}

/// The text between the first two `'` of `s`.
pub fn extract_tick_content(s: &str) -> (r: Option<String>)
    ensures
        crate::types::opt_string_view(r) == tick_content(s@),
{
    let cs = chars_of(s);
    match tick_content_exec(&cs) {
        Some(t) => {
            let r = string_of(&t, 0, t.len());
            assert(t@.subrange(0, t@.len() as int) =~= t@);
            Some(r)
        },
        None => None,
    }
}

fn copy_rule_exec(line: &Vec<char>, len: usize, Ghost(n): Ghost<int>) -> (r: Option<
    Option<(NixOldStyleMessage, usize)>,
>)
    requires
        len == sat_usize(n),
    ensures
        match copy_rule(line@, n) {
            None => r is None,
            Some(o) => r matches Some(x) && outcome_matches(x, o),
        },
{
    if !starts_with_lit(line, "copying path '") {
        return None;
    }
    match tick_path_exec(line) {
        None => Some(None),
        Some(p) => match host_after_exec(line, "' from '") {
            Some(h) => Some(Some((NixOldStyleMessage::Downloading(p, h), len))),
            None => match host_after_exec(line, "' to '") {
                Some(h) => Some(Some((NixOldStyleMessage::Uploading(p, h), len))),
                None => None,
            },
        },
    }
}

fn copies_rule_exec(line: &Vec<char>, len: usize, Ghost(n): Ghost<int>) -> (r: Option<
    Option<(NixOldStyleMessage, usize)>,
>)
    requires
        len == sat_usize(n),
    ensures
        match copies_rule(line@, n) {
            None => r is None,
            Some(o) => r matches Some(x) && outcome_matches(x, o),
        },
{
    if !(starts_with_lit(line, "copying ") && ends_with_lit(line, " paths...")) {
        return None;
    }
    let m = chars_of("copying ");
    let rest = sub_chars(line, m.len(), line.len());
    assert(rest@ =~= line@.skip("copying "@.len() as int));
    match strip_suffix_lit(&rest, " paths...") {
        None => Some(None),
        Some(mid) => {
            let t = trimmed(&mid);
            match parse_usize_exec(&t) {
                Some(n) => Some(Some((NixOldStyleMessage::PlanCopies(n), len))),
                None => None,
            }
        },
    }
}

fn single_line_exec(ls: &Vec<Vec<char>>, open: bool) -> (r: Option<(NixOldStyleMessage, usize)>)
    requires
        ls.len() > 0,
    ensures
        outcome_matches(r, single_line_outcome(line_views(ls@), open)),
{
    let ghost lv = line_views(ls@);
    let line = &ls[0];
    assert(lv[0] == line@);
    let len = lines_byte_count(ls, 1, open);
    let ghost n: int = lines_bytes(lv, 1, open) as int;
    if starts_with_lit(line, "building '") {
        return match tick_drv_exec(line) {
            None => None,
            Some(d) => {
                let host = match host_after_exec(line, "' on '") {
                    Some(h) => h,
                    None => Host::Localhost,
                };
                Some((NixOldStyleMessage::Build(d, host), len))
            },
        };
    }
    match copy_rule_exec(line, len, Ghost(n)) {
        Some(x) => return x,
        None => {},
    }
    match copies_rule_exec(line, len, Ghost(n)) {
        Some(x) => return x,
        None => {},
    }
    if starts_with_lit(line, "checking outputs of '") {
        match tick_drv_exec(line) {
            None => None,
            Some(d) => Some((NixOldStyleMessage::Checking(d), len)),
        }
    } else if contains_lit(line, "builder for '") && contains_lit(line, "failed with exit code") {
        match tick_drv_exec(line) {
            None => None,
            Some(d) => Some(
                (NixOldStyleMessage::Failed(d, FailType::ExitCode(exit_code_after_exec(line))), len),
            ),
        }
    } else if contains_lit(line, "Cannot build '") && ls.len() >= 2 && contains_lit(
        &ls[1],
        "failed with exit code",
    ) {
        assert(lv[1] == ls@[1]@);
        match tick_drv_exec(line) {
            None => None,
            Some(d) => {
                let code = exit_code_after_exec(&ls[1]);
                let n2 = lines_byte_count(ls, 2, open);
                Some((NixOldStyleMessage::Failed(d, FailType::ExitCode(code)), n2))
            },
        }
    } else if contains_lit(line, "hash mismatch in fixed-output derivation '") {
        match tick_drv_exec(line) {
            None => None,
            Some(d) => Some((NixOldStyleMessage::Failed(d, FailType::HashMismatch), len)),
        }
    } else {
        None
    }
}

fn plan_download_header_exec(first: &Vec<char>) -> (b: bool)
    ensures
        b == plan_download_header(first@),
{
    (starts_with_lit(first, "these paths will be fetched") || starts_with_lit(
        first,
        "this path will be fetched",
    ) || (starts_with_lit(first, "these ") && contains_lit(first, "paths will be fetched")))
        && contains_lit(first, "download,")
}

/// The run of derivation lines after the first line: the derivations, each
/// once, the last of them, and the index of the line after the run.
fn drv_run_exec(ls: &Vec<Vec<char>>) -> (r: (Vec<Derivation>, Option<Derivation>, usize))
    requires
        ls.len() > 0,
    ensures
        1 <= r.2 <= ls.len(),
        r.2 == 1 + drv_run(line_views(ls@), 1),
        drv_views(r.0@) == collected_drvs(line_views(ls@), r.2 as int),
        match r.1 {
            Some(d) => r.2 > 1 && drv_line(line_views(ls@)[r.2 - 1]) == Some(d@),
            None => r.2 == 1,
        },
{
    let ghost lv = line_views(ls@);
    let mut drvs: Vec<Derivation> = Vec::new();
    let mut last: Option<Derivation> = None;
    let mut k: usize = 1;
    let mut done = false;
    while k < ls.len() && !done
        invariant
            1 <= k <= ls.len(),
            lv == line_views(ls@),
            drv_run(lv, 1) == (k - 1) + drv_run(lv, k as int),
            drv_views(drvs@) == collected_drvs(lv, k as int),
            done ==> k < ls.len() && drv_line(lv[k as int]) is None,
            match last {
                Some(d) => k > 1 && drv_line(lv[k - 1]) == Some(d@),
                None => k == 1,
            },
        decreases (ls.len() - k) * 2 + (if done { 0int } else { 1int }),
    {
        assert(lv[k as int] == ls@[k as int]@);
        match drv_line_exec(&ls[k]) {
            Some(d) => {
                let ghost before = drv_views(drvs@);
                if !has_drv(&drvs, &d) {
                    drvs.push(d.copied());
                    assert(drv_views(drvs@) =~= before.push(d@));
                }
                last = Some(d);
                k += 1;
            },
            None => {
                done = true;
            },
        }
    }
    (drvs, last, k)
}

/// The run of store path lines after the first line: the paths, each once,
/// and the index of the line after the run.
fn path_run_exec(ls: &Vec<Vec<char>>) -> (r: (Vec<StorePath>, usize))
    requires
        ls.len() > 0,
    ensures
        1 <= r.1 <= ls.len(),
        r.1 == 1 + path_run(line_views(ls@), 1),
        path_views(r.0@) == collected_paths(line_views(ls@), r.1 as int),
{
    let ghost lv = line_views(ls@);
    let mut paths: Vec<StorePath> = Vec::new();
    let mut k: usize = 1;
    let mut done = false;
    while k < ls.len() && !done
        invariant
            1 <= k <= ls.len(),
            lv == line_views(ls@),
            path_run(lv, 1) == (k - 1) + path_run(lv, k as int),
            path_views(paths@) == collected_paths(lv, k as int),
            done ==> k < ls.len() && path_line(lv[k as int]) is None,
        decreases (ls.len() - k) * 2 + (if done { 0int } else { 1int }),
    {
        assert(lv[k as int] == ls@[k as int]@);
        match path_line_exec(&ls[k]) {
            Some(p) => {
                let ghost before = path_views(paths@);
                if !has_path(&paths, &p) {
                    paths.push(p);
                    assert(path_views(paths@) =~= before.push(p@));
                }
                k += 1;
            },
            None => {
                done = true;
            },
        }
    }
    (paths, k)
}

/// The outcome of a chunk: whether it is malformed, and otherwise the
/// message it starts with.
fn scan_chunk(chunk: &str) -> (r: (bool, Option<(NixOldStyleMessage, usize)>))
    ensures
        r.0 == (chunk_outcome(chunk@) is Malformed),
        !r.0 ==> outcome_matches(r.1, chunk_outcome(chunk@)),
{
    let cs = chars_of(chunk);
    let stripped = strip_ansi_chars(&cs);
    let ls = split_lines(&stripped);
    let open = stripped.len() > 0 && stripped[stripped.len() - 1] != '\n';
    let ghost lv = line_views(ls@);
    if ls.len() == 0 {
        return (false, None);
    }
    assert(lv[0] == ls@[0]@);
    let first = trimmed(&ls[0]);
    let (drvs, last, k) = drv_run_exec(&ls);
    if ends_with_lit(&first, "will be built:") && k > 1 {
        let n = lines_byte_count(&ls, k, open);
        return match last {
            Some(l) => (false, Some((NixOldStyleMessage::PlanBuilds(drvs, l), n))),
            None => (false, None),
        };
    }
    if plan_download_header_exec(&first) {
        proof {
            reveal_strlit("(");
            reveal_strlit(")");
            reveal_strlit(",");
        }
        let ps = match find_lit(&first, "(") {
            Some(i) => i,
            None => return (false, None),
        };
        let pe = match find_lit(&first, ")") {
            Some(i) => i,
            None => return (false, None),
        };
        if pe < ps + 1 {
            return (true, None);
        }
        let inner = sub_chars(&first, ps + 1, pe);
        let (p0, rest) = match find_lit(&inner, ",") {
            Some(c) => {
                let a = sub_chars(&inner, 0, c);
                let b = sub_chars(&inner, c + 1, inner.len());
                assert(a@ =~= inner@.take(c as int));
                assert(b@ =~= inner@.skip(c + 1));
                (a, Some(b))
            },
            None => (sub_chars(&inner, 0, inner.len()), None),
        };
        assert(p0@ =~= before_comma(inner@));
        let download = size_of_part_exec(&p0, "download");
        let unpacked = match rest {
            Some(r) => {
                let p1 = match find_lit(&r, ",") {
                    Some(c) => sub_chars(&r, 0, c),
                    None => sub_chars(&r, 0, r.len()),
                };
                assert(p1@ =~= before_comma(r@));
                size_of_part_exec(&p1, "unpacked")
            },
            None => None,
        };
        let (paths, k2) = path_run_exec(&ls);
        let n = lines_byte_count(&ls, k2, open);
        return (false, Some((NixOldStyleMessage::PlanDownloads(download, unpacked, paths), n)));
    }
    (false, single_line_exec(&ls, open))
}

/// Parses the message that a chunk of output starts with, and the number
/// of bytes it takes.
pub fn parse_old_style_chunk(chunk: &str) -> (r: Option<(NixOldStyleMessage, usize)>)
    requires
        !(chunk_outcome(chunk@) is Malformed),
    ensures
        outcome_matches(r, chunk_outcome(chunk@)),
{
    scan_chunk(chunk).1
}

/// Whether the chunk starts with a download plan header whose first `)`
/// comes before its first `(`, which [`parse_old_style_chunk`] cannot read.
pub fn is_malformed_old_style_chunk(chunk: &str) -> (b: bool)
    ensures
        b == (chunk_outcome(chunk@) is Malformed),
{
    scan_chunk(chunk).0
}

// ---------------------------------------------------------------------
// Laws
// ---------------------------------------------------------------------

proof fn lemma_strip_from_no_escape(s: Seq<char>, i: int, e: bool)
    ensures
        forall|k: int| 0 <= k < strip_from(s, i, e).len() ==> strip_from(s, i, e)[k] != '\u{1b}',
    decreases s.len() - i,
{
    if !(0 <= i < s.len()) {
        assert(strip_from(s, i, e) =~= Seq::<char>::empty());
    }
    if 0 <= i < s.len() {
        if e {
            lemma_strip_from_no_escape(s, i + 1, !is_ascii_alphabetic(s[i]));
            assert(strip_from(s, i, e) == strip_from(s, i + 1, !is_ascii_alphabetic(s[i])));
        } else if s[i] == '\u{1b}' {
            lemma_strip_from_no_escape(s, i + 1, true);
            assert(strip_from(s, i, e) == strip_from(s, i + 1, true));
        } else {
            lemma_strip_from_no_escape(s, i + 1, false);
            let rest = strip_from(s, i + 1, false);
            assert forall|k: int| 0 <= k < strip_from(s, i, e).len() implies strip_from(s, i, e)[k]
                != '\u{1b}' by {
                assert(strip_from(s, i, e) == seq![s[i]] + rest);
                if k > 0 {
                    assert(strip_from(s, i, e)[k] == rest[k - 1]);
                }
            }
        }
    }
}

/// Stripping leaves no escape character.
pub proof fn lemma_strip_ansi_removes_escapes(s: Seq<char>)
    ensures
        forall|k: int| 0 <= k < strip_ansi(s).len() ==> strip_ansi(s)[k] != '\u{1b}',
{
    lemma_strip_from_no_escape(s, 0, false);
}

proof fn lemma_strip_from_plain(t: Seq<char>, i: int)
    requires
        0 <= i <= t.len(),
        forall|k: int| 0 <= k < t.len() ==> t[k] != '\u{1b}',
    ensures
        strip_from(t, i, false) == t.skip(i),
    decreases t.len() - i,
{
    if i < t.len() {
        lemma_strip_from_plain(t, i + 1);
        assert(seq![t[i]] + t.skip(i + 1) =~= t.skip(i));
    } else {
        assert(t.skip(i) =~= Seq::<char>::empty());
    }
}

/// Stripping twice is stripping once.
pub proof fn lemma_strip_ansi_idempotent(s: Seq<char>)
    ensures
        strip_ansi(strip_ansi(s)) == strip_ansi(s),
{
    lemma_strip_ansi_removes_escapes(s);
    lemma_strip_from_plain(strip_ansi(s), 0);
    assert(strip_ansi(s).skip(0) =~= strip_ansi(s));
}

/// The text of the first `n` lines, each followed by its line ending where
/// it has one.
spec fn lines_text(ls: Seq<Seq<char>>, n: int, open: bool) -> Seq<char>
    decreases n,
{
    if n <= 0 {
        Seq::empty()
    } else {
        lines_text(ls, n - 1, open) + ls[n - 1] + line_end(n, ls.len() as int, open)
    }
}

spec fn line_end(i: int, count: int, open: bool) -> Seq<char> {
    if line_end_bytes(i, count, open) == 0 {
        Seq::empty()
    } else {
        seq!['\n']
    }
}

proof fn lemma_utf8_len_concat(a: Seq<char>, b: Seq<char>)
    ensures
        utf8_len(a + b) == utf8_len(a) + utf8_len(b),
    decreases b.len(),
{
    if b.len() > 0 {
        lemma_utf8_len_concat(a, b.drop_last());
        assert((a + b).drop_last() =~= a + b.drop_last());
        assert((a + b).last() == b.last());
    } else {
        assert(a + b =~= a);
    }
}

proof fn lemma_utf8_len_at_least(s: Seq<char>)
    ensures
        utf8_len(s) >= s.len(),
    decreases s.len(),
{
    if s.len() > 0 {
        lemma_utf8_len_at_least(s.drop_last());
    }
}

proof fn lemma_lines_bytes_text(ls: Seq<Seq<char>>, n: int, open: bool)
    requires
        n >= 0,
    ensures
        lines_bytes(ls, n, open) == utf8_len(lines_text(ls, n, open)),
    decreases n,
{
    if n > 0 {
        lemma_lines_bytes_text(ls, n - 1, open);
        let e = line_end(n, ls.len() as int, open);
        lemma_utf8_len_concat(lines_text(ls, n - 1, open) + ls[n - 1], e);
        lemma_utf8_len_concat(lines_text(ls, n - 1, open), ls[n - 1]);
        if line_end_bytes(n, ls.len() as int, open) == 1 {
            assert(e.drop_last() =~= Seq::<char>::empty());
            assert(utf8_len(e.drop_last()) == 0);
        }
        assert(utf8_len(e) == line_end_bytes(n, ls.len() as int, open));
    }
}

proof fn lemma_lines_bytes_mono(ls: Seq<Seq<char>>, m: int, n: int, open: bool)
    requires
        0 <= m <= n,
    ensures
        lines_bytes(ls, m, open) <= lines_bytes(ls, n, open),
    decreases n - m,
{
    if m < n {
        lemma_lines_bytes_mono(ls, m, n - 1, open);
    }
}

proof fn lemma_lines_acc_nonempty(s: Seq<char>, i: int, cur: Seq<char>)
    requires
        0 <= i,
        i < s.len() || cur.len() > 0,
    ensures
        lines_acc(s, i, cur).len() > 0,
    decreases s.len() - i,
{
    if i < s.len() && s[i] != '\n' {
        lemma_lines_acc_nonempty(s, i + 1, cur.push(s[i]));
    }
}

/// The last line of an open-ended text is not empty.
proof fn lemma_lines_acc_last(s: Seq<char>, i: int, cur: Seq<char>)
    requires
        0 <= i <= s.len(),
        open_ended(s),
        i < s.len() || cur.len() > 0,
    ensures
        lines_acc(s, i, cur).len() > 0,
        lines_acc(s, i, cur).last().len() > 0,
    decreases s.len() - i,
{
    if i < s.len() {
        if s[i] == '\n' {
            lemma_lines_acc_last(s, i + 1, Seq::empty());
            let r = lines_acc(s, i + 1, Seq::empty());
            assert((seq![strip_cr(cur)] + r).last() == r.last());
        } else {
            lemma_lines_acc_last(s, i + 1, cur.push(s[i]));
        }
    }
}

proof fn lemma_drv_run_bound(ls: Seq<Seq<char>>, i: int)
    requires
        0 <= i <= ls.len(),
    ensures
        i + drv_run(ls, i) <= ls.len(),
    decreases ls.len() - i,
{
    if i < ls.len() && drv_line(ls[i]) is Some {
        lemma_drv_run_bound(ls, i + 1);
    }
}

proof fn lemma_path_run_bound(ls: Seq<Seq<char>>, i: int)
    requires
        0 <= i <= ls.len(),
    ensures
        i + path_run(ls, i) <= ls.len(),
    decreases ls.len() - i,
{
    if i < ls.len() && path_line(ls[i]) is Some {
        lemma_path_run_bound(ls, i + 1);
    }
}

/// Whole lines of a text take at least one byte.
proof fn lemma_lines_bytes_positive(text: Seq<char>, m: int)
    requires
        1 <= m <= lines_of(text).len(),
    ensures
        lines_bytes(lines_of(text), m, open_ended(text)) >= 1,
{
    let ls = lines_of(text);
    let open = open_ended(text);
    lemma_lines_bytes_mono(ls, 1, m, open);
    if open && ls.len() == 1 {
        lemma_lines_acc_last(text, 0, Seq::empty());
        lemma_utf8_len_at_least(ls[0]);
    }
}

/// A message read from old-style output takes at least one byte, so that
/// reading a stream message by message moves on.
pub proof fn lemma_message_takes_bytes(chunk: Seq<char>)
    ensures
        chunk_outcome(chunk) matches ChunkOutcome::Message(_, n) ==> n >= 1,
{
    let text = strip_ansi(chunk);
    let ls = lines_of(text);
    if ls.len() > 0 {
        lemma_drv_run_bound(ls, 1);
        lemma_path_run_bound(ls, 1);
        assert forall|m: int| 1 <= m <= ls.len() implies lines_bytes(ls, m, open_ended(text))
            >= 1 by {
            lemma_lines_bytes_positive(text, m);
        }
    }
}

proof fn lemma_lines_text_front(c: Seq<char>, r: Seq<Seq<char>>, n: int, open: bool)
    requires
        1 <= n <= r.len() + 1,
    ensures
        lines_text(seq![c] + r, n, open) == c + line_end(1, r.len() + 1int, open) + lines_text(
            r,
            n - 1,
            open,
        ),
    decreases n,
{
    let ls = seq![c] + r;
    if n == 1 {
        assert(ls[0] == c);
        assert(lines_text(ls, 0, open) == Seq::<char>::empty());
        assert(lines_text(r, 0, open) == Seq::<char>::empty());
        assert(lines_text(ls, 1, open) =~= c + line_end(1, r.len() + 1int, open) + lines_text(
            r,
            0,
            open,
        ));
    } else {
        lemma_lines_text_front(c, r, n - 1, open);
        assert(ls[n - 1] == r[n - 2]);
        assert(lines_text(ls, n, open) =~= c + line_end(1, r.len() + 1int, open) + lines_text(
            r,
            n - 1,
            open,
        ));
    }
}

/// The first `n` lines read from position `i` on, with `cur` read before
/// it, are the text from where `cur` starts, up to a line ending or the end.
proof fn lemma_lines_acc_prefix(s: Seq<char>, i: int, cur: Seq<char>, n: int)
    requires
        0 <= i <= s.len(),
        cur.len() <= i,
        s.subrange(i - cur.len(), i) == cur,
        forall|k: int| 0 <= k < cur.len() ==> cur[k] != '\n',
        forall|k: int| 0 <= k < s.len() ==> s[k] != '\r',
        0 <= n <= lines_acc(s, i, cur).len(),
    ensures
        ({
            let b = i - cur.len();
            let t = lines_text(lines_acc(s, i, cur), n, open_ended(s));
            &&& b + t.len() <= s.len()
            &&& s.subrange(b, b + t.len()) == t
            &&& (n == 0 || b + t.len() == s.len() || s[b + t.len() - 1] == '\n')
        }),
    decreases s.len() - i,
{
    let b = i - cur.len();
    let open = open_ended(s);
    let r = lines_acc(s, i, cur);
    if n == 0 {
        assert(s.subrange(b, b) =~= Seq::<char>::empty());
    } else if i >= s.len() {
        assert(r == seq![cur]);
        assert(cur.len() > 0);
        assert(s.last() == cur.last()) by {
            assert(s.subrange(b, i)[cur.len() - 1] == s[i - 1]);
        }
        assert(lines_text(r, 0, open) == Seq::<char>::empty());
        assert(r[0] == cur);
        assert(line_end(1, 1, open) == Seq::<char>::empty());
        assert(lines_text(r, 1, open) =~= cur);
    } else if s[i] == '\n' {
        let rest = lines_acc(s, i + 1, Seq::empty());
        assert(strip_cr(cur) == cur) by {
            if cur.len() > 0 {
                assert(s.subrange(b, i)[cur.len() - 1] == s[i - 1]);
            }
        }
        assert(r == seq![cur] + rest);
        lemma_lines_text_front(cur, rest, n, open);
        if rest.len() == 0 {
            if i + 1 < s.len() {
                lemma_lines_acc_nonempty(s, i + 1, Seq::empty());
            }
            assert(!open);
        }
        assert(line_end(1, rest.len() + 1int, open) == seq!['\n']);
        assert(s.subrange(i + 1, i + 1) =~= Seq::<char>::empty());
        lemma_lines_acc_prefix(s, i + 1, Seq::empty(), n - 1);
        let t2 = lines_text(rest, n - 1, open);
        let t = lines_text(r, n, open);
        assert(t == cur + seq!['\n'] + t2);
        assert(s.subrange(b, i + 1 + t2.len()) =~= s.subrange(b, i) + seq![s[i]] + s.subrange(
            i + 1,
            i + 1 + t2.len(),
        ));
    } else {
        assert(s.subrange(b, i + 1) =~= cur.push(s[i]));
        lemma_lines_acc_prefix(s, i + 1, cur.push(s[i]), n);
    }
}

/// The first `m` lines of a text without carriage returns are a prefix of
/// it that ends with a line ending or at its end.
proof fn lemma_lines_prefix(text: Seq<char>, m: int)
    requires
        1 <= m <= lines_of(text).len(),
        forall|k: int| 0 <= k < text.len() ==> text[k] != '\r',
    ensures
        exists|k: int|
            1 <= k <= text.len() && lines_bytes(lines_of(text), m, open_ended(text)) == utf8_len(
                #[trigger] text.take(k),
            ) && utf8_len(text.take(k)) <= utf8_len(text) && (k == text.len() || text[k - 1]
                == '\n'),
{
    let ls = lines_of(text);
    let open = open_ended(text);
    assert(text.subrange(0, 0) =~= Seq::<char>::empty());
    lemma_lines_acc_prefix(text, 0, Seq::empty(), m);
    let t = lines_text(ls, m, open);
    lemma_lines_bytes_text(ls, m, open);
    lemma_lines_bytes_positive(text, m);
    let k = t.len() as int;
    assert(text.take(k) =~= t);
    lemma_utf8_len_concat(t, text.skip(k));
    assert(t + text.skip(k) =~= text);
    assert(k >= 1);
    assert(text.take(k) == t);
}

/// Reading a message takes whole lines: on a chunk without escape sequences
/// or carriage returns, the bytes a message takes are those of a prefix of
/// the chunk that ends with a line ending or at the chunk's end, so that a
/// caller may cut the chunk there.
pub proof fn lemma_message_ends_at_line_end(chunk: Seq<char>)
    requires
        forall|k: int| 0 <= k < chunk.len() ==> chunk[k] != '\u{1b}' && chunk[k] != '\r',
    ensures
        chunk_outcome(chunk) matches ChunkOutcome::Message(_, n) ==> exists|k: int|
            1 <= k <= chunk.len() && n == utf8_len(#[trigger] chunk.take(k)) && n <= utf8_len(
                chunk,
            ) && (k == chunk.len() || chunk[k - 1] == '\n'),
{
    lemma_strip_from_plain(chunk, 0);
    assert(chunk.skip(0) =~= chunk);
    let ls = lines_of(chunk);
    if ls.len() > 0 {
        lemma_drv_run_bound(ls, 1);
        lemma_path_run_bound(ls, 1);
        assert forall|m: int| 1 <= m <= ls.len() implies #[trigger] lines_bytes(ls, m, open_ended(chunk)) == lines_bytes(ls, m, open_ended(chunk)) && exists|k: int|
            1 <= k <= chunk.len() && lines_bytes(ls, m, open_ended(chunk)) == utf8_len(
                #[trigger] chunk.take(k),
            ) && utf8_len(chunk.take(k)) <= utf8_len(chunk) && (k == chunk.len() || chunk[k - 1]
                == '\n') by {
            lemma_lines_prefix(chunk, m);
        }
    }
}

proof fn lemma_dedup_push<A>(acc: Seq<A>, x: A)
    requires
        acc.no_duplicates(),
    ensures
        dedup_push(acc, x).no_duplicates(),
        dedup_push(acc, x).contains(x),
        forall|y: A| acc.contains(y) ==> dedup_push(acc, x).contains(y),
{
    if !acc.contains(x) {
        let r = acc.push(x);
        assert forall|i: int, j: int| 0 <= i < r.len() && 0 <= j < r.len() && i != j implies r[i]
            != r[j] by {
            if i < acc.len() && j < acc.len() {
            } else if i == acc.len() {
                assert(r[j] == acc[j]);
            } else {
                assert(r[i] == acc[i]);
            }
        }
        assert(r[acc.len() as int] == x);
        assert forall|y: A| acc.contains(y) implies r.contains(y) by {
            let k = choose|k: int| 0 <= k < acc.len() && acc[k] == y;
            assert(r[k] == y);
        }
    }
}

/// A plan names each derivation and each path once, and every one of its
/// lines up to `n`.
pub proof fn lemma_plan_lists_each_once(ls: Seq<Seq<char>>, n: int)
    ensures
        collected_drvs(ls, n).no_duplicates(),
        collected_paths(ls, n).no_duplicates(),
        forall|j: int|
            1 <= j < n && drv_line(ls[j]) is Some ==> collected_drvs(ls, n).contains(
                drv_line(#[trigger] ls[j])->0,
            ),
        forall|j: int|
            1 <= j < n && path_line(ls[j]) is Some ==> collected_paths(ls, n).contains(
                path_line(#[trigger] ls[j])->0,
            ),
    decreases n,
{
    if n > 1 {
        lemma_plan_lists_each_once(ls, n - 1);
        match drv_line(ls[n - 1]) {
            Some(d) => lemma_dedup_push(collected_drvs(ls, n - 1), d),
            None => {},
        }
        match path_line(ls[n - 1]) {
            Some(p) => lemma_dedup_push(collected_paths(ls, n - 1), p),
            None => {},
        }
    }
}

} // verus!
