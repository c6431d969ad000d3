//! Display widths, truncation and table layout of terminal text.
use vstd::prelude::*;
use crate::text::{chars_of, push_char, push_str};

verus! {

pub const RESET: &'static str = "\x1b[0m";
pub const BOLD: &'static str = "\x1b[1m";
pub const RED: &'static str = "\x1b[31m";
pub const GREEN: &'static str = "\x1b[32m";
pub const YELLOW: &'static str = "\x1b[33m";
pub const BLUE: &'static str = "\x1b[34m";
pub const MAGENTA: &'static str = "\x1b[35m";
pub const GREY: &'static str = "\x1b[90m";

pub open spec fn esc() -> char {
    '\x1b'
}

/// The column count that the `unicode-width` crate gives a character that is
/// not a control character.
pub uninterp spec fn unicode_char_width(c: char) -> usize;

/// What `UnicodeWidthChar::width` returns: `None` for control characters,
/// 1 for printable ASCII, the crate's table value for everything else.
pub open spec fn char_width_opt(c: char) -> Option<usize> {
    let u = c as u32;
    if u < 0x20 {
        None
    } else if u < 0x7F {
        Some(1)
    } else if u < 0xA0 {
        None
    } else {
        Some(unicode_char_width(c))
    }
}

/// `UnicodeWidthChar::width` of the `unicode-width` crate.
#[verifier::external_body]
fn char_width(c: char) -> (r: Option<usize>)
    ensures
        r == if (c as u32) < 0x20 {
            None
        } else if (c as u32) < 0x7F {
            Some(1usize)
        } else if (c as u32) < 0xA0 {
            None
        } else {
            Some(unicode_char_width(c))
        },
{
    unicode_width::UnicodeWidthChar::width(c)
}

/// The width that layout counts for one character: the crate's width, or 0
/// for control characters.
pub open spec fn char_cols(c: char) -> nat {
    match char_width_opt(c) {
        Some(w) => w as nat,
        None => 0,
    }
}

/// The display width of `s` from index `i` on: escape sequences (an escape
/// character up to and including the next ASCII letter) take no room, and
/// every other character takes its column count.
pub open spec fn width_from(s: Seq<char>, i: int, in_escape: bool) -> nat
    decreases s.len() - i,
{
    if i < 0 || i >= s.len() {
        0
    } else if in_escape {
        width_from(s, i + 1, !crate::text::is_ascii_alphabetic(s[i]))
    } else if s[i] == esc() {
        width_from(s, i + 1, true)
    } else {
        char_cols(s[i]) + width_from(s, i + 1, false)
    }
}

/// The display width of `s`.
pub open spec fn spec_display_width(s: Seq<char>) -> nat {
    width_from(s, 0, false)
}

pub open spec fn is_printable_ascii(c: char) -> bool {
    0x20 <= (c as u32) && (c as u32) <= 0x7e
}

/// Whether the 8 characters at `cs[start..]` are all printable ASCII.
fn is_printable_ascii_8(cs: &Vec<char>, start: usize) -> (b: bool)
    requires
        start + 8 <= cs.len(),
    ensures
        b == forall|i: int| start <= i < start + 8 ==> is_printable_ascii(#[trigger] cs@[i]),
{
    let mut ok = true;
    let mut i = start;
    while i < start + 8
        invariant
            start <= i <= start + 8 <= cs.len(),
            ok == forall|j: int| start <= j < i ==> is_printable_ascii(#[trigger] cs@[j]),
        decreases start + 8 - i,
    {
        let u = cs[i] as u32;
        ok = ok && 0x20 <= u && u <= 0x7e;
        i += 1;
    }
    ok
}

proof fn lemma_width_printable(s: Seq<char>, i: int)
    requires
        0 <= i <= s.len(),
        forall|j: int| i <= j < s.len() ==> is_printable_ascii(#[trigger] s[j]),
    ensures
        width_from(s, i, false) == s.len() - i,
    decreases s.len() - i,
{
    if i < s.len() {
        assert(is_printable_ascii(s[i]));
        lemma_width_printable(s, i + 1);
    }
}

/// `a + b`, or `usize::MAX` where the sum does not fit.
pub open spec fn sat_add(a: nat, b: nat) -> nat {
    if a + b > usize::MAX {
        usize::MAX as nat
    } else {
        a + b
    }
}

pub open spec fn min_usize(a: nat) -> nat {
    if a > usize::MAX {
        usize::MAX as nat
    } else {
        a
    }
}

/// The display width of a string in a terminal (capped at `usize::MAX`).
pub fn display_width(s: &str) -> (r: usize)
    ensures
        r == min_usize(spec_display_width(s@)),
{
    let cs = chars_of(s);
    let len = cs.len();
    // Text of printable ASCII alone is as wide as it is long.
    let mut all_printable = true;
    let mut i: usize = 0;
    while len - i >= 8 && all_printable
        invariant
            i <= len == cs.len(),
            all_printable ==> forall|j: int| 0 <= j < i ==> is_printable_ascii(#[trigger] cs@[j]),
        decreases len - i + if all_printable { 1int } else { 0int },
    {
        if is_printable_ascii_8(&cs, i) {
            i += 8;
        } else {
            all_printable = false;
        }
    }
    while i < len && all_printable
        invariant
            i <= len == cs.len(),
            all_printable ==> forall|j: int| 0 <= j < i ==> is_printable_ascii(#[trigger] cs@[j]),
        decreases len - i + if all_printable { 1int } else { 0int },
    {
        let u = cs[i] as u32;
        if 0x20 <= u && u <= 0x7e {
            i += 1;
        } else {
            all_printable = false;
        }
    }
    if all_printable {
        proof {
            lemma_width_printable(cs@, 0);
        }
        return len;
    }
    let mut width: usize = 0;
    let mut in_escape = false;
    let mut k: usize = 0;
    while k < len
        invariant
            k <= len == cs.len(),
            cs@ == s@,
            min_usize((width + width_from(cs@, k as int, in_escape)) as nat) == min_usize(
                spec_display_width(s@),
            ),
        decreases len - k,
    {
        let c = cs[k];
        if in_escape {
            in_escape = !crate::text::is_ascii_alphabetic_char(c);
        } else if c == '\x1b' {
            in_escape = true;
        } else {
            let w = match char_width(c) {
                Some(w) => w,
                None => 0,
            };
            width = width.saturating_add(w);
        }
        k += 1;
    }
    width
}

/// The characters that `truncate_display` keeps from index `i` on, with the
/// width used so far, whether an escape sequence is open, and whether any was
/// met: escape sequences are kept whole, and other characters while they fit.
pub open spec fn truncate_scan(
    s: Seq<char>,
    i: int,
    max: nat,
    cur: nat,
    in_escape: bool,
    had_escape: bool,
    out: Seq<char>,
) -> (Seq<char>, bool, bool)
    decreases s.len() - i,
{
    if i < 0 || i >= s.len() {
        (out, in_escape, had_escape)
    } else {
        let c = s[i];
        if in_escape {
            truncate_scan(
                s,
                i + 1,
                max,
                cur,
                !crate::text::is_ascii_alphabetic(c),
                had_escape,
                out.push(c),
            )
        } else if c == esc() {
            truncate_scan(s, i + 1, max, cur, true, true, out.push(c))
        } else if cur + char_cols(c) > max {
            (out, in_escape, had_escape)
        } else {
            truncate_scan(s, i + 1, max, cur + char_cols(c), false, had_escape, out.push(c))
        }
    }
}

/// The last index before `j` where `c` occurs in `s`.
pub open spec fn rfind_char(s: Seq<char>, c: char, j: int) -> Option<int>
    decreases j,
{
    if j <= 0 || j > s.len() {
        None
    } else if s[j - 1] == c {
        Some(j - 1)
    } else {
        rfind_char(s, c, j - 1)
    }
}

/// `s` cut to at most `max` columns: an escape sequence left open is dropped,
/// and text that had escape sequences ends with `RESET`.
pub open spec fn truncated_text(s: Seq<char>, max: nat) -> Seq<char> {
    let (out, in_escape, had_escape) = truncate_scan(s, 0, max, 0, false, false, Seq::empty());
    let cut = if in_escape {
        match rfind_char(out, esc(), out.len() as int) {
            Some(p) => out.take(p),
            None => out,
        }
    } else {
        out
    };
    if had_escape && !crate::text::ends_with(cut, RESET@) {
        cut + RESET@
    } else {
        cut
    }
}

/// Cuts `s` to at most `max_width` columns without breaking escape sequences.
pub fn truncate_display(s: &str, max_width: usize) -> (r: String)
    ensures
        r@ == truncated_text(s@, max_width as nat),
{
    let cs = chars_of(s);
    let mut out: Vec<char> = Vec::new();
    let mut current_width: usize = 0;
    let mut in_escape = false;
    let mut had_escape = false;
    let mut i: usize = 0;
    while i < cs.len()
        invariant
            i <= cs.len(),
            cs@ == s@,
            current_width <= max_width,
            truncate_scan(cs@, i as int, max_width as nat, current_width as nat, in_escape, had_escape, out@)
                == truncate_scan(cs@, 0, max_width as nat, 0, false, false, Seq::empty()),
        ensures
            truncate_scan(cs@, 0, max_width as nat, 0, false, false, Seq::empty()) == (
                out@,
                in_escape,
                had_escape,
            ),
        decreases cs.len() - i,
    {
        let c = cs[i];
        if in_escape {
            out.push(c);
            if crate::text::is_ascii_alphabetic_char(c) {
                in_escape = false;
            }
        } else if c == '\x1b' {
            in_escape = true;
            had_escape = true;
            out.push(c);
        } else {
            let w = match char_width(c) {
                Some(w) => w,
                None => 0,
            };
            if w > max_width - current_width {
                break;
            }
            out.push(c);
            current_width = current_width + w;
        }
        i += 1;
    }
    let ghost scanned = truncate_scan(cs@, 0, max_width as nat, 0, false, false, Seq::empty());
    assert(scanned == (out@, in_escape, had_escape));
    if in_escape {
        let mut j = out.len();
        while j > 0 && out[j - 1] != '\x1b'
            invariant
                j <= out.len(),
                rfind_char(out@, esc(), out.len() as int) == rfind_char(out@, esc(), j as int),
            decreases j,
        {
            j -= 1;
        }
        if j > 0 {
            out.truncate(j - 1);
        }
    }
    let reset = chars_of(RESET);
    let ends = out.len() >= reset.len() && crate::text::matches_at(&out, &reset, out.len() - reset.len());
    let mut r = crate::text::string_of(&out, 0, out.len());
    assert(out@.subrange(0, out@.len() as int) =~= out@);
    if had_escape && !ends {
        push_str(&mut r, RESET);
    }
    r
}

#[derive(Clone, Debug)]
pub struct Entry {
    pub codes: Vec<&'static str>,
    pub lcontent: String,
    pub rcontent: String,
    pub width: usize,
    pub lw: usize,
    pub rw: usize,
}

/// The columns an entry needs: both contents, with a space between them when
/// both are there (sums cap at `usize::MAX`).
pub open spec fn spec_entry_width(e: Entry) -> nat {
    sat_add(sat_add(e.lw as nat, e.rw as nat), if e.lw > 0 && e.rw > 0 { 1 } else { 0 })
}

/// The style codes of an entry, one after another.
pub open spec fn concat_codes(codes: Seq<&'static str>) -> Seq<char>
    decreases codes.len(),
{
    if codes.len() == 0 {
        Seq::empty()
    } else {
        concat_codes(codes.drop_last()) + codes.last()@
    }
}

pub open spec fn spaces(n: nat) -> Seq<char> {
    Seq::new(n, |i: int| ' ')
}

/// An entry laid out in `col_width` columns: its style codes, the left
/// content, padding, the right content, and `RESET` where it had any style.
pub open spec fn entry_text(e: Entry, col_width: nat) -> Seq<char> {
    let used = sat_add(e.lw as nat, e.rw as nat);
    let pad: nat = if col_width > used { (col_width - used) as nat } else { 0 };
    concat_codes(e.codes@) + e.lcontent@ + spaces(pad) + e.rcontent@ + if e.codes@.len() > 0 {
        RESET@
    } else {
        Seq::empty()
    }
}

/// `r` is `e` with `code` added to its style codes.
pub open spec fn styled_with(r: Entry, e: Entry, code: &'static str) -> bool {
    &&& r.codes@ == e.codes@.push(code)
    &&& r.lcontent == e.lcontent
    &&& r.rcontent == e.rcontent
    &&& r.width == e.width
    &&& r.lw == e.lw
    &&& r.rw == e.rw
}

impl Entry {
    /// An entry with right-aligned text in one cell.
    pub fn text(t: &str) -> (r: Self)
        ensures
            r.codes@ == Seq::<&'static str>::empty(),
            r.lcontent@ == Seq::<char>::empty(),
            r.rcontent@ == t@,
            r.width == 1,
            r.lw == 0,
            r.rw == min_usize(spec_display_width(t@)),
    {
        let rw = display_width(t);
        Entry {
            codes: Vec::new(),
            lcontent: String::new(),
            rcontent: crate::text::owned(t),
            width: 1,
            lw: 0,
            rw,
        }
    }

    /// An entry with left-aligned text in one cell.
    pub fn header(t: &str) -> (r: Self)
        ensures
            r.codes@ == Seq::<&'static str>::empty(),
            r.lcontent@ == t@,
            r.rcontent@ == Seq::<char>::empty(),
            r.width == 1,
            r.lw == min_usize(spec_display_width(t@)),
            r.rw == 0,
    {
        let lw = display_width(t);
        Entry {
            codes: Vec::new(),
            lcontent: crate::text::owned(t),
            rcontent: String::new(),
            width: 1,
            lw,
            rw: 0,
        }
    }

    /// The entry with `t` as its left content.
    pub fn label(self, t: &str) -> (r: Self)
        ensures
            r.codes == self.codes,
            r.lcontent@ == t@,
            r.rcontent == self.rcontent,
            r.width == self.width,
            r.lw == min_usize(spec_display_width(t@)),
            r.rw == self.rw,
    {
        let mut e = self;
        e.lcontent = crate::text::owned(t);
        e.lw = display_width(t);
        e
    }

    /// The entry spread over `width` cells.
    pub fn cells(self, width: usize) -> (r: Self)
        ensures
            r == (Entry { width, ..self }),
    {
        let mut e = self;
        e.width = width;
        e
    }

    /// The entry with one more style code.
    pub fn styled(self, code: &'static str) -> (r: Self)
        ensures
            styled_with(r, self, code),
    {
        let mut e = self;
        e.codes.push(code);
        e
    }

    pub fn bold(self) -> (r: Self)
        ensures
            styled_with(r, self, BOLD),
    {
        self.styled(BOLD)
    }

    pub fn red(self) -> (r: Self)
        ensures
            styled_with(r, self, RED),
    {
        self.styled(RED)
    }

    pub fn green(self) -> (r: Self)
        ensures
            styled_with(r, self, GREEN),
    {
        self.styled(GREEN)
    }

    pub fn yellow(self) -> (r: Self)
        ensures
            styled_with(r, self, YELLOW),
    {
        self.styled(YELLOW)
    }

    pub fn blue(self) -> (r: Self)
        ensures
            styled_with(r, self, BLUE),
    {
        self.styled(BLUE)
    }

    pub fn magenta(self) -> (r: Self)
        ensures
            styled_with(r, self, MAGENTA),
    {
        self.styled(MAGENTA)
    }

    pub fn grey(self) -> (r: Self)
        ensures
            styled_with(r, self, GREY),
    {
        self.styled(GREY)
    }

    /// The columns the entry needs.
    pub fn entry_width(&self) -> (r: usize)
        ensures
            r == spec_entry_width(*self),
    {
        let sep: usize = if self.lw > 0 && self.rw > 0 {
            1
        } else {
            0
        };
        self.lw.saturating_add(self.rw).saturating_add(sep)
    }
}

/// Lays out one entry in `col_width` columns.
fn render_entry(entry: &Entry, col_width: usize) -> (r: String)
    ensures
        r@ == entry_text(*entry, col_width as nat),
{
    let mut out = String::new();
    let mut k: usize = 0;
    while k < entry.codes.len()
        invariant
            k <= entry.codes@.len(),
            out@ == concat_codes(entry.codes@.take(k as int)),
        decreases entry.codes.len() - k,
    {
        push_str(&mut out, entry.codes[k]);
        assert(entry.codes@.take(k + 1).drop_last() == entry.codes@.take(k as int));
        k += 1;
    }
    assert(entry.codes@.take(entry.codes.len() as int) == entry.codes@);
    push_str(&mut out, entry.lcontent.as_str());
    let used = entry.lw.saturating_add(entry.rw);
    let needed_spaces: usize = if col_width > used {
        col_width - used
    } else {
        0
    };
    let mut n: usize = 0;
    let ghost before = out@;
    while n < needed_spaces
        invariant
            n <= needed_spaces,
            out@ == before + spaces(n as nat),
        decreases needed_spaces - n,
    {
        push_char(&mut out, ' ');
        assert(spaces((n + 1) as nat) == spaces(n as nat).push(' '));
        n += 1;
    }
    push_str(&mut out, entry.rcontent.as_str());
    if entry.codes.len() > 0 {
        push_str(&mut out, RESET);
    }
    proof {
        reveal_strlit("");
    }
    assert(out@ =~= entry_text(*entry, col_width as nat));
    out
}

/// Styles `text` with `style_fn` and lays it out in exactly the columns it needs.
pub fn markup<F: Fn(Entry) -> Entry>(style_fn: F, text: &str) -> (r: String)
    requires
        forall|e: Entry| style_fn.requires((e,)),
    ensures
        exists|e: Entry|
            {
                &&& e.codes@.len() == 0
                &&& e.lcontent@.len() == 0
                &&& e.rcontent@ == text@
                &&& e.width == 1
                &&& e.lw == 0
                &&& e.rw == min_usize(spec_display_width(text@))
                &&& exists|styled: Entry|
                    style_fn.ensures((e,), styled) && r@ == entry_text(
                        styled,
                        spec_entry_width(styled),
                    )
            },
{
    let plain = Entry::text(text);
    let ghost p = plain;
    let entry = style_fn(plain);
    let w = entry.entry_width();
    let r = render_entry(&entry, w);
    assert(style_fn.ensures((p,), entry));
    r
}

/// Joins rows into lines, the first led by `top`, the last by `bot` and the
/// others by `mid`; a single row is led by `top`.
pub open spec fn prepended_text(top: Seq<char>, mid: Seq<char>, bot: Seq<char>, rows: Seq<Seq<char>>) -> Seq<char>
    decreases rows.len(),
{
    if rows.len() == 0 {
        Seq::empty()
    } else if rows.len() == 1 {
        top + rows[0]
    } else {
        prepend_prefix(top, mid, rows.drop_last()) + seq!['\n'] + bot + rows.last()
    }
}

/// The lines of `rows`, the first led by `top` and the others by `mid`,
/// joined by newlines.
pub open spec fn prepend_prefix(top: Seq<char>, mid: Seq<char>, rows: Seq<Seq<char>>) -> Seq<char>
    decreases rows.len(),
{
    if rows.len() == 0 {
        Seq::empty()
    } else if rows.len() == 1 {
        top + rows[0]
    } else {
        prepend_prefix(top, mid, rows.drop_last()) + seq!['\n'] + mid + rows.last()
    }
}

/// Frames the rows with the given line prefixes.
pub fn prepend_lines(top: &str, mid: &str, bot: &str, rows: &Vec<String>) -> (r: String)
    ensures
        r@ == prepended_text(top@, mid@, bot@, rows@.map_values(|s: String| s@)),
{
    let ghost views = rows@.map_values(|s: String| s@);
    if rows.len() == 0 {
        return String::new();
    }
    if rows.len() == 1 {
        let mut out = crate::text::owned(top);
        push_str(&mut out, rows[0].as_str());
        return out;
    }
    let mut out = String::new();
    let mut i: usize = 0;
    while i < rows.len() - 1
        invariant
            2 <= rows.len(),
            i <= rows.len() - 1,
            views == rows@.map_values(|s: String| s@),
            out@ == prepend_prefix(top@, mid@, views.take(i as int)),
        decreases rows.len() - i,
    {
        if i == 0 {
            push_str(&mut out, top);
        } else {
            push_char(&mut out, '\n');
            push_str(&mut out, mid);
        }
        push_str(&mut out, rows[i].as_str());
        proof {
            assert(views.take(i + 1).drop_last() =~= views.take(i as int));
            if i == 0 {
                assert(out@ =~= top@ + views[0]);
            } else {
                assert(out@ =~= prepend_prefix(top@, mid@, views.take(i as int)) + seq!['\n'] + mid@ + views[i as int]);
            }
        }
        i += 1;
    }
    push_char(&mut out, '\n');
    push_str(&mut out, bot);
    push_str(&mut out, rows[rows.len() - 1].as_str());
    assert(views.drop_last() =~= views.take(i as int));
    assert(out@ =~= prepend_prefix(top@, mid@, views.drop_last()) + seq!['\n'] + bot@ + views.last());
    out
}

/// The product `a * b`, or `usize::MAX` where it does not fit.
pub open spec fn sat_mul(a: nat, b: nat) -> nat {
    min_usize(a * b)
}

pub open spec fn widths_view(v: Seq<usize>) -> Seq<nat> {
    v.map_values(|x: usize| x as nat)
}

/// The cells a row covers.
pub open spec fn row_cells(row: Seq<Entry>) -> nat
    decreases row.len(),
{
    if row.len() == 0 {
        0
    } else {
        sat_add(row_cells(row.drop_last()), row.last().width as nat)
    }
}

/// The cells of the widest row.
pub open spec fn max_row_cells(rows: Seq<Vec<Entry>>) -> nat
    decreases rows.len(),
{
    if rows.len() == 0 {
        0
    } else {
        let m = max_row_cells(rows.drop_last());
        let c = row_cells(rows.last()@);
        if c > m {
            c
        } else {
            m
        }
    }
}

/// Column widths after the single-cell entries of `row` from `k` on, at
/// column `col`, have widened them to their needs.
pub open spec fn widen_row(row: Seq<Entry>, k: int, col: nat, cw: Seq<nat>) -> Seq<nat>
    decreases row.len() - k,
{
    if k < 0 || k >= row.len() {
        cw
    } else {
        let e = row[k];
        let w = spec_entry_width(e);
        let cw2 = if e.width == 1 && col < cw.len() && w > cw[col as int] {
            cw.update(col as int, w)
        } else {
            cw
        };
        widen_row(row, k + 1, sat_add(col, e.width as nat), cw2)
    }
}

pub open spec fn widen_rows(rows: Seq<Vec<Entry>>, r: int, cw: Seq<nat>) -> Seq<nat>
    decreases rows.len() - r,
{
    if r < 0 || r >= rows.len() {
        cw
    } else {
        widen_rows(rows, r + 1, widen_row(rows[r]@, 0, 0, cw))
    }
}

/// The sum of `count` column widths from `start` on; columns past the end count 0.
pub open spec fn col_sum(cw: Seq<nat>, start: nat, count: nat) -> nat
    decreases count,
{
    if count == 0 {
        0
    } else {
        sat_add(
            col_sum(cw, start, (count - 1) as nat),
            if start + count - 1 < cw.len() {
                cw[start + count - 1]
            } else {
                0
            },
        )
    }
}

/// The columns an entry spanning `width` cells from `col` gets: the cells'
/// widths and the separators between them.
pub open spec fn span_width(cw: Seq<nat>, col: nat, width: nat, sep_w: nat) -> nat {
    sat_add(col_sum(cw, col, width), sat_mul(sep_w, if width > 0 { (width - 1) as nat } else { 0 }))
}

/// The widths with `diff` more columns spread over the `width` cells from
/// `col`, the first `diff % width` of them taking one more than the others.
pub open spec fn distribute(cw: Seq<nat>, col: nat, width: nat, diff: nat) -> Seq<nat> {
    Seq::new(
        cw.len(),
        |i: int|
            if col <= i && i < col + width {
                sat_add(cw[i], diff / width + if i - col < diff % width { 1nat } else { 0nat })
            } else {
                cw[i]
            },
    )
}

/// Column widths after the multi-cell entries of `row` from `k` on have
/// spread what they need beyond their span over their cells.
pub open spec fn spread_row(row: Seq<Entry>, k: int, col: nat, cw: Seq<nat>, sep_w: nat) -> Seq<nat>
    decreases row.len() - k,
{
    if k < 0 || k >= row.len() {
        cw
    } else {
        let e = row[k];
        let cw2 = if e.width > 1 {
            let sp = span_width(cw, col, e.width as nat, sep_w);
            let need = spec_entry_width(e);
            if need > sp {
                distribute(cw, col, e.width as nat, (need - sp) as nat)
            } else {
                cw
            }
        } else {
            cw
        };
        spread_row(row, k + 1, sat_add(col, e.width as nat), cw2, sep_w)
    }
}

pub open spec fn spread_rows(rows: Seq<Vec<Entry>>, r: int, cw: Seq<nat>, sep_w: nat) -> Seq<nat>
    decreases rows.len() - r,
{
    if r < 0 || r >= rows.len() {
        cw
    } else {
        spread_rows(rows, r + 1, spread_row(rows[r]@, 0, 0, cw, sep_w), sep_w)
    }
}

/// The column widths of a table: every single-cell entry fits its column,
/// then multi-cell entries widen the columns they span, in order.
pub open spec fn table_widths(rows: Seq<Vec<Entry>>, sep_w: nat) -> Seq<nat> {
    spread_rows(
        rows,
        0,
        widen_rows(rows, 0, Seq::new(max_row_cells(rows), |i: int| 0nat)),
        sep_w,
    )
}

/// The text of a row from entry `k` on, at column `col`: entries laid out in
/// their spans, separated by `sep`.
pub open spec fn row_text(row: Seq<Entry>, k: int, col: nat, cw: Seq<nat>, sep: Seq<char>, sep_w: nat) -> Seq<char>
    decreases row.len() - k,
{
    if k < 0 || k >= row.len() {
        Seq::empty()
    } else {
        let e = row[k];
        (if k > 0 {
            sep
        } else {
            Seq::empty()
        }) + entry_text(e, span_width(cw, col, e.width as nat, sep_w)) + row_text(
            row,
            k + 1,
            sat_add(col, e.width as nat),
            cw,
            sep,
            sep_w,
        )
    }
}

fn row_cell_count(row: &Vec<Entry>) -> (r: usize)
    ensures
        r == row_cells(row@),
{
    let mut sum: usize = 0;
    let mut k: usize = 0;
    while k < row.len()
        invariant
            k <= row.len(),
            sum == row_cells(row@.take(k as int)),
        decreases row.len() - k,
    {
        assert(row@.take(k + 1).drop_last() == row@.take(k as int));
        sum = sum.saturating_add(row[k].width);
        k += 1;
    }
    assert(row@.take(row.len() as int) == row@);
    sum
}

fn widen_row_exec(row: &Vec<Entry>, cw: &mut Vec<usize>)
    ensures
        widths_view(final(cw)@) == widen_row(row@, 0, 0, widths_view(old(cw)@)),
{
    let mut col: usize = 0;
    let mut k: usize = 0;
    while k < row.len()
        invariant
            k <= row.len(),
            widen_row(row@, 0, 0, widths_view(old(cw)@)) == widen_row(
                row@,
                k as int,
                col as nat,
                widths_view(cw@),
            ),
        decreases row.len() - k,
    {
        let e = &row[k];
        let ghost prev = widths_view(cw@);
        if e.width == 1 {
            let w = e.entry_width();
            if col < cw.len() && w > cw[col] {
                cw.set(col, w);
                assert(widths_view(cw@) =~= prev.update(col as int, w as nat));
            }
        }
        col = col.saturating_add(e.width);
        k += 1;
    }
}

proof fn lemma_col_sum_past_end(cw: Seq<nat>, start: nat, m: nat, count: nat)
    requires
        m <= count,
        start + m >= cw.len(),
    ensures
        col_sum(cw, start, count) == col_sum(cw, start, m),
    decreases count,
{
    if count > m {
        lemma_col_sum_past_end(cw, start, m, (count - 1) as nat);
    }
}

fn sat_mul_exec(a: usize, b: usize) -> (r: usize)
    ensures
        r == sat_mul(a as nat, b as nat),
{
    match a.checked_mul(b) {
        Some(p) => p,
        None => usize::MAX,
    }
}

fn span_exec(cw: &Vec<usize>, col: usize, width: usize, sep_w: usize) -> (r: usize)
    ensures
        r == span_width(widths_view(cw@), col as nat, width as nat, sep_w as nat),
{
    let ghost v = widths_view(cw@);
    let m: usize = if col >= cw.len() {
        0
    } else if width < cw.len() - col {
        width
    } else {
        cw.len() - col
    };
    let mut sum: usize = 0;
    let mut o: usize = 0;
    while o < m
        invariant
            o <= m <= width,
            col + m <= cw.len() || m == 0,
            v == widths_view(cw@),
            sum == col_sum(v, col as nat, o as nat),
        decreases m - o,
    {
        sum = sum.saturating_add(cw[col + o]);
        o += 1;
    }
    proof {
        if m < width {
            lemma_col_sum_past_end(v, col as nat, m as nat, width as nat);
        }
    }
    let seps = if width > 0 {
        sat_mul_exec(sep_w, width - 1)
    } else {
        0
    };
    sum.saturating_add(seps)
}

fn distribute_exec(cw: &mut Vec<usize>, col: usize, width: usize, diff: usize)
    requires
        width > 1,
    ensures
        widths_view(final(cw)@) == distribute(
            widths_view(old(cw)@),
            col as nat,
            width as nat,
            diff as nat,
        ),
{
    let ghost v0 = widths_view(old(cw)@);
    let extra_per_col = diff / width;
    let remainder = diff % width;
    assert(extra_per_col <= usize::MAX / 2) by (nonlinear_arith)
        requires
            width >= 2,
            extra_per_col == diff / width,
            diff <= usize::MAX,
    ;
    let mut o: usize = 0;
    while o < width && col < cw.len() && o < cw.len() - col
        invariant
            cw@.len() == v0.len(),
            o <= width,
            width > 1,
            extra_per_col == diff / width,
            remainder == diff % width,
            extra_per_col <= usize::MAX / 2,
            widths_view(cw@) == Seq::new(
                v0.len(),
                |i: int|
                    if col <= i && i < col + o {
                        sat_add(
                            v0[i],
                            diff as nat / width as nat + if i - col < diff as nat % width as nat {
                                1nat
                            } else {
                                0nat
                            },
                        )
                    } else {
                        v0[i]
                    },
            ),
        decreases width - o,
    {
        let idx = col + o;
        let add: usize = if o < remainder {
            extra_per_col + 1
        } else {
            extra_per_col
        };
        let ghost prev = widths_view(cw@);
        assert(prev[idx as int] == v0[idx as int]);
        let nv = cw[idx].saturating_add(add);
        assert(add as nat == diff as nat / width as nat + if (idx - col) < diff as nat % width as nat {
            1nat
        } else {
            0nat
        });
        assert(nv as nat == sat_add(v0[idx as int], add as nat));
        cw.set(idx, nv);
        assert(widths_view(cw@) =~= prev.update(idx as int, nv as nat));
        assert(widths_view(cw@) =~= Seq::new(
            v0.len(),
            |i: int|
                if col <= i && i < col + o + 1 {
                    sat_add(
                        v0[i],
                        diff as nat / width as nat + if i - col < diff as nat % width as nat {
                            1nat
                        } else {
                            0nat
                        },
                    )
                } else {
                    v0[i]
                },
        ));
        o += 1;
    }
    assert(widths_view(cw@) =~= distribute(v0, col as nat, width as nat, diff as nat));
}

fn spread_row_exec(row: &Vec<Entry>, cw: &mut Vec<usize>, sep_w: usize)
    ensures
        widths_view(final(cw)@) == spread_row(row@, 0, 0, widths_view(old(cw)@), sep_w as nat),
{
    let mut col: usize = 0;
    let mut k: usize = 0;
    while k < row.len()
        invariant
            k <= row.len(),
            spread_row(row@, 0, 0, widths_view(old(cw)@), sep_w as nat) == spread_row(
                row@,
                k as int,
                col as nat,
                widths_view(cw@),
                sep_w as nat,
            ),
        decreases row.len() - k,
    {
        let e = &row[k];
        if e.width > 1 {
            let sp = span_exec(cw, col, e.width, sep_w);
            let need = e.entry_width();
            if need > sp {
                distribute_exec(cw, col, e.width, need - sp);
            }
        }
        col = col.saturating_add(e.width);
        k += 1;
    }
}

fn render_row(row: &Vec<Entry>, cw: &Vec<usize>, sep: &str, sep_w: usize) -> (r: String)
    ensures
        r@ == row_text(row@, 0, 0, widths_view(cw@), sep@, sep_w as nat),
{
    let ghost v = widths_view(cw@);
    let mut out = String::new();
    let mut col: usize = 0;
    let mut k: usize = 0;
    while k < row.len()
        invariant
            k <= row.len(),
            v == widths_view(cw@),
            row_text(row@, 0, 0, v, sep@, sep_w as nat) == out@ + row_text(
                row@,
                k as int,
                col as nat,
                v,
                sep@,
                sep_w as nat,
            ),
        decreases row.len() - k,
    {
        let e = &row[k];
        let ghost before = out@;
        if k > 0 {
            push_str(&mut out, sep);
        }
        let span = span_exec(cw, col, e.width, sep_w);
        let t = render_entry(e, span);
        push_str(&mut out, t.as_str());
        assert(out@ =~= before + (if k > 0 {
            sep@
        } else {
            Seq::empty()
        }) + entry_text(*e, span as nat));
        col = col.saturating_add(e.width);
        k += 1;
    }
    assert(out@ + Seq::<char>::empty() =~= out@);
    out
}

/// Lays out rows of entries as an aligned table, cells separated by `sep`.
pub fn print_aligned_table(rows: &[Vec<Entry>], sep: &str) -> (r: Vec<String>)
    ensures
        r@.len() == rows@.len(),
        forall|i: int|
            0 <= i < rows@.len() ==> (#[trigger] r@[i])@ == row_text(
                rows@[i]@,
                0,
                0,
                table_widths(rows@, min_usize(spec_display_width(sep@))),
                sep@,
                min_usize(spec_display_width(sep@)),
            ),
{
    if rows.len() == 0 {
        return Vec::new();
    }
    let mut num_cols: usize = 0;
    let mut i: usize = 0;
    while i < rows.len()
        invariant
            i <= rows@.len(),
            num_cols == max_row_cells(rows@.take(i as int)),
        decreases rows.len() - i,
    {
        assert(rows@.take(i + 1).drop_last() == rows@.take(i as int));
        let c = row_cell_count(&rows[i]);
        if c > num_cols {
            num_cols = c;
        }
        i += 1;
    }
    assert(rows@.take(rows@.len() as int) == rows@);
    let mut col_widths: Vec<usize> = Vec::new();
    let mut n: usize = 0;
    while n < num_cols
        invariant
            n <= num_cols,
            col_widths@.len() == n,
            widths_view(col_widths@) == Seq::new(n as nat, |i: int| 0nat),
        decreases num_cols - n,
    {
        let ghost prev = col_widths@;
        col_widths.push(0);
        assert(col_widths@ == prev.push(0usize));
        assert forall|i: int| 0 <= i < n + 1 implies widths_view(col_widths@)[i] == 0nat by {
            if i < n {
                assert(widths_view(prev)[i] == 0nat);
                assert(col_widths@[i] == prev[i]);
            }
        }
        assert(widths_view(col_widths@) =~= Seq::new((n + 1) as nat, |i: int| 0nat));
        n += 1;
    }
    let ghost start = widths_view(col_widths@);
    let mut r: usize = 0;
    while r < rows.len()
        invariant
            r <= rows@.len(),
            widen_rows(rows@, 0, start) == widen_rows(rows@, r as int, widths_view(col_widths@)),
        decreases rows.len() - r,
    {
        widen_row_exec(&rows[r], &mut col_widths);
        r += 1;
    }
    let sep_w = display_width(sep);
    let ghost widened = widths_view(col_widths@);
    let mut r2: usize = 0;
    while r2 < rows.len()
        invariant
            r2 <= rows@.len(),
            spread_rows(rows@, 0, widened, sep_w as nat) == spread_rows(
                rows@,
                r2 as int,
                widths_view(col_widths@),
                sep_w as nat,
            ),
        decreases rows.len() - r2,
    {
        spread_row_exec(&rows[r2], &mut col_widths, sep_w);
        r2 += 1;
    }
    assert(widths_view(col_widths@) == table_widths(rows@, sep_w as nat));
    let mut result: Vec<String> = Vec::new();
    let mut r3: usize = 0;
    while r3 < rows.len()
        invariant
            r3 <= rows@.len(),
            result@.len() == r3,
            widths_view(col_widths@) == table_widths(rows@, sep_w as nat),
            sep_w == min_usize(spec_display_width(sep@)),
            forall|i: int|
                0 <= i < r3 ==> (#[trigger] result@[i])@ == row_text(
                    rows@[i]@,
                    0,
                    0,
                    table_widths(rows@, sep_w as nat),
                    sep@,
                    sep_w as nat,
                ),
        decreases rows.len() - r3,
    {
        let line = render_row(&rows[r3], &col_widths, sep, sep_w);
        result.push(line);
        r3 += 1;
    }
    result
}

proof fn lemma_scan_keeps_escape_flag(
    s: Seq<char>,
    i: int,
    max: nat,
    cur: nat,
    in_escape: bool,
    out: Seq<char>,
)
    ensures
        truncate_scan(s, i, max, cur, in_escape, true, out).2,
    decreases s.len() - i,
{
    if 0 <= i < s.len() {
        let c = s[i];
        if in_escape {
            lemma_scan_keeps_escape_flag(s, i + 1, max, cur, !crate::text::is_ascii_alphabetic(c), out.push(c));
        } else if c == esc() {
            lemma_scan_keeps_escape_flag(s, i + 1, max, cur, true, out.push(c));
        } else if cur + char_cols(c) <= max {
            lemma_scan_keeps_escape_flag(s, i + 1, max, cur + char_cols(c), false, out.push(c));
        }
    }
}

/// Styled text stays closed when it is cut: text that starts with an
/// escape sequence ends with `RESET` after truncation, whatever the width.
pub proof fn lemma_truncated_styled_text_ends_with_reset(s: Seq<char>, max: nat)
    requires
        s.len() > 0,
        s[0] == esc(),
    ensures
        crate::text::ends_with(truncated_text(s, max), RESET@),
{
    lemma_scan_keeps_escape_flag(s, 1, max, 0, true, seq![s[0]]);
    assert(Seq::<char>::empty().push(s[0]) =~= seq![s[0]]);
    let (out, in_escape, had_escape) = truncate_scan(s, 0, max, 0, false, false, Seq::empty());
    assert(had_escape);
    let cut = if in_escape {
        match rfind_char(out, esc(), out.len() as int) {
            Some(p) => out.take(p),
            None => out,
        }
    } else {
        out
    };
    if !crate::text::ends_with(cut, RESET@) {
        let r = cut + RESET@;
        assert(r.subrange(r.len() - RESET@.len(), r.len() as int) =~= RESET@);
    }
}


/// Whether an escape sequence is open after reading `s` from index `i` on,
/// starting in state `in_escape`.
pub open spec fn escape_after(s: Seq<char>, i: int, in_escape: bool) -> bool
    decreases s.len() - i,
{
    if i < 0 || i >= s.len() {
        in_escape
    } else if in_escape {
        escape_after(s, i + 1, !crate::text::is_ascii_alphabetic(s[i]))
    } else if s[i] == esc() {
        escape_after(s, i + 1, true)
    } else {
        escape_after(s, i + 1, false)
    }
}

proof fn lemma_width_shift(t: Seq<char>, u: Seq<char>, j: int, e: bool)
    requires
        0 <= j <= u.len(),
    ensures
        width_from(t + u, t.len() + j, e) == width_from(u, j, e),
        escape_after(t + u, t.len() + j, e) == escape_after(u, j, e),
    decreases u.len() - j,
{
    if j < u.len() {
        assert((t + u)[t.len() + j] == u[j]);
        lemma_width_shift(t, u, j + 1, true);
        lemma_width_shift(t, u, j + 1, false);
        lemma_width_shift(t, u, j + 1, !crate::text::is_ascii_alphabetic(u[j]));
    }
}

proof fn lemma_width_concat(t: Seq<char>, u: Seq<char>, i: int, e: bool)
    requires
        0 <= i <= t.len(),
    ensures
        width_from(t + u, i, e) == width_from(t, i, e) + width_from(u, 0, escape_after(t, i, e)),
        escape_after(t + u, i, e) == escape_after(u, 0, escape_after(t, i, e)),
    decreases t.len() - i,
{
    if i == t.len() {
        lemma_width_shift(t, u, 0, e);
    } else {
        assert((t + u)[i] == t[i]);
        lemma_width_concat(t, u, i + 1, true);
        lemma_width_concat(t, u, i + 1, false);
        lemma_width_concat(t, u, i + 1, !crate::text::is_ascii_alphabetic(t[i]));
    }
}

proof fn lemma_width_push(t: Seq<char>, c: char)
    ensures
        width_from(t.push(c), 0, false) == width_from(t, 0, false) + if escape_after(t, 0, false) || c == esc() {
            0nat
        } else {
            char_cols(c)
        },
        escape_after(t.push(c), 0, false) == if escape_after(t, 0, false) {
            !crate::text::is_ascii_alphabetic(c)
        } else {
            c == esc()
        },
{
    let u = seq![c];
    assert(t.push(c) =~= t + u);
    lemma_width_concat(t, u, 0, false);
    assert(u[0] == c);
    assert(width_from(u, 1, true) == 0 && width_from(u, 1, false) == 0);
    assert(escape_after(u, 1, true) && !escape_after(u, 1, false));
}

proof fn lemma_scan_width(s: Seq<char>, i: int, max: nat, cur: nat, in_escape: bool, had_escape: bool, out: Seq<char>)
    requires
        cur == width_from(out, 0, false),
        in_escape == escape_after(out, 0, false),
        cur <= max,
    ensures
        width_from(truncate_scan(s, i, max, cur, in_escape, had_escape, out).0, 0, false) <= max,
        truncate_scan(s, i, max, cur, in_escape, had_escape, out).1 == escape_after(
            truncate_scan(s, i, max, cur, in_escape, had_escape, out).0,
            0,
            false,
        ),
    decreases s.len() - i,
{
    if 0 <= i < s.len() {
        let c = s[i];
        lemma_width_push(out, c);
        if in_escape {
            lemma_scan_width(s, i + 1, max, cur, !crate::text::is_ascii_alphabetic(c), had_escape, out.push(c));
        } else if c == esc() {
            lemma_scan_width(s, i + 1, max, cur, true, true, out.push(c));
        } else if cur + char_cols(c) <= max {
            lemma_scan_width(s, i + 1, max, cur + char_cols(c), false, had_escape, out.push(c));
        }
    }
}

proof fn lemma_reset_width(e: bool)
    ensures
        width_from(RESET@, 0, e) == 0,
{
    reveal_strlit("\x1b[0m");
    assert(RESET@.len() == 4);
    assert(RESET@[0] == esc());
    assert(!crate::text::is_ascii_alphabetic(RESET@[0]));
    assert(!crate::text::is_ascii_alphabetic(RESET@[1]));
    assert(!crate::text::is_ascii_alphabetic(RESET@[2]));
    assert(crate::text::is_ascii_alphabetic(RESET@[3]));
    assert(width_from(RESET@, 4, false) == 0);
    assert(width_from(RESET@, 3, true) == 0);
    assert(width_from(RESET@, 2, true) == 0);
    assert(width_from(RESET@, 1, true) == 0);
    assert(width_from(RESET@, 0, true) == 0);
    assert(width_from(RESET@, 0, false) == 0);
}

/// Cutting never leaves more than `max` columns: escape sequences take no
/// room, and the `RESET` that closes styled text takes none either.
pub proof fn lemma_truncated_text_fits(s: Seq<char>, max: nat)
    ensures
        spec_display_width(truncated_text(s, max)) <= max,
{
    let (out, in_escape, had_escape) = truncate_scan(s, 0, max, 0, false, false, Seq::empty());
    lemma_scan_width(s, 0, max, 0, false, false, Seq::empty());
    let cut = if in_escape {
        match rfind_char(out, esc(), out.len() as int) {
            Some(p) => out.take(p),
            None => out,
        }
    } else {
        out
    };
    assert(width_from(cut, 0, false) <= max) by {
        if cut != out {
            let p = rfind_char(out, esc(), out.len() as int)->0;
            lemma_rfind_in_range(out, esc(), out.len() as int);
            assert(out =~= out.take(p) + out.skip(p));
            lemma_width_concat(out.take(p), out.skip(p), 0, false);
        }
    }
    if had_escape && !crate::text::ends_with(cut, RESET@) {
        lemma_width_concat(cut, RESET@, 0, false);
        lemma_reset_width(escape_after(cut, 0, false));
    }
}

proof fn lemma_rfind_in_range(s: Seq<char>, c: char, j: int)
    ensures
        rfind_char(s, c, j) is Some ==> 0 <= rfind_char(s, c, j)->0 < j <= s.len(),
    decreases j,
{
    if 0 < j <= s.len() && s[j - 1] != c {
        lemma_rfind_in_range(s, c, j - 1);
    }
}


proof fn lemma_width_of_stripped(s: Seq<char>, i: int, e: bool)
    ensures
        width_from(s, i, e) == width_from(crate::parser::old_style::strip_from(s, i, e), 0, false),
    decreases s.len() - i,
{
    let t = crate::parser::old_style::strip_from(s, i, e);
    if i < 0 || i >= s.len() {
        assert(t =~= Seq::<char>::empty());
    } else if e {
        lemma_width_of_stripped(s, i + 1, !crate::text::is_ascii_alphabetic(s[i]));
    } else if s[i] == esc() {
        lemma_width_of_stripped(s, i + 1, true);
    } else {
        lemma_width_of_stripped(s, i + 1, false);
        let rest = crate::parser::old_style::strip_from(s, i + 1, false);
        let c = seq![s[i]];
        assert(t == c + rest);
        assert((c + rest)[0] == s[i]);
        lemma_width_shift(c, rest, 0, false);
        assert(c.len() + 0 == 1);
    }
}

/// Escape sequences take no room: a text is as wide as the text with its
/// escape sequences removed.
pub proof fn lemma_width_ignores_escapes(s: Seq<char>)
    ensures
        spec_display_width(s) == spec_display_width(crate::parser::old_style::strip_ansi(s)),
{
    lemma_width_of_stripped(s, 0, false);
}

/// A text of printable ASCII is as wide as it is long, in characters and in
/// bytes.
pub proof fn lemma_printable_width_is_length(s: Seq<char>)
    requires
        forall|i: int| 0 <= i < s.len() ==> is_printable_ascii(#[trigger] s[i]),
    ensures
        spec_display_width(s) == s.len(),
        crate::parser::old_style::utf8_len(s) == s.len(),
    decreases s.len(),
{
    lemma_width_printable(s, 0);
    if s.len() > 0 {
        let d = s.drop_last();
        assert forall|i: int| 0 <= i < d.len() implies is_printable_ascii(#[trigger] d[i]) by {
            assert(d[i] == s[i]);
        }
        lemma_printable_width_is_length(d);
        assert(is_printable_ascii(s[s.len() - 1]));
    }
}

proof fn lemma_scan_prefix(s: Seq<char>, i: int, max: nat, cur: nat, in_escape: bool, had_escape: bool, out: Seq<char>)
    requires
        0 <= i <= s.len(),
        out == s.take(i),
    ensures
        truncate_scan(s, i, max, cur, in_escape, had_escape, out).0.len() <= s.len(),
        truncate_scan(s, i, max, cur, in_escape, had_escape, out).0 == s.take(
            truncate_scan(s, i, max, cur, in_escape, had_escape, out).0.len() as int,
        ),
    decreases s.len() - i,
{
    if i < s.len() {
        let c = s[i];
        assert(out.push(c) =~= s.take(i + 1));
        if in_escape {
            lemma_scan_prefix(s, i + 1, max, cur, !crate::text::is_ascii_alphabetic(c), had_escape, out.push(c));
        } else if c == esc() {
            lemma_scan_prefix(s, i + 1, max, cur, true, true, out.push(c));
        } else if cur + char_cols(c) <= max {
            lemma_scan_prefix(s, i + 1, max, cur + char_cols(c), false, had_escape, out.push(c));
        }
    }
}

proof fn lemma_scan_whole(s: Seq<char>, i: int, max: nat, cur: nat, out: Seq<char>)
    requires
        0 <= i <= s.len(),
        out == s.take(i),
        forall|j: int| 0 <= j < s.len() ==> s[j] != esc(),
        cur + width_from(s, i, false) <= max,
    ensures
        truncate_scan(s, i, max, cur, false, false, out) == (s, false, false),
    decreases s.len() - i,
{
    if i < s.len() {
        let c = s[i];
        assert(out.push(c) =~= s.take(i + 1));
        lemma_scan_whole(s, i + 1, max, cur + char_cols(c), out.push(c));
    } else {
        assert(out =~= s);
    }
}

/// Truncation keeps a beginning of the text, followed by `RESET` where the
/// text had escape sequences; a text without escape sequences that fits
/// in `max` columns is kept whole.
pub proof fn lemma_truncation_keeps_a_prefix(s: Seq<char>, max: nat)
    ensures
        exists|k: int| 0 <= k <= s.len() && (truncated_text(s, max) == s.take(k) || truncated_text(s, max) == s.take(k) + RESET@),
        (forall|j: int| 0 <= j < s.len() ==> s[j] != esc()) && spec_display_width(s) <= max ==> truncated_text(s, max) == s,
{
    let (out, in_escape, had_escape) = truncate_scan(s, 0, max, 0, false, false, Seq::empty());
    assert(Seq::<char>::empty() =~= s.take(0));
    lemma_scan_prefix(s, 0, max, 0, false, false, Seq::empty());
    let n = out.len() as int;
    let cut = if in_escape {
        match rfind_char(out, esc(), out.len() as int) {
            Some(p) => out.take(p),
            None => out,
        }
    } else {
        out
    };
    let k = if in_escape {
        match rfind_char(out, esc(), out.len() as int) {
            Some(p) => {
                lemma_rfind_in_range(out, esc(), out.len() as int);
                assert(out.take(p) =~= s.take(p));
                p
            },
            None => n,
        }
    } else {
        n
    };
    assert(cut == s.take(k));
    assert(0 <= k <= s.len());
    if (forall|j: int| 0 <= j < s.len() ==> s[j] != esc()) && spec_display_width(s) <= max {
        lemma_scan_whole(s, 0, max, 0, Seq::empty());
    }
}

} // verus!
