//! Drawing frames on the terminal: nix's own output scrolls above, and the
//! monitor's display is redrawn below it in place.
use vstd::prelude::*;
use crate::render::table::{display_width, min_usize, sat_add, spec_display_width, RESET};
use crate::text::{
    chars_of, line_views, lines_of, push_str, split_lines, string_of, trim, trimmed,
};

verus! {

pub const START_ATOMIC_UPDATE: &'static str = "\x1b[?2026h";
pub const END_ATOMIC_UPDATE: &'static str = "\x1b[?2026l";
pub const HIDE_CURSOR: &'static str = "\x1b[?25l";
pub const SHOW_CURSOR: &'static str = "\x1b[?25h";
pub const CLEAR_LINE: &'static str = "\x1b[2K";
pub const CURSOR_TO_COL_0: &'static str = "\r";
pub const CURSOR_UP_1: &'static str = "\x1b[1A";
pub const CURSOR_PREV_LINE_1: &'static str = "\x1b[1F";
pub const CURSOR_NEXT_LINE_1: &'static str = "\x1b[1E";

/// What the terminal shows below nix's output: how many lines the last
/// frame took.
#[derive(Debug)]
pub struct TerminalRenderer {
    pub last_printed_line_count: usize,
}

/// The end of `l.take(j)` without trailing carriage returns.
pub open spec fn cr_end(l: Seq<char>, j: int) -> int
    decreases j,
{
    if 0 < j <= l.len() && l[j - 1] == '\r' {
        cr_end(l, j - 1)
    } else {
        j
    }
}

pub open spec fn cr_trimmed(l: Seq<char>) -> Seq<char> {
    l.take(cr_end(l, l.len() as int))
}

/// The extra rows that lines wider than the terminal wrap into.
pub open spec fn reflow_rows(lines: Seq<Seq<char>>, width: nat) -> nat
    decreases lines.len(),
{
    if lines.len() == 0 {
        0
    } else {
        sat_add(reflow_rows(lines.drop_last(), width), min_usize(spec_display_width(lines.last())) / width)
    }
}

/// The lines of the display; an empty or blank display has none.
pub open spec fn display_lines(nom: Seq<char>) -> Seq<Seq<char>> {
    if trim(nom).len() == 0 {
        Seq::empty()
    } else {
        lines_of(nom)
    }
}

/// The blank lines that keep a display from moving up when it shrinks.
pub open spec fn padding(last: nat, reflow: nat, nix_count: nat, nom_count: nat, pad: bool) -> nat {
    if pad && nom_count > 0 {
        let used = sat_add(sat_add(reflow, nix_count), nom_count);
        if last > used {
            (last - used) as nat
        } else {
            0
        }
    } else {
        0
    }
}

/// How a line is reached: the first stays where the cursor is, one within
/// the previous frame moves down, one below it starts a new line.
pub open spec fn line_move(idx: int, reflow: nat, last: nat) -> Seq<char> {
    if idx == 0 {
        Seq::empty()
    } else if idx + reflow < last {
        CURSOR_NEXT_LINE_1@
    } else {
        seq!['\n'] + CURSOR_TO_COL_0@
    }
}

/// The first `k` lines of a frame: each reached, written, and, for nix's
/// lines, followed by a reset of the style.
pub open spec fn frame_body(ls: Seq<Seq<char>>, nix_count: nat, reflow: nat, last: nat, k: int) -> Seq<char>
    decreases k,
{
    if k <= 0 {
        Seq::empty()
    } else {
        frame_body(ls, nix_count, reflow, last, k - 1) + line_move(k - 1, reflow, last) + ls[k - 1]
            + if k - 1 < nix_count {
            RESET@
        } else {
            Seq::empty()
        }
    }
}

/// `n` times the text `t`.
pub open spec fn repeated(t: Seq<char>, n: nat) -> Seq<char>
    decreases n,
{
    if n == 0 {
        Seq::empty()
    } else {
        repeated(t, (n - 1) as nat) + t
    }
}

/// The text of a frame: the previous frame cleared from the bottom up, nix's
/// new lines, the padding and the display, in one atomic update.
pub open spec fn frame_text(last: nat, nix: Seq<Seq<char>>, nom: Seq<char>, pad: bool, width: nat) -> Seq<char> {
    let reflow = if nix.len() == 0 {
        0
    } else {
        reflow_rows(nix, width)
    };
    let nom_lines = display_lines(nom);
    let p = padding(last, reflow, nix.len(), nom_lines.len(), pad);
    let ls = nix.map_values(|l: Seq<char>| cr_trimmed(l)) + Seq::new(p, |i: int| Seq::<char>::empty())
        + nom_lines;
    START_ATOMIC_UPDATE@ + (if last == 1 {
        CURSOR_TO_COL_0@
    } else {
        Seq::empty()
    }) + (if last > 0 {
        CLEAR_LINE@
    } else {
        Seq::empty()
    }) + repeated(
        CURSOR_PREV_LINE_1@ + CLEAR_LINE@,
        if last > 0 {
            (last - 1) as nat
        } else {
            0
        },
    ) + frame_body(ls, nix.len(), reflow, last, ls.len() as int) + (if nom_lines.len() == 0
        && nix.len() > 0 {
        seq!['\n'] + CURSOR_TO_COL_0@
    } else {
        Seq::empty()
    }) + END_ATOMIC_UPDATE@
}

/// The number of lines a frame leaves below nix's output.
pub open spec fn frame_height(last: nat, nix: Seq<Seq<char>>, nom: Seq<char>, pad: bool, width: nat) -> nat {
    let reflow = if nix.len() == 0 {
        0
    } else {
        reflow_rows(nix, width)
    };
    let nom_lines = display_lines(nom);
    nom_lines.len() + padding(last, reflow, nix.len(), nom_lines.len(), pad)
}

fn reflow_exec(lines: &[String], width: usize) -> (r: usize)
    requires
        width > 0,
    ensures
        r == reflow_rows(lines@.map_values(|l: String| l@), width as nat),
{
    let ghost v = lines@.map_values(|l: String| l@);
    let mut total: usize = 0;
    let mut i: usize = 0;
    while i < lines.len()
        invariant
            i <= lines.len(),
            width > 0,
            v == lines@.map_values(|l: String| l@),
            total == reflow_rows(v.take(i as int), width as nat),
        decreases lines.len() - i,
    {
        assert(v.take(i + 1).drop_last() =~= v.take(i as int));
        assert(v.take(i + 1).last() == lines@[i as int]@);
        let w = display_width(lines[i].as_str()) / width;
        total = total.saturating_add(w);
        i += 1;
    }
    assert(v.take(lines.len() as int) =~= v);
    total
}

fn cr_trimmed_exec(l: &String) -> (r: String)
    ensures
        r@ == cr_trimmed(l@),
{
    let cs = chars_of(l.as_str());
    let mut j: usize = cs.len();
    while j > 0 && cs[j - 1] == '\r'
        invariant
            j <= cs.len(),
            cr_end(cs@, cs.len() as int) == cr_end(cs@, j as int),
        decreases j,
    {
        j -= 1;
    }
    let r = string_of(&cs, 0, j);
    assert(r@ =~= cs@.take(j as int));
    r
}

fn push_move(out: &mut String, idx_sat: usize, Ghost(idx): Ghost<int>, reflow: usize, last: usize)
    requires
        idx >= 0,
        idx_sat == if idx > usize::MAX {
            usize::MAX as int
        } else {
            idx
        },
    ensures
        final(out)@ == old(out)@ + line_move(idx, reflow as nat, last as nat),
{
    if idx_sat == 0 {
    } else if idx_sat.saturating_add(reflow) < last {
        push_str(out, CURSOR_NEXT_LINE_1);
    } else {
        push_str(out, "\n");
        push_str(out, CURSOR_TO_COL_0);
        proof {
            reveal_strlit("\n");
        }
    }
    assert(final(out)@ =~= old(out)@ + line_move(idx, reflow as nat, last as nat));
}

fn push_clear_lines(out: &mut String, n: usize)
    ensures
        final(out)@ == old(out)@ + repeated(CURSOR_PREV_LINE_1@ + CLEAR_LINE@, n as nat),
{
    let mut k: usize = 0;
    while k < n
        invariant
            k <= n,
            out@ == old(out)@ + repeated(CURSOR_PREV_LINE_1@ + CLEAR_LINE@, k as nat),
        decreases n - k,
    {
        push_str(out, CURSOR_PREV_LINE_1);
        push_str(out, CLEAR_LINE);
        assert(out@ =~= old(out)@ + repeated(CURSOR_PREV_LINE_1@ + CLEAR_LINE@, (k + 1) as nat));
        k += 1;
    }
}

/// The frame body of lines `a` followed by lines `b`: the lines of `b` are
/// reached as the lines after `a`.
pub open spec fn frame_body_from(ls: Seq<Seq<char>>, off: int, nix_count: nat, reflow: nat, last: nat, k: int) -> Seq<char>
    decreases k,
{
    if k <= 0 {
        Seq::empty()
    } else {
        frame_body_from(ls, off, nix_count, reflow, last, k - 1) + line_move(off + k - 1, reflow, last)
            + ls[k - 1] + if off + k - 1 < nix_count {
            RESET@
        } else {
            Seq::empty()
        }
    }
}

proof fn lemma_frame_body_split(ls: Seq<Seq<char>>, m: int, k: int, nix_count: nat, reflow: nat, last: nat)
    requires
        0 <= m <= k <= ls.len(),
    ensures
        frame_body(ls, nix_count, reflow, last, k) == frame_body(ls, nix_count, reflow, last, m)
            + frame_body_from(ls.skip(m), m, nix_count, reflow, last, k - m),
    decreases k,
{
    if k > m {
        lemma_frame_body_split(ls, m, k - 1, nix_count, reflow, last);
        assert(ls.skip(m)[k - m - 1] == ls[k - 1]);
        assert(frame_body(ls, nix_count, reflow, last, k) =~= frame_body(ls, nix_count, reflow, last, m)
            + frame_body_from(ls.skip(m), m, nix_count, reflow, last, k - m));
    } else {
        assert(frame_body(ls, nix_count, reflow, last, k) =~= frame_body(ls, nix_count, reflow, last, m)
            + frame_body_from(ls.skip(m), m, nix_count, reflow, last, k - m));
    }
}

proof fn lemma_frame_body_prefix(ls: Seq<Seq<char>>, more: Seq<Seq<char>>, k: int, nix_count: nat, reflow: nat, last: nat)
    requires
        0 <= k <= ls.len(),
    ensures
        frame_body(ls + more, nix_count, reflow, last, k) == frame_body(ls, nix_count, reflow, last, k),
    decreases k,
{
    if k > 0 {
        lemma_frame_body_prefix(ls, more, k - 1, nix_count, reflow, last);
        assert((ls + more)[k - 1] == ls[k - 1]);
    }
}

proof fn lemma_frame_body_from_eq(a: Seq<Seq<char>>, b: Seq<Seq<char>>, off: int, k: int, nix_count: nat, reflow: nat, last: nat)
    requires
        0 <= k <= a.len(),
        k <= b.len(),
        forall|i: int| 0 <= i < k ==> a[i] == b[i],
    ensures
        frame_body_from(a, off, nix_count, reflow, last, k) == frame_body_from(b, off, nix_count, reflow, last, k),
    decreases k,
{
    if k > 0 {
        lemma_frame_body_from_eq(a, b, off, k - 1, nix_count, reflow, last);
    }
}

/// The body of a frame of three parts is the bodies of the parts, each
/// reached after the lines before it.
proof fn lemma_frame_body_append(
    a: Seq<Seq<char>>,
    b: Seq<Seq<char>>,
    c: Seq<Seq<char>>,
    nix_count: nat,
    reflow: nat,
    last: nat,
)
    ensures
        frame_body(a + b + c, nix_count, reflow, last, (a.len() + b.len() + c.len()) as int) == frame_body_from(
            a,
            0,
            nix_count,
            reflow,
            last,
            a.len() as int,
        ) + frame_body_from(b, a.len() as int, nix_count, reflow, last, b.len() as int) + frame_body_from(
            c,
            (a.len() + b.len()) as int,
            nix_count,
            reflow,
            last,
            c.len() as int,
        ),
{
    let ls = a + b + c;
    let n = ls.len() as int;
    let la = a.len() as int;
    let lab = (a.len() + b.len()) as int;
    lemma_frame_body_split(ls, lab, n, nix_count, reflow, last);
    lemma_frame_body_split(ls, la, lab, nix_count, reflow, last);
    lemma_frame_body_split(ls, 0, la, nix_count, reflow, last);
    assert(frame_body(ls, nix_count, reflow, last, 0) =~= Seq::<char>::empty());
    assert(ls.skip(lab) =~= c);
    lemma_frame_body_from_eq(ls.skip(la), b, la, b.len() as int, nix_count, reflow, last);
    lemma_frame_body_from_eq(ls.skip(0), a, 0, la, nix_count, reflow, last);
}

fn push_nix_lines(out: &mut String, lines: &[String], reflow: usize, last: usize)
    ensures
        final(out)@ == old(out)@ + frame_body_from(
            lines@.map_values(|l: String| l@).map_values(|l: Seq<char>| cr_trimmed(l)),
            0,
            lines@.len() as nat,
            reflow as nat,
            last as nat,
            lines@.len() as int,
        ),
{
    let ghost v = lines@.map_values(|l: String| l@).map_values(|l: Seq<char>| cr_trimmed(l));
    let ghost nc = lines@.len() as nat;
    let mut i: usize = 0;
    while i < lines.len()
        invariant
            i <= lines.len(),
            nc == lines@.len(),
            v == lines@.map_values(|l: String| l@).map_values(|l: Seq<char>| cr_trimmed(l)),
            out@ == old(out)@ + frame_body_from(v, 0, nc, reflow as nat, last as nat, i as int),
        decreases lines.len() - i,
    {
        push_move(out, i, Ghost(i as int), reflow, last);
        let l = cr_trimmed_exec(&lines[i]);
        assert(v[i as int] == cr_trimmed(lines@[i as int]@));
        push_str(out, l.as_str());
        push_str(out, RESET);
        assert(out@ =~= old(out)@ + frame_body_from(v, 0, nc, reflow as nat, last as nat, i + 1));
        i += 1;
    }
}

fn push_padding(out: &mut String, base: usize, n: usize, reflow: usize, last: usize, Ghost(nix_count): Ghost<nat>)
    requires
        base == nix_count,
    ensures
        final(out)@ == old(out)@ + frame_body_from(
            Seq::new(n as nat, |i: int| Seq::<char>::empty()),
            nix_count as int,
            nix_count,
            reflow as nat,
            last as nat,
            n as int,
        ),
{
    let ghost v = Seq::new(n as nat, |i: int| Seq::<char>::empty());
    let mut p: usize = 0;
    while p < n
        invariant
            p <= n,
            base == nix_count,
            v == Seq::new(n as nat, |i: int| Seq::<char>::empty()),
            out@ == old(out)@ + frame_body_from(v, nix_count as int, nix_count, reflow as nat, last as nat, p as int),
        decreases n - p,
    {
        push_move(out, base.saturating_add(p), Ghost(nix_count + p), reflow, last);
        assert(out@ =~= old(out)@ + frame_body_from(v, nix_count as int, nix_count, reflow as nat, last as nat, p + 1));
        p += 1;
    }
}

fn push_display_lines(
    out: &mut String,
    lines: &Vec<Vec<char>>,
    base: usize,
    reflow: usize,
    last: usize,
    Ghost(nix_count): Ghost<nat>,
)
    requires
        base >= nix_count,
    ensures
        final(out)@ == old(out)@ + frame_body_from(
            line_views(lines@),
            base as int,
            nix_count,
            reflow as nat,
            last as nat,
            lines@.len() as int,
        ),
{
    let ghost v = line_views(lines@);
    let mut j: usize = 0;
    while j < lines.len()
        invariant
            j <= lines.len(),
            base >= nix_count,
            v == line_views(lines@),
            out@ == old(out)@ + frame_body_from(v, base as int, nix_count, reflow as nat, last as nat, j as int),
        decreases lines.len() - j,
    {
        push_move(out, base.saturating_add(j), Ghost(base + j), reflow, last);
        let l = string_of(&lines[j], 0, lines[j].len());
        assert(lines@[j as int]@.subrange(0, lines@[j as int]@.len() as int) =~= v[j as int]);
        push_str(out, l.as_str());
        assert(out@ =~= old(out)@ + frame_body_from(v, base as int, nix_count, reflow as nat, last as nat, j + 1));
        j += 1;
    }
}

impl TerminalRenderer {
    /// A terminal with nothing drawn yet.
    pub fn new() -> (r: Self)
        ensures
            r.last_printed_line_count == 0,
    {
        TerminalRenderer { last_printed_line_count: 0 }
    }

    /// The text that shows nix's new lines and the display `nom_output` on a
    /// terminal `term_width` columns wide, in place of the previous frame;
    /// with `pad`, a shrinking display keeps its bottom line in place.
    #[verifier::rlimit(60)]
    pub fn draw(&mut self, nix_output_lines: &[String], nom_output: &str, pad: bool, term_width: usize) -> (r: String)
        requires
            term_width > 0,
        ensures
            r@ == frame_text(
                old(self).last_printed_line_count as nat,
                nix_output_lines@.map_values(|l: String| l@),
                nom_output@,
                pad,
                term_width as nat,
            ),
            final(self).last_printed_line_count == frame_height(
                old(self).last_printed_line_count as nat,
                nix_output_lines@.map_values(|l: String| l@),
                nom_output@,
                pad,
                term_width as nat,
            ),
    {
        let ghost nix = nix_output_lines@.map_values(|l: String| l@);
        let last = self.last_printed_line_count;
        let nix_count = nix_output_lines.len();
        let reflow: usize = if nix_count == 0 {
            0
        } else {
            reflow_exec(nix_output_lines, term_width)
        };
        let nom_chars = chars_of(nom_output);
        let blank = trimmed(&nom_chars).len() == 0;
        let nom_lines: Vec<Vec<char>> = if blank {
            Vec::new()
        } else {
            split_lines(&nom_chars)
        };
        let ghost nl = display_lines(nom_output@);
        assert(line_views(nom_lines@) =~= nl);
        let nom_count = nom_lines.len();
        let lines_to_pad: usize = if pad && nom_count > 0 {
            let used = reflow.saturating_add(nix_count).saturating_add(nom_count);
            if last > used {
                last - used
            } else {
                0
            }
        } else {
            0
        };
        let ghost ls = nix.map_values(|l: Seq<char>| cr_trimmed(l)) + Seq::new(
            lines_to_pad as nat,
            |i: int| Seq::<char>::empty(),
        ) + nl;

        let mut out = String::new();
        push_str(&mut out, START_ATOMIC_UPDATE);
        if last == 1 {
            push_str(&mut out, CURSOR_TO_COL_0);
        }
        if last > 0 {
            push_str(&mut out, CLEAR_LINE);
        }
        push_clear_lines(&mut out, if last > 0 { last - 1 } else { 0 });
        let ghost start = out@;
        push_nix_lines(&mut out, nix_output_lines, reflow, last);
        push_padding(&mut out, nix_count, lines_to_pad, reflow, last, Ghost(nix_count as nat));
        push_display_lines(&mut out, &nom_lines, nix_count + lines_to_pad, reflow, last, Ghost(nix_count as nat));
        proof {
            lemma_frame_body_append(
                nix.map_values(|l: Seq<char>| cr_trimmed(l)),
                Seq::new(lines_to_pad as nat, |i: int| Seq::<char>::empty()),
                nl,
                nix_count as nat,
                reflow as nat,
                last as nat,
            );
        }
        if nom_count == 0 && nix_count > 0 {
            push_str(&mut out, "\n");
            push_str(&mut out, CURSOR_TO_COL_0);
        }
        push_str(&mut out, END_ATOMIC_UPDATE);
        proof {
            reveal_strlit("\n");
        }
        self.last_printed_line_count = nom_count + lines_to_pad;
        out
    }
}

} // verus!
