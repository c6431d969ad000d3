//! What the monitor makes of what it reads: the meaning of nix's log
//! messages for the build state, and the small state rules that do not
//! depend on time.
use vstd::prelude::*;
use crate::parser::json::{verbosity_level, MessageAction};
use crate::parser::old_style::{
    chunk_outcome, is_malformed_old_style_chunk, parse_old_style_chunk, strip_ansi,
    strip_ansi_codes, ChunkOutcome, NixOldStyleMessage, OldStyleModel,
};
use crate::text::{
    chars_of, contains, find_from_exec, is_ascii_digit, is_ascii_digit_char, owned, push_char, push_str, starts_with, starts_with_lit, string_of, trim, trimmed,
};
use crate::types::{
    parse_derivation_path, parse_store_path, Derivation, FailType, StorePath,
};

verus! {

// ---------------------------------------------------------------------
// Report names
// ---------------------------------------------------------------------

/// A character that `get_report_name` trims from the end of a name.
pub open spec fn is_version_char(c: char) -> bool {
    c == '.' || c == '-' || is_ascii_digit(c)
}

/// The end of `s.take(j)` once trailing version characters are dropped.
pub open spec fn version_trim_end(s: Seq<char>, j: int) -> int
    decreases j,
{
    if 0 < j <= s.len() && is_version_char(s[j - 1]) {
        version_trim_end(s, j - 1)
    } else {
        j
    }
}

/// The name under which a build's duration is recorded: the package name
/// where the derivation has one, else its name without a trailing version
/// (the whole name where nothing else is left).
pub open spec fn report_name_text(pname: Option<Seq<char>>, name: Seq<char>) -> Seq<char> {
    match pname {
        Some(p) => p,
        None => {
            let t = name.take(version_trim_end(name, name.len() as int));
            if t.len() == 0 {
                name
            } else {
                t
            }
        },
    }
}

/// The name under which a derivation's build durations are recorded.
pub fn get_report_name(pname: &Option<String>, name: &str) -> (r: String)
    ensures
        r@ == report_name_text(crate::types::opt_string_view(*pname), name@),
{
    match pname {
        Some(p) => p.clone(),
        None => {
            let cs = chars_of(name);
            let mut j: usize = cs.len();
            while j > 0 && (cs[j - 1] == '.' || cs[j - 1] == '-' || is_ascii_digit_char(cs[j - 1]))
                invariant
                    j <= cs.len(),
                    version_trim_end(cs@, cs.len() as int) == version_trim_end(cs@, j as int),
                decreases j,
            {
                j -= 1;
            }
            if j == 0 {
                owned(name)
            } else {
                let r = string_of(&cs, 0, j);
                assert(r@ =~= cs@.take(j as int));
                r
            }
        },
    }
}

// ---------------------------------------------------------------------
// Log messages
// ---------------------------------------------------------------------

/// What a log message of nix's JSON stream means for the build state.
#[derive(Debug)]
pub enum MessageEffect {
    /// An informational line naming a derivation of the build plan; it is
    /// also logged.
    PlanBuild(Derivation),
    /// An informational line naming a path of the download plan; it is also
    /// logged.
    PlanDownload(StorePath),
    /// An informational line that is only logged.
    Log,
    /// An error, with its text without escape sequences and trimmed, and the
    /// failed build it reports, if any.
    NixError { core: String, failure: Option<(Derivation, FailType)> },
    /// A trace, with its text without escape sequences.
    NixTrace { stripped: String },
    /// Evaluation has reached a file.
    EvaluatingFile(String),
    /// A message that changes nothing and is not shown.
    Ignore,
}

/// `s` without trailing `'` characters.
pub open spec fn tick_trim_end(s: Seq<char>, j: int) -> int
    decreases j,
{
    if 0 < j <= s.len() && s[j - 1] == '\'' {
        tick_trim_end(s, j - 1)
    } else {
        j
    }
}

/// The failed build that an error reports, read as old-style output.
pub open spec fn reported_failure(stripped: Seq<char>) -> Option<((Seq<char>, Seq<char>), FailType)> {
    match chunk_outcome(stripped + seq!['\n']) {
        ChunkOutcome::Message(OldStyleModel::Failed(d, f), _) => Some((d, f)),
        _ => None,
    }
}

/// The meaning of a message at a level with a text.
pub open spec fn effect_matches(e: MessageEffect, level: u64, msg: Seq<char>) -> bool {
    if 0 < level <= 3 {
        let t = trim(msg);
        if starts_with(t, "/nix/store/"@) && parse_derivation_path(t) is Some {
            e matches MessageEffect::PlanBuild(d) && parse_derivation_path(t) == Some(d@)
        } else if starts_with(t, "/nix/store/"@) && parse_store_path(t) is Some {
            e matches MessageEffect::PlanDownload(p) && parse_store_path(t) == Some(p@)
        } else {
            e is Log
        }
    } else if level == 0 {
        let s = strip_ansi(msg);
        if starts_with(s, "error:"@) {
            e matches MessageEffect::NixError { core, failure } && core@ == trim(s) && match
                reported_failure(s) {
                Some((d, f)) => failure matches Some((fd, ff)) && fd@ == d && ff == f,
                None => failure is None,
            }
        } else if starts_with(s, "trace:"@) {
            e matches MessageEffect::NixTrace { stripped } && stripped@ == s
        } else {
            e is Ignore
        }
    } else if starts_with(msg, "evaluating file '"@) {
        let rest = msg.skip("evaluating file '"@.len() as int);
        e matches MessageEffect::EvaluatingFile(f) && f@ == rest.take(tick_trim_end(rest, rest.len() as int))
    } else {
        e is Ignore
    }
}

/// A message at a shown level (warn to info) that is the `.drv` path of a
/// derivation plans that derivation's build.
pub proof fn lemma_derivation_message_plans_build(e: MessageEffect, level: u64, hash: Seq<char>, name: Seq<char>)
    requires
        0 < level <= 3,
        crate::types::is_nix_hash(hash),
        effect_matches(e, level, crate::types::store_path_text(hash, name) + crate::types::drv_suffix()),
    ensures
        e matches MessageEffect::PlanBuild(d) && d@ == (hash, name),
{
    let t = crate::types::store_path_text(hash, name) + crate::types::drv_suffix();
    reveal_strlit("/nix/store/");
    reveal_strlit(".drv");
    crate::types::lemma_derivation_round_trip(hash, name);
    assert(crate::types::STORE_PREFIX@ == "/nix/store/"@);
    assert(t[0] == '/');
    assert(t.last() == 'v');
    crate::reports::lemma_trim_keeps_edges(t);
    assert(t.subrange(0, "/nix/store/"@.len() as int) =~= "/nix/store/"@);
}

/// A chatty message `evaluating file '<f>'` reports that evaluation reached
/// the file `f`, where `f` does not itself end with a quote.
pub proof fn lemma_evaluated_file_is_reported(e: MessageEffect, level: u64, f: Seq<char>)
    requires
        level > 3,
        f.len() == 0 || f.last() != '\'',
        effect_matches(e, level, "evaluating file '"@ + f + "'"@),
    ensures
        e matches MessageEffect::EvaluatingFile(g) && g@ == f,
{
    reveal_strlit("evaluating file '");
    reveal_strlit("'");
    let p = "evaluating file '"@;
    let msg = p + f + "'"@;
    assert(msg.subrange(0, p.len() as int) =~= p);
    let rest = msg.skip(p.len() as int);
    assert(rest =~= f + seq!['\'']);
    assert(tick_trim_end(rest, rest.len() as int - 1) == rest.len() - 1);
    assert(rest.take(rest.len() - 1) =~= f);
}

/// What a log message means for the build state.
pub fn message_effect(action: &MessageAction) -> (e: MessageEffect)
    ensures
        effect_matches(e, verbosity_level(action.level), action.message@),
{
    let level = action.level.level();
    let msg = chars_of(action.message.as_str());
    if level <= 3 && level > 0 {
        let t = trimmed(&msg);
        if starts_with_lit(&t, "/nix/store/") {
            let ts = string_of(&t, 0, t.len());
            assert(t@.subrange(0, t@.len() as int) =~= t@);
            if let Some(d) = Derivation::parse(ts.as_str()) {
                return MessageEffect::PlanBuild(d);
            }
            if let Some(p) = StorePath::parse(ts.as_str()) {
                return MessageEffect::PlanDownload(p);
            }
        }
        MessageEffect::Log
    } else if level == 0 {
        let stripped = strip_ansi_codes(action.message.as_str());
        let sc = chars_of(stripped.as_str());
        if starts_with_lit(&sc, "error:") {
            let core_chars = trimmed(&sc);
            let core = string_of(&core_chars, 0, core_chars.len());
            assert(core_chars@.subrange(0, core_chars@.len() as int) =~= core_chars@);
            let mut chunk = stripped.clone();
            push_char(&mut chunk, '\n');
            assert(chunk@ =~= stripped@ + seq!['\n']);
            let failure = if is_malformed_old_style_chunk(chunk.as_str()) {
                None
            } else {
                match parse_old_style_chunk(chunk.as_str()) {
                    Some((NixOldStyleMessage::Failed(d, f), _)) => Some((d, f)),
                    _ => None,
                }
            };
            MessageEffect::NixError { core, failure }
        } else if starts_with_lit(&sc, "trace:") {
            MessageEffect::NixTrace { stripped }
        } else {
            MessageEffect::Ignore
        }
    } else if starts_with_lit(&msg, "evaluating file '") {
        let p = chars_of("evaluating file '");
        let rest = crate::text::sub_chars(&msg, p.len(), msg.len());
        assert(rest@ =~= action.message@.skip("evaluating file '"@.len() as int));
        let mut j: usize = rest.len();
        while j > 0 && rest[j - 1] == '\''
            invariant
                j <= rest.len(),
                tick_trim_end(rest@, rest.len() as int) == tick_trim_end(rest@, j as int),
            decreases j,
        {
            j -= 1;
        }
        let f = string_of(&rest, 0, j);
        assert(f@ =~= rest@.take(j as int));
        MessageEffect::EvaluatingFile(f)
    } else {
        MessageEffect::Ignore
    }
}

/// Whether an earlier report already contains `needle`, so that it is not
/// shown again.
pub fn already_reported(reports: &[String], needle: &str) -> (r: bool)
    ensures
        r == exists|i: int| 0 <= i < reports@.len() && contains(#[trigger] reports@[i]@, needle@),
{
    let p = chars_of(needle);
    let mut i: usize = 0;
    while i < reports.len()
        invariant
            i <= reports.len(),
            p@ == needle@,
            forall|k: int| 0 <= k < i ==> !contains(#[trigger] reports@[k]@, needle@),
        decreases reports.len() - i,
    {
        let s = chars_of(reports[i].as_str());
        if find_from_exec(&s, &p, 0).is_some() {
            assert(contains(reports@[i as int]@, needle@));
            return true;
        }
        i += 1;
    }
    false
}


/// What leads a build's log line: its name in blue, then `> `.
pub open spec fn build_log_prefix(name: Seq<char>) -> Seq<char> {
    crate::render::table::RESET@ + crate::render::table::BLUE@ + name + crate::render::table::RESET@ + "> "@
}

/// The prefix of the log lines of the build of the derivation named `name`.
pub fn log_prefix(name: &str) -> (r: String)
    ensures
        r@ == build_log_prefix(name@),
{
    let mut out = owned(crate::render::table::RESET);
    push_str(&mut out, crate::render::table::BLUE);
    push_str(&mut out, name);
    push_str(&mut out, crate::render::table::RESET);
    push_str(&mut out, "> ");
    out
}

} // verus!
