//! The messages of nix's `--log-format internal-json` stream.
//!
//! A line is `@nix ` followed by a JSON object. Decoding the JSON text into a
//! [`RawJsonMessage`] is done by the caller; this module frames the line and
//! turns the decoded record into a [`NixJsonMessage`].
use vstd::prelude::*;
use crate::text::{chars_of, matches_at, owned, str_eq, string_of, trim_end_bound};
use crate::text::{starts_with, trim_end};
use crate::types::{parse_derivation_path, parse_host, parse_store_path, Derivation, Host, StorePath};

verus! {

/// The verbosity of a nix message, from `Error` (0) to `Vomit` (7).
#[derive(Clone, Copy, Debug, PartialEq, Eq, Structural, PartialOrd, Ord)]
pub enum Verbosity {
    Error,
    Warn,
    Notice,
    Info,
    Talkative,
    Chatty,
    Debug,
    Vomit,
}

/// The level that nix writes for a verbosity.
pub open spec fn verbosity_level(v: Verbosity) -> u64 {
    match v {
        Verbosity::Error => 0,
        Verbosity::Warn => 1,
        Verbosity::Notice => 2,
        Verbosity::Info => 3,
        Verbosity::Talkative => 4,
        Verbosity::Chatty => 5,
        Verbosity::Debug => 6,
        Verbosity::Vomit => 7,
    }
}

/// The verbosity of a level: levels above 7 are `Vomit`.
pub open spec fn verbosity_of(n: u64) -> Verbosity {
    if n == 0 {
        Verbosity::Error
    } else if n == 1 {
        Verbosity::Warn
    } else if n == 2 {
        Verbosity::Notice
    } else if n == 3 {
        Verbosity::Info
    } else if n == 4 {
        Verbosity::Talkative
    } else if n == 5 {
        Verbosity::Chatty
    } else if n == 6 {
        Verbosity::Debug
    } else {
        Verbosity::Vomit
    }
}

impl Verbosity {
    pub fn from_u64(n: u64) -> (r: Self)
        ensures
            r == verbosity_of(n),
    {
        match n {
            0 => Verbosity::Error,
            1 => Verbosity::Warn,
            2 => Verbosity::Notice,
            3 => Verbosity::Info,
            4 => Verbosity::Talkative,
            5 => Verbosity::Chatty,
            6 => Verbosity::Debug,
            _ => Verbosity::Vomit,
        }
    }

    /// The numeric level of this verbosity.
    pub fn level(&self) -> (r: u64)
        ensures
            r == verbosity_level(*self),
    {
        match self {
            Verbosity::Error => 0,
            Verbosity::Warn => 1,
            Verbosity::Notice => 2,
            Verbosity::Info => 3,
            Verbosity::Talkative => 4,
            Verbosity::Chatty => 5,
            Verbosity::Debug => 6,
            Verbosity::Vomit => 7,
        }
    }
}

/// Reading a level and writing it back gives the level, capped at 7; every
/// verbosity is read back from its own level.
pub proof fn lemma_verbosity_level_round_trip(n: u64, v: Verbosity)
    ensures
        verbosity_level(verbosity_of(n)) == if n <= 7 { n } else { 7 },
        verbosity_of(verbosity_level(v)) == v,
{
}

#[derive(Clone, Debug, PartialEq)]
pub enum Activity {
    Unknown,
    CopyPath { path: StorePath, from: Host, to: Host },
    FileTransfer(String),
    Realise,
    CopyPaths,
    Builds,
    Build { drv: Derivation, host: Host },
    OptimiseStore,
    VerifyPaths,
    Substitute { path: StorePath, host: Host },
    QueryPathInfo { path: StorePath, host: Host },
    PostBuildHook(Derivation),
    BuildWaiting,
    FetchTree,
}

#[derive(Clone, Debug, PartialEq, Eq)]
pub struct ActivityProgress {
    pub done: usize,
    pub expected: usize,
    pub running: usize,
    pub failed: usize,
}

#[derive(Clone, Debug, PartialEq)]
pub enum ActivityResult {
    FileLinked(usize, usize),
    BuildLogLine(String),
    UntrustedPath(StorePath),
    CorruptedPath(StorePath),
    SetPhase(String),
    Progress(ActivityProgress),
    SetExpected(u64, usize),
    PostBuildLogLine(String),
    FetchStatus(String),
    Other,
}

#[derive(Clone, Debug, PartialEq)]
pub struct StartAction {
    pub id: u64,
    pub level: Verbosity,
    pub text: String,
    pub activity: Activity,
}

#[derive(Clone, Debug, PartialEq, Eq)]
pub struct StopAction {
    pub id: u64,
}

#[derive(Clone, Debug, PartialEq)]
pub struct ResultAction {
    pub id: u64,
    pub result: ActivityResult,
}

#[derive(Clone, Debug, PartialEq)]
pub struct MessageAction {
    pub level: Verbosity,
    pub message: String,
}

#[derive(Clone, Debug, PartialEq)]
pub enum NixJsonMessage {
    Start(StartAction),
    Stop(StopAction),
    Result(ResultAction),
    Message(MessageAction),
    Plain(String),
    ParseError(String),
}

/// One element of a message's `fields` array, as far as it is read: a
/// string, a non-negative integer that fits in `u64`, or anything else.
#[derive(Clone, Debug, PartialEq)]
pub enum JsonField {
    Str(String),
    Uint(u64),
    Other,
}

/// The members of a decoded message object that are read. A member that is
/// absent, or `null`, is `None`.
#[derive(Clone, Debug, PartialEq)]
pub struct RawJsonMessage {
    pub action: String,
    pub id: Option<u64>,
    pub level: Option<u64>,
    pub text: Option<String>,
    pub msg: Option<String>,
    pub msg_type: Option<u64>,
    pub fields: Option<Vec<JsonField>>,
}

// ---------------------------------------------------------------------
// Specification
// ---------------------------------------------------------------------

pub open spec fn or_u64(o: Option<u64>, d: u64) -> u64 {
    match o {
        Some(v) => v,
        None => d,
    }
}

pub open spec fn or_empty(o: Option<String>) -> Seq<char> {
    match o {
        Some(s) => s@,
        None => Seq::empty(),
    }
}

pub open spec fn fields_of(raw: RawJsonMessage) -> Seq<JsonField> {
    match raw.fields {
        Some(v) => v@,
        None => Seq::empty(),
    }
}

/// Field `i` as a string; the empty string where it is absent or no string.
pub open spec fn field_str(f: Seq<JsonField>, i: int) -> Seq<char> {
    if 0 <= i < f.len() {
        match f[i] {
            JsonField::Str(s) => s@,
            _ => Seq::empty(),
        }
    } else {
        Seq::empty()
    }
}

pub open spec fn field_is_str(f: Seq<JsonField>, i: int) -> bool {
    0 <= i < f.len() && f[i] is Str
}

/// Field `i` as an integer; 0 where it is absent or no such integer.
pub open spec fn field_u64(f: Seq<JsonField>, i: int) -> u64 {
    if 0 <= i < f.len() {
        match f[i] {
            JsonField::Uint(n) => n,
            _ => 0,
        }
    } else {
        0
    }
}

/// A store path with a host, as `Substitute` and `QueryPathInfo` carry them.
pub open spec fn path_host_matches(path: StorePath, host: Host, f: Seq<JsonField>) -> bool {
    parse_store_path(field_str(f, 0)) == Some(path@) && host@ == parse_host(field_str(f, 1))
}

/// The activity that a `start` message of type `t` with fields `f` announces.
pub open spec fn activity_matches(a: Activity, t: u64, f: Seq<JsonField>) -> bool {
    if t == 100 && f.len() >= 3 && parse_store_path(field_str(f, 0)) is Some {
        a matches Activity::CopyPath { path, from, to }
            && parse_store_path(field_str(f, 0)) == Some(path@)
            && from@ == parse_host(field_str(f, 1))
            && to@ == parse_host(field_str(f, 2))
    } else if t == 101 {
        a matches Activity::FileTransfer(uri) && uri@ == field_str(f, 0)
    } else if t == 102 {
        a is Realise
    } else if t == 103 {
        a is CopyPaths
    } else if t == 104 {
        a is Builds
    } else if t == 105 && f.len() >= 2 && parse_derivation_path(field_str(f, 0)) is Some {
        a matches Activity::Build { drv, host }
            && parse_derivation_path(field_str(f, 0)) == Some(drv@)
            && host@ == parse_host(field_str(f, 1))
    } else if t == 106 {
        a is OptimiseStore
    } else if t == 107 {
        a is VerifyPaths
    } else if t == 108 && f.len() >= 2 && parse_store_path(field_str(f, 0)) is Some {
        a matches Activity::Substitute { path, host } && path_host_matches(path, host, f)
    } else if t == 109 && f.len() >= 2 && parse_store_path(field_str(f, 0)) is Some {
        a matches Activity::QueryPathInfo { path, host } && path_host_matches(path, host, f)
    } else if t == 110 && field_is_str(f, 0) && parse_derivation_path(field_str(f, 0)) is Some {
        a matches Activity::PostBuildHook(drv) && parse_derivation_path(field_str(f, 0)) == Some(
            drv@,
        )
    } else if t == 111 {
        a is BuildWaiting
    } else if t == 112 {
        a is FetchTree
    } else {
        a is Unknown
    }
}

/// The result that a `result` message of type `t` with fields `f` reports.
pub open spec fn result_matches(r: ActivityResult, t: u64, f: Seq<JsonField>) -> bool {
    if t == 100 {
        r matches ActivityResult::FileLinked(a, b) && a == field_u64(f, 0) as usize && b
            == field_u64(f, 1) as usize
    } else if t == 101 {
        r matches ActivityResult::BuildLogLine(l) && l@ == field_str(f, 0)
    } else if t == 102 && parse_store_path(field_str(f, 0)) is Some {
        r matches ActivityResult::UntrustedPath(p) && parse_store_path(field_str(f, 0)) == Some(p@)
    } else if t == 103 && parse_store_path(field_str(f, 0)) is Some {
        r matches ActivityResult::CorruptedPath(p) && parse_store_path(field_str(f, 0)) == Some(p@)
    } else if t == 104 {
        r matches ActivityResult::SetPhase(p) && p@ == field_str(f, 0)
    } else if t == 105 && f.len() >= 4 {
        r matches ActivityResult::Progress(p) && p.done == field_u64(f, 0) as usize && p.expected
            == field_u64(f, 1) as usize && p.running == field_u64(f, 2) as usize && p.failed
            == field_u64(f, 3) as usize
    } else if t == 106 {
        r matches ActivityResult::SetExpected(a, n) && a == field_u64(f, 0) && n == field_u64(f, 1)
            as usize
    } else if t == 107 {
        r matches ActivityResult::PostBuildLogLine(l) && l@ == field_str(f, 0)
    } else if t == 108 {
        r matches ActivityResult::FetchStatus(s) && s@ == field_str(f, 0)
    } else {
        r is Other
    }
}

/// The message that a decoded record stands for; `trimmed` is the line it
/// came from, without trailing white space.
pub open spec fn message_matches(m: NixJsonMessage, raw: RawJsonMessage, trimmed: Seq<char>) -> bool {
    let f = fields_of(raw);
    if raw.action@ == "start"@ {
        m matches NixJsonMessage::Start(s) && s.id == or_u64(raw.id, 0) && s.level == verbosity_of(
            or_u64(raw.level, 3),
        ) && s.text@ == or_empty(raw.text) && activity_matches(s.activity, or_u64(raw.msg_type, 0), f)
    } else if raw.action@ == "stop"@ {
        m matches NixJsonMessage::Stop(s) && s.id == or_u64(raw.id, 0)
    } else if raw.action@ == "result"@ {
        m matches NixJsonMessage::Result(r) && r.id == or_u64(raw.id, 0) && result_matches(
            r.result,
            or_u64(raw.msg_type, 0),
            f,
        )
    } else if raw.action@ == "msg"@ {
        m matches NixJsonMessage::Message(a) && a.level == verbosity_of(or_u64(raw.level, 3))
            && a.message@ == or_empty(raw.msg)
    } else {
        m matches NixJsonMessage::Plain(p) && p@ == trimmed
    }
}

/// A `start` message of type 100 whose fields are a store path and two
/// hosts announces a copy of that path from the host of its second field to
/// the host of its third. So a copy from a remote host into the local store
/// is a download from that host, and one from the local store to a remote
/// host an upload to it.
pub proof fn lemma_copy_goes_from_second_field_to_third(m: NixJsonMessage, raw: RawJsonMessage, trimmed: Seq<char>)
    requires
        message_matches(m, raw, trimmed),
        raw.action@ == "start"@,
        raw.msg_type == Some(100u64),
        fields_of(raw).len() >= 3,
        parse_store_path(field_str(fields_of(raw), 0)) is Some,
    ensures
        m matches NixJsonMessage::Start(s) && s.activity matches Activity::CopyPath { path, from, to }
            && parse_store_path(field_str(fields_of(raw), 0)) == Some(path@)
            && from@ == parse_host(field_str(fields_of(raw), 1))
            && to@ == parse_host(field_str(fields_of(raw), 2))
            && (to@ is Localhost && from@ is Remote ==> crate::tracking::copy_kind(from@, to@) == Some(
            (true, parse_host(field_str(fields_of(raw), 1))),
        )) && (from@ is Localhost && to@ is Remote ==> crate::tracking::copy_kind(from@, to@) == Some(
            (false, parse_host(field_str(fields_of(raw), 2))),
        )),
{
}

/// A `start` message of type 105 whose first field is a derivation's path
/// announces the build of that derivation on the host of its second field.
pub proof fn lemma_build_runs_on_host_of_second_field(m: NixJsonMessage, raw: RawJsonMessage, trimmed: Seq<char>)
    requires
        message_matches(m, raw, trimmed),
        raw.action@ == "start"@,
        raw.msg_type == Some(105u64),
        fields_of(raw).len() >= 2,
        parse_derivation_path(field_str(fields_of(raw), 0)) is Some,
    ensures
        m matches NixJsonMessage::Start(s) && s.activity matches Activity::Build { drv, host }
            && parse_derivation_path(field_str(fields_of(raw), 0)) == Some(drv@)
            && host@ == parse_host(field_str(fields_of(raw), 1)),
{
}

/// A `result` message of type 105 with four fields reports progress: the
/// first field is what is done, the second what is expected, the third
/// what is running and the fourth what failed.
pub proof fn lemma_progress_fields_in_order(m: NixJsonMessage, raw: RawJsonMessage, trimmed: Seq<char>)
    requires
        message_matches(m, raw, trimmed),
        raw.action@ == "result"@,
        raw.msg_type == Some(105u64),
        fields_of(raw).len() >= 4,
    ensures
        m matches NixJsonMessage::Result(r) && r.result matches ActivityResult::Progress(p)
            && p.done == field_u64(fields_of(raw), 0) as usize
            && p.expected == field_u64(fields_of(raw), 1) as usize
            && p.running == field_u64(fields_of(raw), 2) as usize
            && p.failed == field_u64(fields_of(raw), 3) as usize,
{
    reveal_strlit("start");
    reveal_strlit("result");
    assert("result"@ != "start"@) by {
        assert("result"@[0] != "start"@[0]);
    }
    assert("result"@ != "stop"@) by {
        reveal_strlit("stop");
        assert("result"@[0] != "stop"@[0]);
    }
}

/// A `result` message reports a log line (type 101) or a phase (type 104)
/// as the text of its first field, and a linked file (type 100) as the
/// numbers of its first two fields, in their order.
pub proof fn lemma_result_texts_from_first_field(m: NixJsonMessage, raw: RawJsonMessage, trimmed: Seq<char>)
    requires
        message_matches(m, raw, trimmed),
        raw.action@ == "result"@,
    ensures
        raw.msg_type == Some(101u64) ==> (m matches NixJsonMessage::Result(r) && r.result matches ActivityResult::BuildLogLine(l)
            && l@ == field_str(fields_of(raw), 0)),
        raw.msg_type == Some(104u64) ==> (m matches NixJsonMessage::Result(r) && r.result matches ActivityResult::SetPhase(p)
            && p@ == field_str(fields_of(raw), 0)),
        raw.msg_type == Some(100u64) ==> (m matches NixJsonMessage::Result(r) && r.result matches ActivityResult::FileLinked(a, b)
            && a == field_u64(fields_of(raw), 0) as usize && b == field_u64(fields_of(raw), 1) as usize),
{
    reveal_strlit("start");
    reveal_strlit("result");
    reveal_strlit("stop");
    assert("result"@[0] != "start"@[0]);
    assert("result"@[0] != "stop"@[0]);
}

// ---------------------------------------------------------------------
// Implementation
// ---------------------------------------------------------------------

fn u64_or(o: Option<u64>, d: u64) -> (r: u64)
    ensures
        r == or_u64(o, d),
{
    match o {
        Some(v) => v,
        None => d,
    }
}

fn string_or_empty(o: &Option<String>) -> (r: String)
    ensures
        r@ == or_empty(*o),
{
    match o {
        Some(s) => s.clone(),
        None => String::new(),
    }
}

fn field_text(f: &Vec<JsonField>, i: usize) -> (r: String)
    ensures
        r@ == field_str(f@, i as int),
{
    if i < f.len() {
        match &f[i] {
            JsonField::Str(s) => s.clone(),
            _ => String::new(),
        }
    } else {
        String::new()
    }
}

fn field_number(f: &Vec<JsonField>, i: usize) -> (r: u64)
    ensures
        r == field_u64(f@, i as int),
{
    if i < f.len() {
        match &f[i] {
            JsonField::Uint(n) => *n,
            _ => 0,
        }
    } else {
        0
    }
}

fn activity_from_fields(t: u64, f: &Vec<JsonField>) -> (a: Activity)
    ensures
        activity_matches(a, t, f@),
{
    if t == 100 {
        if f.len() >= 3 {
            let p = field_text(f, 0);
            if let Some(path) = StorePath::parse(p.as_str()) {
                let from = field_text(f, 1);
                let to = field_text(f, 2);
                return Activity::CopyPath {
                    path,
                    from: Host::parse(from.as_str()),
                    to: Host::parse(to.as_str()),
                };
            }
        }
        Activity::Unknown
    } else if t == 101 {
        Activity::FileTransfer(field_text(f, 0))
    } else if t == 102 {
        Activity::Realise
    } else if t == 103 {
        Activity::CopyPaths
    } else if t == 104 {
        Activity::Builds
    } else if t == 105 {
        if f.len() >= 2 {
            let d = field_text(f, 0);
            if let Some(drv) = Derivation::parse(d.as_str()) {
                let h = field_text(f, 1);
                return Activity::Build { drv, host: Host::parse(h.as_str()) };
            }
        }
        Activity::Unknown
    } else if t == 106 {
        Activity::OptimiseStore
    } else if t == 107 {
        Activity::VerifyPaths
    } else if t == 108 || t == 109 {
        if f.len() >= 2 {
            let p = field_text(f, 0);
            if let Some(path) = StorePath::parse(p.as_str()) {
                let h = field_text(f, 1);
                let host = Host::parse(h.as_str());
                if t == 108 {
                    return Activity::Substitute { path, host };
                } else {
                    return Activity::QueryPathInfo { path, host };
                }
            }
        }
        Activity::Unknown
    } else if t == 110 {
        let is_str = f.len() > 0 && (match &f[0] {
            JsonField::Str(_) => true,
            _ => false,
        });
        if is_str {
            let d = field_text(f, 0);
            if let Some(drv) = Derivation::parse(d.as_str()) {
                return Activity::PostBuildHook(drv);
            }
        }
        Activity::Unknown
    } else if t == 111 {
        Activity::BuildWaiting
    } else if t == 112 {
        Activity::FetchTree
    } else {
        Activity::Unknown
    }
}

fn result_from_fields(t: u64, f: &Vec<JsonField>) -> (r: ActivityResult)
    ensures
        result_matches(r, t, f@),
{
    if t == 100 {
        ActivityResult::FileLinked(field_number(f, 0) as usize, field_number(f, 1) as usize)
    } else if t == 101 {
        ActivityResult::BuildLogLine(field_text(f, 0))
    } else if t == 102 || t == 103 {
        let s = field_text(f, 0);
        match StorePath::parse(s.as_str()) {
            Some(p) => if t == 102 {
                ActivityResult::UntrustedPath(p)
            } else {
                ActivityResult::CorruptedPath(p)
            },
            None => ActivityResult::Other,
        }
    } else if t == 104 {
        ActivityResult::SetPhase(field_text(f, 0))
    } else if t == 105 {
        if f.len() >= 4 {
            ActivityResult::Progress(
                ActivityProgress {
                    done: field_number(f, 0) as usize,
                    expected: field_number(f, 1) as usize,
                    running: field_number(f, 2) as usize,
                    failed: field_number(f, 3) as usize,
                },
            )
        } else {
            ActivityResult::Other
        }
    } else if t == 106 {
        ActivityResult::SetExpected(field_number(f, 0), field_number(f, 1) as usize)
    } else if t == 107 {
        ActivityResult::PostBuildLogLine(field_text(f, 0))
    } else if t == 108 {
        ActivityResult::FetchStatus(field_text(f, 0))
    } else {
        ActivityResult::Other
    }
}

/// The message a decoded record stands for. `trimmed` is the line it came
/// from, without trailing white space; it is the text of a record whose
/// action is none of `start`, `stop`, `result` and `msg`.
pub fn message_from_raw(raw: &RawJsonMessage, trimmed: &str) -> (m: NixJsonMessage)
    ensures
        message_matches(m, *raw, trimmed@),
{
    let empty: Vec<JsonField> = Vec::new();
    let f: &Vec<JsonField> = match &raw.fields {
        Some(v) => v,
        None => &empty,
    };
    if str_eq(raw.action.as_str(), "start") {
        NixJsonMessage::Start(
            StartAction {
                id: u64_or(raw.id, 0),
                level: Verbosity::from_u64(u64_or(raw.level, 3)),
                text: string_or_empty(&raw.text),
                activity: activity_from_fields(u64_or(raw.msg_type, 0), f),
            },
        )
    } else if str_eq(raw.action.as_str(), "stop") {
        NixJsonMessage::Stop(StopAction { id: u64_or(raw.id, 0) })
    } else if str_eq(raw.action.as_str(), "result") {
        NixJsonMessage::Result(
            ResultAction {
                id: u64_or(raw.id, 0),
                result: result_from_fields(u64_or(raw.msg_type, 0), f),
            },
        )
    } else if str_eq(raw.action.as_str(), "msg") {
        NixJsonMessage::Message(
            MessageAction {
                level: Verbosity::from_u64(u64_or(raw.level, 3)),
                message: string_or_empty(&raw.msg),
            },
        )
    } else {
        NixJsonMessage::Plain(owned(trimmed))
    }
}

/// A line of the stream: without trailing white space, and the JSON text
/// after its `@nix ` prefix where it has one.
pub open spec fn json_line_parts(line: Seq<char>) -> (Seq<char>, Option<Seq<char>>) {
    let t = trim_end(line);
    if starts_with(t, "@nix "@) {
        (t, Some(t.skip(5)))
    } else {
        (t, None)
    }
}

/// A line `@nix <j>` carries the JSON text `j` whole, where `j` does not end
/// with white space; a line that does not start with `@nix ` carries none.
pub proof fn lemma_nix_prefix_carries_json(j: Seq<char>, line: Seq<char>)
    requires
        j.len() > 0,
        !crate::text::is_white_space(j.last()),
    ensures
        json_line_parts("@nix "@ + j) == ("@nix "@ + j, Some(j)),
        !starts_with(line, "@nix "@) ==> json_line_parts(line).1 is None,
{
    reveal_strlit("@nix ");
    let l = "@nix "@ + j;
    assert(l.last() == j.last());
    assert(crate::text::rskip_ws(l, l.len() as int) == l.len());
    assert(trim_end(l) =~= l);
    assert(l.subrange(0, 5) =~= "@nix "@);
    assert(l.skip(5) =~= j);
    let t = trim_end(line);
    if starts_with(t, "@nix "@) {
        crate::text::lemma_rskip_ws(line, line.len() as int);
        assert(t =~= line.take(crate::text::rskip_ws(line, line.len() as int)));
        assert(line.subrange(0, 5) =~= t.subrange(0, 5));
    }
}

/// Splits a line of the stream into the line without trailing white space
/// and, for a line that starts with `@nix `, the JSON text after it. A line
/// without the prefix is a [`NixJsonMessage::Plain`] of the first part.
pub fn json_payload(line: &str) -> (r: (String, Option<String>))
    ensures
        r.0@ == json_line_parts(line@).0,
        match r.1 {
            Some(j) => json_line_parts(line@).1 == Some(j@),
            None => json_line_parts(line@).1 is None,
        },
{
    let cs = chars_of(line);
    let end = trim_end_bound(&cs);
    let t = string_of(&cs, 0, end);
    let tc = chars_of(t.as_str());
    let prefix = chars_of("@nix ");
    proof {
        reveal_strlit("@nix ");
    }
    if matches_at(&tc, &prefix, 0) {
        let j = string_of(&tc, 5, tc.len());
        (t, Some(j))
    } else {
        (t, None)
    }
}

} // verus!
