//! Reading the command line: what to run, and the argument lists handed to
//! nix.
use vstd::prelude::*;
use crate::text::{chars_of, owned, starts_with, str_eq, string_of, trim, trimmed};

verus! {

pub open spec fn arg_views(args: Seq<String>) -> Seq<Seq<char>> {
    args.map_values(|a: String| a@)
}

proof fn lemma_arg_views_push(s: Seq<String>, a: String)
    ensures
        arg_views(s.push(a)) == arg_views(s).push(a@),
{
    assert(arg_views(s.push(a)) =~= arg_views(s).push(a@));
}

/// The flags that make nix log in its internal JSON format.
pub open spec fn json_flags() -> Seq<Seq<char>> {
    seq!["-v"@, "--log-format"@, "internal-json"@]
}

/// The arguments with nix's JSON logging flags in front of them.
pub fn with_json(args: &[String]) -> (r: Vec<String>)
    ensures
        arg_views(r@) == json_flags() + arg_views(args@),
{
    let mut out: Vec<String> = Vec::new();
    let a = owned("-v");
    let b = owned("--log-format");
    let c = owned("internal-json");
    out.push(a);
    out.push(b);
    out.push(c);
    proof {
        lemma_arg_views_push(seq![], a);
        lemma_arg_views_push(seq![a], b);
        lemma_arg_views_push(seq![a, b], c);
        assert(out@ == seq![a, b, c]);
        assert(arg_views(args@.take(0)) =~= Seq::<Seq<char>>::empty());
        assert(arg_views(out@) =~= json_flags() + arg_views(args@.take(0)));
    }
    let mut i: usize = 0;
    while i < args.len()
        invariant
            i <= args@.len(),
            arg_views(out@) == json_flags() + arg_views(args@.take(i as int)),
        decreases args.len() - i,
    {
        let ghost before = out@;
        out.push(args[i].clone());
        proof {
            assert(args@.take(i + 1) == args@.take(i as int).push(args@[i as int]));
            lemma_arg_views_push(before, args@[i as int]);
            lemma_arg_views_push(args@.take(i as int), args@[i as int]);
            assert(arg_views(out@) =~= json_flags() + arg_views(args@.take(i + 1)));
        }
        i += 1;
    }
    assert(args@.take(args@.len() as int) == args@);
    out
}

/// Whether an argument introduces the command that a nix shell runs.
pub open spec fn is_command_flag(a: Seq<char>) -> bool {
    a == "--command"@ || a == "-c"@
}

/// The index of the first argument that introduces a shell command, or the
/// number of arguments where none does.
pub open spec fn command_flag_index(args: Seq<Seq<char>>, i: int) -> int
    decreases args.len() - i,
{
    if i < 0 || i >= args.len() {
        args.len() as int
    } else if is_command_flag(args[i]) {
        i
    } else {
        command_flag_index(args, i + 1)
    }
}

proof fn lemma_command_flag_index_from(args: Seq<Seq<char>>, i: int)
    requires
        0 <= i <= args.len(),
    ensures
        i <= command_flag_index(args, i) <= args.len(),
        forall|j: int| i <= j < command_flag_index(args, i) ==> !is_command_flag(#[trigger] args[j]),
        command_flag_index(args, i) < args.len() ==> is_command_flag(args[command_flag_index(args, i)]),
    decreases args.len() - i,
{
    if i < args.len() && !is_command_flag(args[i]) {
        lemma_command_flag_index_from(args, i + 1);
    }
}

/// The shell command starts at the first `--command` or `-c`: no argument
/// before it introduces one, and where there is one, it is that argument.
pub proof fn lemma_command_starts_at_first_flag(args: Seq<Seq<char>>)
    ensures
        0 <= command_flag_index(args, 0) <= args.len(),
        forall|j: int| 0 <= j < command_flag_index(args, 0) ==> !is_command_flag(#[trigger] args[j]),
        command_flag_index(args, 0) < args.len() ==> is_command_flag(args[command_flag_index(args, 0)]),
        (forall|j: int| 0 <= j < args.len() ==> !is_command_flag(#[trigger] args[j])) ==> command_flag_index(args, 0) == args.len(),
{
    lemma_command_flag_index_from(args, 0);
}

/// The command that exits at once.
pub open spec fn exit_command() -> Seq<Seq<char>> {
    seq!["--command"@, "sh"@, "-c"@, "exit"@]
}

/// The arguments up to the first `--command` or `-c`, followed by a command
/// that exits at once.
pub fn replace_command_with_exit(args: &[String]) -> (r: Vec<String>)
    ensures
        arg_views(r@) == arg_views(args@).take(command_flag_index(arg_views(args@), 0))
            + exit_command(),
{
    let ghost views = arg_views(args@);
    let mut out: Vec<String> = Vec::new();
    let mut i: usize = 0;
    while i < args.len()
        invariant
            i <= args@.len(),
            views == arg_views(args@),
            command_flag_index(views, 0) == command_flag_index(views, i as int),
            arg_views(out@) == views.take(i as int),
        ensures
            i <= args@.len(),
            command_flag_index(views, 0) == i,
            arg_views(out@) == views.take(i as int),
        decreases args.len() - i,
    {
        if str_eq(args[i].as_str(), "--command") || str_eq(args[i].as_str(), "-c") {
            break;
        }
        let ghost before = out@;
        out.push(args[i].clone());
        proof {
            lemma_arg_views_push(before, args@[i as int]);
            assert(arg_views(out@) =~= views.take(i + 1));
        }
        i += 1;
    }
    let ghost kept = out@;
    let a = owned("--command");
    let b = owned("sh");
    let c = owned("-c");
    let d = owned("exit");
    out.push(a);
    out.push(b);
    out.push(c);
    out.push(d);
    proof {
        lemma_arg_views_push(kept, a);
        lemma_arg_views_push(kept.push(a), b);
        lemma_arg_views_push(kept.push(a).push(b), c);
        lemma_arg_views_push(kept.push(a).push(b).push(c), d);
        assert(out@ == kept.push(a).push(b).push(c).push(d));
        assert(arg_views(out@) =~= views.take(command_flag_index(views, 0)) + exit_command());
    }
    out
}


/// Whether one of the arguments is `lit`.
fn has_arg(args: &[String], lit: &str) -> (r: bool)
    ensures
        r == arg_views(args@).contains(lit@),
{
    let mut i: usize = 0;
    while i < args.len()
        invariant
            i <= args@.len(),
            forall|j: int| 0 <= j < i ==> args@[j]@ != lit@,
        decreases args.len() - i,
    {
        if str_eq(args[i].as_str(), lit) {
            assert(arg_views(args@)[i as int] == lit@);
            return true;
        }
        i += 1;
    }
    proof {
        if arg_views(args@).contains(lit@) {
            let j = choose|j: int| 0 <= j < arg_views(args@).len() && arg_views(args@)[j] == lit@;
            assert(args@[j]@ == lit@);
        }
    }
    false
}

/// The arguments from index `from` on.
fn args_from(args: &[String], from: usize) -> (r: Vec<String>)
    requires
        from <= args@.len(),
    ensures
        arg_views(r@) == arg_views(args@).skip(from as int),
{
    let mut out: Vec<String> = Vec::new();
    let mut i: usize = from;
    while i < args.len()
        invariant
            from <= i <= args@.len(),
            arg_views(out@) == arg_views(args@).subrange(from as int, i as int),
        decreases args.len() - i,
    {
        let ghost before = out@;
        out.push(args[i].clone());
        proof {
            lemma_arg_views_push(before, args@[i as int]);
            assert(arg_views(out@) =~= arg_views(args@).subrange(from as int, i + 1));
        }
        i += 1;
    }
    assert(arg_views(args@).subrange(from as int, args@.len() as int) =~= arg_views(args@).skip(from as int));
    out
}

/// `first`, then the arguments `rest`.
fn led_by(first: &str, rest: Vec<String>) -> (r: Vec<String>)
    ensures
        arg_views(r@) == seq![first@] + arg_views(rest@),
{
    let mut out: Vec<String> = Vec::new();
    out.push(owned(first));
    let mut rest = rest;
    let ghost head = out@;
    let ghost tail = rest@;
    out.append(&mut rest);
    assert(arg_views(out@) =~= seq![first@] + arg_views(tail));
    out
}

/// What a run of the program does.
#[derive(Debug, PartialEq)]
pub enum Invocation {
    /// Tells its version, then has nix tell its own.
    ShowVersion,
    /// Hands the arguments to `program` and lets it do the rest.
    PassThrough { program: String, args: Vec<String> },
    /// Runs `program` with `args` and monitors its output.
    Monitor { program: String, args: Vec<String> },
    /// Runs `program` with `check_args` quietly under the monitor; where that
    /// succeeds, runs it with `run_args` in the foreground.
    CheckThenRun { program: String, check_args: Vec<String>, run_args: Vec<String> },
    /// Monitors the standard input, as JSON where `json` holds.
    Pipe { json: bool },
    /// Shows the usage, and succeeds where it was asked for.
    Help { success: bool },
}

/// What an invocation is, over plain values.
pub enum InvocationModel {
    ShowVersion,
    PassThrough(Seq<char>, Seq<Seq<char>>),
    Monitor(Seq<char>, Seq<Seq<char>>),
    CheckThenRun(Seq<char>, Seq<Seq<char>>, Seq<Seq<char>>),
    Pipe(bool),
    Help(bool),
}

pub open spec fn invocation_model(i: Invocation) -> InvocationModel {
    match i {
        Invocation::ShowVersion => InvocationModel::ShowVersion,
        Invocation::PassThrough { program, args } => InvocationModel::PassThrough(program@, arg_views(args@)),
        Invocation::Monitor { program, args } => InvocationModel::Monitor(program@, arg_views(args@)),
        Invocation::CheckThenRun { program, check_args, run_args } => InvocationModel::CheckThenRun(
            program@,
            arg_views(check_args@),
            arg_views(run_args@),
        ),
        Invocation::Pipe { json } => InvocationModel::Pipe(json),
        Invocation::Help { success } => InvocationModel::Help(success),
    }
}

/// The nix subcommands whose output is monitored as they run.
pub open spec fn is_monitored_subcommand(a: Seq<char>) -> bool {
    a == "build"@ || a == "copy"@ || a == "flake"@
}

/// The nix subcommands that open a shell once their build is done.
pub open spec fn is_shell_subcommand(a: Seq<char>) -> bool {
    a == "shell"@ || a == "develop"@
}

/// What the program does when called as `prog` with `args`: `--version`
/// alone asks for the versions; `nom-build` builds under the monitor (or
/// hands `--help` to `nix-build`); `nom-shell` builds the shell quietly, then
/// opens it; `nom build`, `nom copy` and `nom flake` run under the monitor
/// (or hand `--help` to nix); `nom shell` and `nom develop` build with a
/// command that exits at once, then run as asked; `nom` alone or with
/// `--json` monitors its input; anything else shows the usage.
pub open spec fn planned_invocation(prog: Seq<char>, args: Seq<Seq<char>>) -> InvocationModel {
    if args.len() == 1 && args[0] == "--version"@ {
        InvocationModel::ShowVersion
    } else if prog == "nom-build"@ {
        if args.contains("--help"@) {
            InvocationModel::PassThrough("nix-build"@, args)
        } else {
            InvocationModel::Monitor("nix-build"@, json_flags() + args)
        }
    } else if prog == "nom-shell"@ {
        InvocationModel::CheckThenRun("nix-shell"@, json_flags() + args + seq!["--run"@, "exit"@], args)
    } else if prog == "nom"@ && args.len() >= 1 && is_monitored_subcommand(args[0]) {
        let rest = args.skip(1);
        if rest.contains("--help"@) {
            InvocationModel::PassThrough("nix"@, seq![args[0]] + rest)
        } else {
            InvocationModel::Monitor("nix"@, seq![args[0]] + (json_flags() + rest))
        }
    } else if prog == "nom"@ && args.len() >= 1 && is_shell_subcommand(args[0]) {
        let rest = args.skip(1);
        InvocationModel::CheckThenRun(
            "nix"@,
            seq![args[0]] + (json_flags() + (rest.take(command_flag_index(rest, 0)) + exit_command())),
            seq![args[0]] + rest,
        )
    } else if prog == "nom"@ && args.len() == 0 {
        InvocationModel::Pipe(false)
    } else if prog == "nom"@ && args.len() == 1 && args[0] == "--json"@ {
        InvocationModel::Pipe(true)
    } else {
        InvocationModel::Help(args.contains("-h"@) || args.contains("--help"@))
    }
}

/// The arguments hold nix's JSON logging flags, in their order, somewhere.
pub open spec fn holds_json_flags(a: Seq<Seq<char>>) -> bool {
    exists|i: int| 0 <= i && i + 3 <= a.len() && #[trigger] a.subrange(i, i + 3) == json_flags()
}

/// Whatever runs under the monitor logs as JSON: a monitored run, and the
/// quiet run of a check, hold nix's JSON logging flags; a run handed to nix
/// untouched is one that asks for help, and gets the arguments as given
/// (after the subcommand for `nom`).
pub proof fn lemma_monitored_runs_log_json(prog: Seq<char>, args: Seq<Seq<char>>)
    ensures
        planned_invocation(prog, args) matches InvocationModel::Monitor(_, a) ==> holds_json_flags(a),
        planned_invocation(prog, args) matches InvocationModel::CheckThenRun(_, a, _) ==> holds_json_flags(a),
        planned_invocation(prog, args) matches InvocationModel::PassThrough(_, a) ==> a == args && args.contains("--help"@),
{
    let f = json_flags();
    match planned_invocation(prog, args) {
        InvocationModel::Monitor(_, a) => {
            if prog == "nom-build"@ && !(args.len() == 1 && args[0] == "--version"@) {
                let i = 0int;
                assert(a.subrange(i, i + 3) =~= f);
            } else {
                let i = 1int;
                assert(a.subrange(i, i + 3) =~= f);
            }
        },
        InvocationModel::CheckThenRun(_, a, _) => {
            if prog == "nom-shell"@ {
                let i = 0int;
                assert(a.subrange(i, i + 3) =~= f);
            } else {
                let i = 1int;
                assert(a.subrange(i, i + 3) =~= f);
            }
        },
        InvocationModel::PassThrough(_, a) => {
            if prog != "nom-build"@ {
                let rest = args.skip(1);
                assert(seq![args[0]] + rest =~= args);
                let k = choose|k: int| 0 <= k < rest.len() && rest[k] == "--help"@;
                assert(args[k + 1] == "--help"@);
            }
        },
        _ => {},
    }
}

/// Decides what to do for a call as `prog` with `args`.
pub fn plan_invocation(prog: &str, args: &[String]) -> (r: Invocation)
    ensures
        invocation_model(r) == planned_invocation(prog@, arg_views(args@)),
{
    let ghost views = arg_views(args@);
    if args.len() == 1 && str_eq(args[0].as_str(), "--version") {
        return Invocation::ShowVersion;
    }
    if str_eq(prog, "nom-build") {
        if has_arg(args, "--help") {
            let all = args_from(args, 0);
            assert(views.skip(0) =~= views);
            return Invocation::PassThrough { program: owned("nix-build"), args: all };
        }
        return Invocation::Monitor { program: owned("nix-build"), args: with_json(args) };
    }
    if str_eq(prog, "nom-shell") {
        let mut check_args = with_json(args);
        let ghost before = check_args@;
        let run = owned("--run");
        let exit = owned("exit");
        check_args.push(run);
        check_args.push(exit);
        proof {
            lemma_arg_views_push(before, run);
            lemma_arg_views_push(before.push(run), exit);
            assert(check_args@ == before.push(run).push(exit));
            assert(arg_views(check_args@) =~= json_flags() + views + seq!["--run"@, "exit"@]);
        }
        let all = args_from(args, 0);
        assert(views.skip(0) =~= views);
        return Invocation::CheckThenRun { program: owned("nix-shell"), check_args, run_args: all };
    }
    if str_eq(prog, "nom") && args.len() >= 1 {
        let sub = args[0].as_str();
        let monitored = str_eq(sub, "build") || str_eq(sub, "copy") || str_eq(sub, "flake");
        let shell = str_eq(sub, "shell") || str_eq(sub, "develop");
        if monitored {
            let rest = args_from(args, 1);
            if has_arg(rest.as_slice(), "--help") {
                return Invocation::PassThrough { program: owned("nix"), args: led_by(sub, rest) };
            }
            let with = with_json(rest.as_slice());
            return Invocation::Monitor { program: owned("nix"), args: led_by(sub, with) };
        }
        if shell {
            let rest = args_from(args, 1);
            let filtered = replace_command_with_exit(rest.as_slice());
            let check = led_by(sub, with_json(filtered.as_slice()));
            let run = led_by(sub, rest);
            return Invocation::CheckThenRun { program: owned("nix"), check_args: check, run_args: run };
        }
    }
    if str_eq(prog, "nom") && args.len() == 0 {
        return Invocation::Pipe { json: false };
    }
    if str_eq(prog, "nom") && args.len() == 1 && str_eq(args[0].as_str(), "--json") {
        return Invocation::Pipe { json: true };
    }
    let success = has_arg(args, "-h") || has_arg(args, "--help");
    Invocation::Help { success }
}

/// The words the shell completion offers for the first argument: the
/// subcommands, then the flags.
pub open spec fn completion_words() -> Seq<Seq<char>> {
    seq!["build"@, "copy"@, "shell"@, "develop"@, "--version"@, "-h"@, "--help"@, "--json"@]
}

/// The first `k` of `words` that start with `input`, in order.
pub open spec fn matching_words(words: Seq<Seq<char>>, input: Seq<char>, k: int) -> Seq<Seq<char>>
    decreases k,
{
    if k <= 0 || k > words.len() {
        Seq::empty()
    } else if starts_with(words[k - 1], input) {
        matching_words(words, input, k - 1).push(words[k - 1])
    } else {
        matching_words(words, input, k - 1)
    }
}

/// What the shell completion does.
#[derive(Debug, PartialEq)]
pub enum Completion {
    /// Offers these words.
    Words(Vec<String>),
    /// Leaves completion to nix, called with these arguments.
    Delegate(Vec<String>),
    /// Has no completion for the call.
    Unsupported,
}

/// What a completion is, over plain values.
pub enum CompletionModel {
    Words(Seq<Seq<char>>),
    Delegate(Seq<Seq<char>>),
    Unsupported,
}

pub open spec fn completion_model(c: Completion) -> CompletionModel {
    match c {
        Completion::Words(w) => CompletionModel::Words(arg_views(w@)),
        Completion::Delegate(a) => CompletionModel::Delegate(arg_views(a@)),
        Completion::Unsupported => CompletionModel::Unsupported,
    }
}

/// The subcommands whose completion nix does.
pub open spec fn is_completed_subcommand(a: Seq<char>) -> bool {
    a == "build"@ || a == "copy"@ || a == "shell"@ || a == "develop"@
}

/// The completion for `nom` with one argument being typed: the words that
/// start with it; with a subcommand and more: nix's; otherwise none.
pub open spec fn planned_completion(prog: Seq<char>, args: Seq<Seq<char>>) -> CompletionModel {
    if prog == "nom"@ && args.len() == 1 {
        CompletionModel::Words(matching_words(completion_words(), args[0], completion_words().len() as int))
    } else if prog == "nom"@ && args.len() >= 1 && is_completed_subcommand(args[0]) {
        CompletionModel::Delegate(args)
    } else {
        CompletionModel::Unsupported
    }
}

/// Decides the shell completion for a call as `prog` with `args`.
pub fn plan_completion(prog: &str, args: &[String]) -> (r: Completion)
    ensures
        completion_model(r) == planned_completion(prog@, arg_views(args@)),
{
    let ghost views = arg_views(args@);
    if str_eq(prog, "nom") && args.len() == 1 {
        let input = chars_of(args[0].as_str());
        let words: [&str; 8] = ["build", "copy", "shell", "develop", "--version", "-h", "--help", "--json"];
        let ghost ws = completion_words();
        proof {
            assert(words@.map_values(|w: &str| w@) =~= ws);
        }
        let mut out: Vec<String> = Vec::new();
        let mut k: usize = 0;
        while k < 8
            invariant
                k <= 8,
                words@.len() == 8,
                words@.map_values(|w: &str| w@) == ws,
                ws == completion_words(),
                input@ == views[0],
                arg_views(out@) == matching_words(ws, input@, k as int),
            decreases 8 - k,
        {
            let w = words[k];
            assert(w@ == ws[k as int]);
            let wc = chars_of(w);
            if crate::text::matches_at(&wc, &input, 0) {
                let ghost before = out@;
                let o = owned(w);
                out.push(o);
                proof {
                    lemma_arg_views_push(before, o);
                }
            }
            k += 1;
        }
        return Completion::Words(out);
    }
    if str_eq(prog, "nom") && args.len() >= 1 {
        let sub = args[0].as_str();
        if str_eq(sub, "build") || str_eq(sub, "copy") || str_eq(sub, "shell") || str_eq(sub, "develop") {
            let all = args_from(args, 0);
            assert(views.skip(0) =~= views);
            return Completion::Delegate(all);
        }
    }
    Completion::Unsupported
}


/// The system named by the `NIX_SYSTEM` setting: its value trimmed, where
/// anything is left.
pub open spec fn system_override(value: Seq<char>) -> Option<Seq<char>> {
    if trim(value).len() > 0 {
        Some(trim(value))
    } else {
        None
    }
}

pub fn system_from_override(value: &str) -> (r: Option<String>)
    ensures
        match r {
            Some(s) => system_override(value@) == Some(s@),
            None => system_override(value@) is None,
        },
{
    let t = trimmed(&chars_of(value));
    if t.len() > 0 {
        let s = string_of(&t, 0, t.len());
        assert(t@.subrange(0, t@.len() as int) =~= t@);
        Some(s)
    } else {
        None
    }
}

/// The nix system of a machine with the given architecture and operating
/// system, for those nix is known to name this way.
pub open spec fn known_system(arch: Seq<char>, os: Seq<char>) -> Option<Seq<char>> {
    if arch == "x86_64"@ && os == "linux"@ {
        Some("x86_64-linux"@)
    } else if arch == "aarch64"@ && os == "linux"@ {
        Some("aarch64-linux"@)
    } else if arch == "i686"@ && os == "linux"@ {
        Some("i686-linux"@)
    } else if arch == "riscv64"@ && os == "linux"@ {
        Some("riscv64-linux"@)
    } else if arch == "x86_64"@ && os == "macos"@ {
        Some("x86_64-darwin"@)
    } else if arch == "aarch64"@ && os == "macos"@ {
        Some("aarch64-darwin"@)
    } else {
        None
    }
}

pub fn system_for_platform(arch: &str, os: &str) -> (r: Option<String>)
    ensures
        match r {
            Some(s) => known_system(arch@, os@) == Some(s@),
            None => known_system(arch@, os@) is None,
        },
{
    if str_eq(os, "linux") {
        if str_eq(arch, "x86_64") {
            return Some(owned("x86_64-linux"));
        } else if str_eq(arch, "aarch64") {
            return Some(owned("aarch64-linux"));
        } else if str_eq(arch, "i686") {
            return Some(owned("i686-linux"));
        } else if str_eq(arch, "riscv64") {
            return Some(owned("riscv64-linux"));
        }
    } else if str_eq(os, "macos") {
        if str_eq(arch, "x86_64") {
            return Some(owned("x86_64-darwin"));
        } else if str_eq(arch, "aarch64") {
            return Some(owned("aarch64-darwin"));
        }
    }
    proof {
        reveal_strlit("linux");
        reveal_strlit("macos");
    }
    None
}

} // verus!
