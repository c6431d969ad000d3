use nix_output_monitor::cli::{
    plan_completion, plan_invocation, system_for_platform, system_from_override, Completion,
    Invocation,
};

fn strings(v: &[&str]) -> Vec<String> {
    v.iter().map(|s| s.to_string()).collect()
}

const JSON: [&str; 3] = ["-v", "--log-format", "internal-json"];

fn json_then(v: &[&str]) -> Vec<String> {
    let mut out = strings(&JSON);
    out.extend(strings(v));
    out
}

#[test]
fn version_is_asked_for_alone() {
    assert_eq!(plan_invocation("nom", &strings(&["--version"])), Invocation::ShowVersion);
    assert_eq!(plan_invocation("nom-build", &strings(&["--version"])), Invocation::ShowVersion);
    assert_ne!(plan_invocation("nom", &strings(&["--version", "x"])), Invocation::ShowVersion);
}

#[test]
fn nom_build_runs_nix_build_under_the_monitor() {
    assert_eq!(
        plan_invocation("nom-build", &strings(&["default.nix", "-A", "hello"])),
        Invocation::Monitor { program: "nix-build".to_string(), args: json_then(&["default.nix", "-A", "hello"]) }
    );
    assert_eq!(
        plan_invocation("nom-build", &strings(&["--help"])),
        Invocation::PassThrough { program: "nix-build".to_string(), args: strings(&["--help"]) }
    );
}

#[test]
fn nom_shell_checks_then_opens_the_shell() {
    let mut check = json_then(&["shell.nix"]);
    check.extend(strings(&["--run", "exit"]));
    assert_eq!(
        plan_invocation("nom-shell", &strings(&["shell.nix"])),
        Invocation::CheckThenRun {
            program: "nix-shell".to_string(),
            check_args: check,
            run_args: strings(&["shell.nix"]),
        }
    );
}

#[test]
fn nom_subcommands_are_monitored_or_passed_on() {
    let mut expected = strings(&["build"]);
    expected.extend(json_then(&[".#hello"]));
    assert_eq!(
        plan_invocation("nom", &strings(&["build", ".#hello"])),
        Invocation::Monitor { program: "nix".to_string(), args: expected }
    );
    assert_eq!(
        plan_invocation("nom", &strings(&["copy", "--help"])),
        Invocation::PassThrough { program: "nix".to_string(), args: strings(&["copy", "--help"]) }
    );
    let mut expected = strings(&["flake"]);
    expected.extend(json_then(&["update"]));
    assert_eq!(
        plan_invocation("nom", &strings(&["flake", "update"])),
        Invocation::Monitor { program: "nix".to_string(), args: expected }
    );
}

#[test]
fn nom_develop_builds_with_an_exiting_command_first() {
    let mut check = strings(&["develop"]);
    check.extend(json_then(&[".#dev", "--command", "sh", "-c", "exit"]));
    assert_eq!(
        plan_invocation("nom", &strings(&["develop", ".#dev", "-c", "make"])),
        Invocation::CheckThenRun {
            program: "nix".to_string(),
            check_args: check,
            run_args: strings(&["develop", ".#dev", "-c", "make"]),
        }
    );
}

#[test]
fn nom_alone_monitors_its_input() {
    assert_eq!(plan_invocation("nom", &[]), Invocation::Pipe { json: false });
    assert_eq!(plan_invocation("nom", &strings(&["--json"])), Invocation::Pipe { json: true });
}

#[test]
fn anything_else_shows_the_usage() {
    assert_eq!(plan_invocation("nom", &strings(&["--help"])), Invocation::Help { success: true });
    assert_eq!(plan_invocation("nom", &strings(&["frobnicate"])), Invocation::Help { success: false });
    assert_eq!(plan_invocation("other", &[]), Invocation::Help { success: false });
}

#[test]
fn completion_offers_matching_words() {
    assert_eq!(plan_completion("nom", &strings(&["--"])), Completion::Words(strings(&["--version", "--help", "--json"])));
    assert_eq!(plan_completion("nom", &strings(&["b"])), Completion::Words(strings(&["build"])));
    assert_eq!(
        plan_completion("nom", &strings(&[""])),
        Completion::Words(strings(&["build", "copy", "shell", "develop", "--version", "-h", "--help", "--json"]))
    );
}

#[test]
fn completion_of_subcommands_is_left_to_nix() {
    assert_eq!(
        plan_completion("nom", &strings(&["build", ".#"])),
        Completion::Delegate(strings(&["build", ".#"]))
    );
    assert_eq!(plan_completion("nom", &strings(&["flake", "x"])), Completion::Unsupported);
    assert_eq!(plan_completion("nom-build", &strings(&["x"])), Completion::Unsupported);
}

#[test]
fn system_setting_is_trimmed_and_may_be_blank() {
    assert_eq!(system_from_override("  aarch64-linux \n"), Some("aarch64-linux".to_string()));
    assert_eq!(system_from_override("   "), None);
    assert_eq!(system_from_override(""), None);
}

#[test]
fn known_platforms_name_their_system() {
    assert_eq!(system_for_platform("x86_64", "linux"), Some("x86_64-linux".to_string()));
    assert_eq!(system_for_platform("aarch64", "macos"), Some("aarch64-darwin".to_string()));
    assert_eq!(system_for_platform("riscv64", "linux"), Some("riscv64-linux".to_string()));
    assert_eq!(system_for_platform("riscv64", "macos"), None);
    assert_eq!(system_for_platform("x86_64", "windows"), None);
}
