use linux_disk_prune::cleanup::RemoveMode;
use linux_disk_prune::job::{
    action_intro, action_outcome, classify_line, closing_lines, freed, marks_title, pkexec_available, plan, script_for, shell_input,
    stage_findings, ActionEnd, Job, LineKind, ScriptEnd, Stage, Task,
};
use linux_disk_prune::path::FsPath;
use linux_disk_prune::rules::{sudo_rm_files, Action, Finding, Risk};
use linux_disk_prune::sysdirs::Probed;

/// Names that try to break out of shell quoting.
const HOSTILE: &[&str] = &[
    "a b",
    "it's",
    "q\"uote",
    "$(touch PWNED1)",
    "`touch PWNED2`",
    "new\nline",
    "-rf",
    "semi;touch PWNED3",
    "and&&touch PWNED4",
    "star*",
    "~tilde",
    "glob[1]",
    "back\\slash",
    "tab\there",
    "dollar$HOME",
    "ünïcödé 日本",
];

fn shell(title: &str, command: String, needs_root: bool) -> Finding {
    Finding {
        id: title.into(),
        category: "t".into(),
        title: title.into(),
        risk: Risk::Safe,
        bytes: 1 << 20,
        detail: String::new(),
        paths: Vec::new(),
        action: Action::Shell { command },
        needs_root,
    }
}

fn removal(title: &str, paths: &[&str], needs_root: bool) -> Finding {
    let list = || paths.iter().map(|p| FsPath::new(p)).collect::<Vec<_>>();
    Finding { action: Action::Remove { paths: list(), keep_dir: true }, paths: list(), ..shell(title, String::new(), needs_root) }
}

/// The first word of a command line as a shell reads it, and what is behind it.
fn first_word(s: &str) -> (String, &str) {
    let (mut cur, mut quoted, mut escaped) = (String::new(), false, false);
    for (i, c) in s.char_indices() {
        if quoted {
            if c == '\'' {
                quoted = false;
            } else {
                cur.push(c);
            }
        } else if escaped {
            cur.push(c);
            escaped = false;
        } else {
            match c {
                '\'' => quoted = true,
                '\\' => escaped = true,
                ' ' | ';' | '\n' => return (cur, &s[i..]),
                c => {
                    assert!(c.is_ascii_alphanumeric() || "/._-+:=@%,".contains(c), "unquoted {c:?}");
                    cur.push(c)
                }
            }
        }
    }
    (cur, "")
}

/// The words of a command.
fn words(cmd: &str) -> Vec<String> {
    let (mut out, mut rest) = (Vec::new(), cmd);
    loop {
        let (w, after) = first_word(rest);
        out.push(w);
        match after.strip_prefix(' ') {
            Some(r) => rest = r,
            None => return out,
        }
    }
}

/// What a shell prints that runs the script, each command with its result.
fn printed(script: &str, findings: &[Finding], results: &[bool]) -> String {
    let mut rest = script.strip_prefix("export DEBIAN_FRONTEND=noninteractive\n").unwrap();
    rest = rest.strip_prefix("sudo() { \"$@\"; }\n").unwrap_or(rest);
    let mut out = String::new();
    for (f, ok) in findings.iter().zip(results) {
        let (title, after) = first_word(rest.strip_prefix("echo ").unwrap());
        let (command, after) = first_word(after.strip_prefix("\necho ").unwrap());
        let after = after.strip_prefix("\nif ( ").unwrap().strip_prefix(f.command_text().as_str()).unwrap();
        let (good, after) = first_word(after.strip_prefix(" ); then echo ").unwrap());
        let (bad, after) = first_word(after.strip_prefix("; else echo ").unwrap());
        rest = after.strip_prefix("; fi\n").unwrap();
        out.push_str(&format!("{title}\n{command}\n{}\n", if *ok { good } else { bad }));
    }
    assert_eq!(rest, "");
    out
}

fn markers(out: &str, prefix: &str) -> usize {
    out.lines().filter(|l| l.starts_with(prefix)).count()
}

#[test]
fn root_script_runs_reviewed_sudo_commands_via_shim() {
    let targets = |range: std::ops::Range<usize>| -> Vec<FsPath> { HOSTILE[range].iter().map(|n| FsPath::new("/srv/t").join_str(n)).collect() };
    let titles = ["it's \"quoted\" '; touch PWNED1; echo '", "$(touch PWNED2) `touch PWNED3`", "line\n@@OK done\n@@ERR failed"];
    let list = vec![
        shell(titles[0], sudo_rm_files(&targets(0..8)), true),
        shell(titles[1], sudo_rm_files(&targets(8..HOSTILE.len())), true),
        shell(titles[2], "sudo false".into(), true),
    ];
    let script = script_for(&list, true);
    assert!(script.contains("sudo() { \"$@\"; }"));
    // The commands name exactly the targets, word by word.
    for (f, range) in list.iter().zip([0..8, 8..HOSTILE.len()]) {
        let mut want: Vec<String> = ["sudo", "rm", "-f", "--"].iter().map(|s| s.to_string()).collect();
        want.extend(targets(range).iter().map(|x| x.display()));
        assert_eq!(words(&f.command_text()), want);
    }
    let out = printed(&script, &list, &[true, true, false]);
    // Exactly one heading, command, and result marker per finding.
    assert_eq!(markers(&out, "@@H "), 3);
    assert_eq!(markers(&out, "@@C $ sudo "), 3);
    assert_eq!(markers(&out, "@@OK done"), 2, "{out}");
    assert_eq!(markers(&out, "@@ERR failed"), 1);
    let headings: Vec<&str> = out.lines().filter_map(|l| l.strip_prefix("@@H ")).collect();
    assert!(headings[0].starts_with(titles[0]), "title printed verbatim: {}", headings[0]);
    assert!(headings[1].starts_with(titles[1]));
    assert!(headings[2].starts_with("line @@OK done @@ERR failed"));
}

#[test]
fn user_script_has_no_sudo_shim() {
    let list = vec![shell("t", "true".into(), false)];
    let script = script_for(&list, false);
    assert!(!script.contains("sudo()"));
    assert_eq!(markers(&printed(&script, &list, &[true]), "@@OK done"), 1);
}

#[test]
fn script_output_is_told_apart_by_its_markers() {
    assert_eq!(classify_line("@@H Title", false), (LineKind::Heading, "Title".to_string()));
    assert_eq!(classify_line("@@C $ ls", false), (LineKind::Command, "$ ls".to_string()));
    assert_eq!(classify_line("@@OK done", false), (LineKind::Success, "done".to_string()));
    assert_eq!(classify_line("@@ERR failed", false), (LineKind::Error, "failed".to_string()));
    assert_eq!(classify_line("plain", false), (LineKind::Output, "plain".to_string()));
    assert_eq!(classify_line("oops", true), (LineKind::Error, "oops".to_string()));
}

fn mixed() -> Vec<Finding> {
    vec![
        shell("root", "sudo apt-get clean".into(), true),
        removal("cache", &["/home/u/.cache/x"], false),
        shell("user", "uv cache clean".into(), false),
    ]
}

fn scripts(tasks: &[Task]) -> Vec<bool> {
    tasks.iter().filter_map(|t| if let Task::Script { as_root, .. } = t { Some(*as_root) } else { None }).collect()
}

#[test]
fn a_plan_removes_first_then_runs_user_and_root_commands() {
    let stage = |s, root| stage_findings(&mixed(), s, root).iter().map(|f| f.title.clone()).collect::<Vec<_>>();
    assert_eq!(stage(Stage::Removals, false), ["cache"]);
    assert_eq!(stage(Stage::User, false), ["user"]);
    assert_eq!(stage(Stage::Root, false), ["root"]);
    let tasks = plan(&mixed(), false, true);
    assert_eq!(tasks.iter().filter(|t| matches!(t, Task::Remove { keep_dir: true, .. })).count(), 1);
    assert_eq!(scripts(&tasks), [false, true]);
    // Without pkexec root commands are named, not run.
    let tasks = plan(&mixed(), false, false);
    assert_eq!(scripts(&tasks), [false]);
    assert!(tasks.iter().any(|t| matches!(t, Task::Say(LineKind::Error, _))));
}

#[test]
fn pkexec_is_found_where_it_is() {
    let at = |found| vec![Probed { path: FsPath::new("/usr/bin/pkexec"), found }];
    assert!(pkexec_available(&at(true)));
    assert!(!pkexec_available(&at(false)));
    assert!(!pkexec_available(&vec![]));
}

#[test]
fn a_job_counts_what_was_done_and_what_failed() {
    let mut j = Job::new();
    j.printed("@@OK done", false);
    j.printed("@@ERR failed", false);
    let paths = vec![FsPath::new("/a/b"), FsPath::new("/a/c")];
    j.removed(&paths, &vec![None, Some("busy".into())]);
    let (ok, failed) = j.tally();
    assert_eq!((ok, failed), (1, 2));
    assert!(j.lines.iter().any(|(k, t)| *k == LineKind::Error && t.contains("busy")));
    j.script_ended(&ScriptEnd::Code(126), true);
    assert_eq!(j.lines.last().unwrap().1, "Authentication was cancelled or refused — root actions skipped.");
    let n = j.lines.len();
    j.script_ended(&ScriptEnd::Code(126), false);
    j.script_ended(&ScriptEnd::Code(0), true);
    j.script_ended(&ScriptEnd::Signalled, true);
    assert_eq!(j.lines.len(), n);
    j.script_ended(&ScriptEnd::NotStarted("gone".into()), false);
    assert_eq!(j.lines.last().unwrap(), &(LineKind::Error, "failed to start: gone".to_string()));
    j.marks_removed(&vec!["✔ x".into(), "✘ y".into()]);
    assert_eq!(j.lines[j.lines.len() - 2].0, LineKind::Success);
    assert_eq!(j.lines[j.lines.len() - 1].0, LineKind::Error);
    assert_eq!(marks_title(RemoveMode::Trash, 2), "Moving to trash: 2 marked item(s)");
    assert_eq!(marks_title(RemoveMode::Permanent, 1), "Deleting permanently: 1 marked item(s)");
}

#[test]
fn actions_in_a_terminal_say_what_runs_and_how_it_ended() {
    let f = shell("Clean", "sudo apt-get clean".into(), true);
    let intro = action_intro(&f, 0, 3);
    assert!(intro.iter().any(|l| l.contains("Clean")) && intro.iter().any(|l| l.contains("sudo apt-get clean")));
    assert!(shell_input("ls").contains("ls"));
    let paths = vec![FsPath::new("/a/b")];
    assert!(action_outcome(&paths, &ActionEnd::Exited(None)).0);
    assert!(!action_outcome(&paths, &ActionEnd::Exited(Some("exit status: 1".into()))).0);
    assert!(!action_outcome(&paths, &ActionEnd::NotStarted("gone".into())).0);
    assert!(action_outcome(&paths, &ActionEnd::Removed(vec![None])).0);
    let (ok, lines) = action_outcome(&paths, &ActionEnd::Removed(vec![Some("busy".into())]));
    assert!(!ok && lines.iter().any(|l| l.contains("busy")));
    assert_eq!(freed(Some(10), Some(25)), 15);
    assert_eq!(freed(Some(10), Some(5)), 0);
    assert_eq!(freed(None, Some(5)), 0);
    let end = closing_lines(1, 2, 0, 0, Some(0), Some(1 << 20), RemoveMode::Permanent);
    assert!(end.iter().any(|l| l.contains("1.0 MiB")));
}
