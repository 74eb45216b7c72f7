//! How a confirmed cleanup runs, and what is logged about it.
//!
//! A desktop app has no terminal for `sudo`, so every action that needs root is
//! collected into one script and run through `pkexec`: polkit shows its
//! password dialog once. Inside that script `sudo` is a no-op shell function,
//! so the exact command the user reviewed is what runs.

use vstd::prelude::*;

use crate::cleanup::RemoveMode;
use crate::path::{lossy_text, paths_view, FsPath};
use crate::rules::{actionable, command_of, copy_paths, finding_views, Action, ActionView, Finding, FindingView};
use crate::sysdirs::{first_found, which, Probed};
use crate::rules::kernels::lemma_push_contains;
use crate::text::{chars_of, decimal, digits, lemma_starts, same, starts, string_of, strip_prefix, texts};
use crate::util::{fmt_size, law_quoted_word_is_the_text, quoted, shell_word, shq, size_text};

verus! {

#[derive(Clone, Copy, Debug, PartialEq, Eq, Structural)]
pub enum LineKind {
    Heading,
    Command,
    Output,
    Success,
    Error,
}

/// Lines of the log as values.
pub open spec fn line_views(v: Seq<(LineKind, String)>) -> Seq<(LineKind, Seq<char>)> {
    Seq::new(v.len(), |i: int| (v[i].0, v[i].1@))
}

/// What came of a cleanup.
#[derive(Clone, Copy, Debug)]
pub struct Summary {
    pub ok: usize,
    pub failed: usize,
    pub removed_marks: usize,
}

/// A line that a script printed: its kind by the marker it starts with, and the
/// text behind the marker.
pub open spec fn line_kind(line: Seq<char>, err: bool) -> (LineKind, Seq<char>) {
    if starts(line, "@@H "@) {
        (LineKind::Heading, line.skip("@@H "@.len() as int))
    } else if starts(line, "@@C "@) {
        (LineKind::Command, line.skip("@@C "@.len() as int))
    } else if starts(line, "@@OK "@) {
        (LineKind::Success, line.skip("@@OK "@.len() as int))
    } else if starts(line, "@@ERR "@) {
        (LineKind::Error, line.skip("@@ERR "@.len() as int))
    } else if err {
        (LineKind::Error, line)
    } else {
        (LineKind::Output, line)
    }
}

/// Tell by its marker what a line that a script printed is; `err` for a line
/// of its standard error.
pub fn classify_line(line: &str, err: bool) -> (r: (LineKind, String))
    ensures
        (r.0, r.1@) == line_kind(line@, err),
{
    let v = chars_of(line);
    if let Some(rest) = strip_prefix(&v, "@@H ") {
        return (LineKind::Heading, string_of(&rest));
    }
    if let Some(rest) = strip_prefix(&v, "@@C ") {
        return (LineKind::Command, string_of(&rest));
    }
    if let Some(rest) = strip_prefix(&v, "@@OK ") {
        return (LineKind::Success, string_of(&rest));
    }
    if let Some(rest) = strip_prefix(&v, "@@ERR ") {
        return (LineKind::Error, string_of(&rest));
    }
    let kind = if err {
        LineKind::Error
    } else {
        LineKind::Output
    };
    (kind, line.to_owned())
}

/// The text with line ends turned into blanks.
pub open spec fn on_one_line(s: Seq<char>) -> Seq<char> {
    Seq::new(
        s.len(),
        |i: int|
            if s[i] == '\n' || s[i] == '\r' {
                ' '
            } else {
                s[i]
            },
    )
}

fn one_line(s: &str) -> (r: String)
    ensures
        r@ == on_one_line(s@),
{
    let v = chars_of(s);
    let mut out: Vec<char> = Vec::new();
    for i in 0..v.len()
        invariant
            out@ == on_one_line(v@).take(i as int),
    {
        let c = if v[i] == '\n' || v[i] == '\r' {
            ' '
        } else {
            v[i]
        };
        out.push(c);
        assert(out@ =~= on_one_line(v@).take(i + 1));
    }
    assert(out@ =~= on_one_line(v@));
    string_of(&out)
}

/// The heading of a finding in the log.
pub open spec fn heading_of(f: FindingView) -> Seq<char> {
    f.title + " (~"@ + size_text(f.bytes) + ")"@
}

fn heading(f: &Finding) -> (r: String)
    ensures
        r@ == heading_of(f@),
{
    f.title.clone().concat(" (~").concat(fmt_size(f.bytes).as_str()).concat(")")
}

/// The lines of a script that run the reviewed command of one finding. Echoed
/// text stays on one line, so a line end in a title or path cannot forge a
/// marker line.
pub open spec fn script_part(f: FindingView) -> Seq<char> {
    let cmd = command_of(f.action, f.needs_root);
    "echo "@ + quoted(on_one_line("@@H "@ + heading_of(f))) + "\necho "@ + quoted(on_one_line("@@C $ "@ + cmd)) + "\nif ( "@
        + cmd + " ); then echo "@ + quoted("@@OK done"@) + "; else echo "@ + quoted("@@ERR failed"@) + "; fi\n"@
}

pub open spec fn script_parts(list: Seq<FindingView>) -> Seq<char>
    decreases list.len(),
{
    if list.len() == 0 {
        Seq::empty()
    } else {
        script_parts(list.drop_last()) + script_part(list.last())
    }
}

/// The lines before the first command. As root the reviewed `sudo …` commands
/// run as they are.
pub open spec fn script_head(as_root: bool) -> Seq<char> {
    if as_root {
        "export DEBIAN_FRONTEND=noninteractive\n"@ + "sudo() { \"$@\"; }\n"@
    } else {
        "export DEBIAN_FRONTEND=noninteractive\n"@
    }
}

/// Shell script running each finding's reviewed command, with markers for the
/// log.
pub fn script_for(findings: &Vec<Finding>, as_root: bool) -> (r: String)
    ensures
        r@ == script_head(as_root) + script_parts(finding_views(findings@)),
{
    let ghost fv = finding_views(findings@);
    let mut s = "export DEBIAN_FRONTEND=noninteractive\n".to_owned();
    if as_root {
        s = s.concat("sudo() { \"$@\"; }\n");
    }
    assert(s@ =~= script_head(as_root) + script_parts(fv.take(0)));
    for i in 0..findings.len()
        invariant
            fv == finding_views(findings@),
            s@ == script_head(as_root) + script_parts(fv.take(i as int)),
    {
        let f = &findings[i];
        let cmd = f.command_text();
        let part = "echo ".to_owned().concat(shq(one_line("@@H ".to_owned().concat(heading(f).as_str()).as_str()).as_str()).as_str()).concat(
            "\necho ",
        ).concat(shq(one_line("@@C $ ".to_owned().concat(cmd.as_str()).as_str()).as_str()).as_str()).concat("\nif ( ").concat(
            cmd.as_str(),
        ).concat(" ); then echo ").concat(shq("@@OK done").as_str()).concat("; else echo ").concat(shq("@@ERR failed").as_str()).concat(
            "; fi\n",
        );
        let ghost before = s@;
        proof {
            assert(fv.take(i + 1).drop_last() =~= fv.take(i as int));
            assert(fv.take(i + 1).last() == f@);
            assert(part@ == script_part(f@));
        }
        s = s.concat(part.as_str());
        assert(s@ =~= script_head(as_root) + script_parts(fv.take(i + 1)));
    }
    assert(fv.take(findings@.len() as int) =~= fv);
    s
}

/// Nothing that a script echoes about a finding holds a line end, and the shell
/// takes it as one word that is the text itself: no title or path can forge a
/// marker line.
pub proof fn law_echoed_text_is_one_word_on_one_line(text: Seq<char>)
    ensures
        !on_one_line(text).contains('\n'),
        !on_one_line(text).contains('\r'),
        shell_word(quoted(on_one_line(text)), false) == Some(on_one_line(text)),
{
    law_quoted_word_is_the_text(on_one_line(text));
}

/// The part of a cleanup that an action belongs to.
#[derive(Clone, Copy, Debug, PartialEq, Eq, Structural)]
pub enum Stage {
    /// Removals of user-owned paths, without a shell.
    Removals,
    /// Shell commands as the user.
    User,
    /// Everything that needs root, behind a single prompt.
    Root,
}

pub open spec fn in_stage(f: FindingView, stage: Stage, is_root: bool) -> bool {
    match stage {
        Stage::Removals => f.action is Remove && !f.needs_root,
        Stage::User => f.action is Shell && (!f.needs_root || is_root),
        Stage::Root => f.needs_root && !is_root && actionable(f.action, f.needs_root),
    }
}

/// The findings of one stage, in order.
pub open spec fn staged(list: Seq<FindingView>, stage: Stage, is_root: bool) -> Seq<FindingView>
    decreases list.len(),
{
    if list.len() == 0 {
        Seq::empty()
    } else {
        let rest = staged(list.drop_last(), stage, is_root);
        if in_stage(list.last(), stage, is_root) {
            rest.push(list.last())
        } else {
            rest
        }
    }
}

fn belongs(f: &Finding, stage: Stage, is_root: bool) -> (r: bool)
    ensures
        r == in_stage(f@, stage, is_root),
{
    match stage {
        Stage::Removals => match &f.action {
            Action::Remove { .. } => !f.needs_root,
            _ => false,
        },
        Stage::User => match &f.action {
            Action::Shell { .. } => !f.needs_root || is_root,
            _ => false,
        },
        Stage::Root => f.needs_root && !is_root && f.is_actionable(),
    }
}

/// The findings of one stage.
pub fn stage_findings(findings: &Vec<Finding>, stage: Stage, is_root: bool) -> (r: Vec<Finding>)
    ensures
        finding_views(r@) == staged(finding_views(findings@), stage, is_root),
{
    let ghost fv = finding_views(findings@);
    let mut out: Vec<Finding> = Vec::new();
    assert(finding_views(out@) =~= Seq::empty());
    for i in 0..findings.len()
        invariant
            fv == finding_views(findings@),
            finding_views(out@) == staged(fv.take(i as int), stage, is_root),
    {
        proof {
            assert(fv.take(i + 1).drop_last() =~= fv.take(i as int));
            assert(fv.take(i + 1).last() == findings@[i as int]@);
        }
        if belongs(&findings[i], stage, is_root) {
            let ghost before = out@;
            let f = findings[i].clone();
            out.push(f);
            assert(finding_views(out@) =~= finding_views(before).push(f@));
        }
    }
    assert(fv.take(findings@.len() as int) =~= fv);
    out
}

/// A step of a cleanup.
pub enum Task {
    /// Log a line.
    Say(LineKind, String),
    /// Remove these paths in-process.
    Remove { paths: Vec<FsPath>, keep_dir: bool },
    /// Run a script, through `pkexec` with `as_root`.
    Script { text: String, as_root: bool },
}

#[verifier::ext_equal]
pub enum TaskView {
    Say(LineKind, Seq<char>),
    Remove { paths: Seq<Seq<u8>>, keep_dir: bool },
    Script { text: Seq<char>, as_root: bool },
}

impl View for Task {
    type V = TaskView;

    open spec fn view(&self) -> TaskView {
        match self {
            Task::Say(k, s) => TaskView::Say(*k, s@),
            Task::Remove { paths, keep_dir } => TaskView::Remove { paths: paths_view(paths@), keep_dir: *keep_dir },
            Task::Script { text, as_root } => TaskView::Script { text: text@, as_root: *as_root },
        }
    }
}

pub open spec fn task_views(v: Seq<Task>) -> Seq<TaskView> {
    Seq::new(v.len(), |i: int| v[i]@)
}

/// The steps for the in-process removals.
pub open spec fn removal_tasks(list: Seq<FindingView>) -> Seq<TaskView>
    decreases list.len(),
{
    if list.len() == 0 {
        Seq::empty()
    } else {
        let f = list.last();
        removal_tasks(list.drop_last()).push(TaskView::Say(LineKind::Heading, heading_of(f))).push(
            match f.action {
                ActionView::Remove { paths, keep_dir } => TaskView::Remove { paths, keep_dir },
                _ => TaskView::Remove { paths: Seq::empty(), keep_dir: true },
            },
        )
    }
}

/// The steps for the commands that run as the user.
pub open spec fn user_tasks(list: Seq<FindingView>, is_root: bool) -> Seq<TaskView> {
    if list.len() == 0 {
        Seq::empty()
    } else {
        seq![TaskView::Script { text: script_head(is_root) + script_parts(list), as_root: false }]
    }
}

/// The steps for what needs root.
pub open spec fn root_tasks(list: Seq<FindingView>, pkexec: bool) -> Seq<TaskView> {
    if list.len() == 0 {
        Seq::empty()
    } else if pkexec {
        seq![
            TaskView::Say(
                LineKind::Heading,
                "Asking for administrator rights for "@ + digits(list.len()) + " action(s)…"@,
            ),
            TaskView::Script { text: script_head(true) + script_parts(list), as_root: true },
        ]
    } else {
        seq![TaskView::Say(LineKind::Error, "pkexec not found — run these in a terminal instead:"@)] + Seq::new(
            list.len(),
            |i: int| TaskView::Say(LineKind::Command, "$ "@ + command_of(list[i].action, list[i].needs_root)),
        )
    }
}

/// All steps of a cleanup of suggestions: removals first, then the user's
/// commands, then what needs root.
pub open spec fn plan_of(list: Seq<FindingView>, is_root: bool, pkexec: bool) -> Seq<TaskView> {
    removal_tasks(staged(list, Stage::Removals, is_root)) + user_tasks(staged(list, Stage::User, is_root), is_root) + root_tasks(
        staged(list, Stage::Root, is_root),
        pkexec,
    )
}

proof fn lemma_staged(list: Seq<FindingView>, stage: Stage, is_root: bool)
    ensures
        staged(list, stage, is_root).len() <= list.len(),
        forall|k: int|
            0 <= k < staged(list, stage, is_root).len() ==> in_stage(#[trigger] staged(list, stage, is_root)[k], stage, is_root),
    decreases list.len(),
{
    if list.len() > 0 {
        lemma_staged(list.drop_last(), stage, is_root);
    }
}

/// Plan a cleanup of suggestions. `pkexec` says whether `pkexec` is there.
pub fn plan(findings: &Vec<Finding>, is_root: bool, pkexec: bool) -> (r: Vec<Task>)
    ensures
        task_views(r@) == plan_of(finding_views(findings@), is_root, pkexec),
{
    let mut out: Vec<Task> = Vec::new();
    let removals = stage_findings(findings, Stage::Removals, is_root);
    let ghost rv = finding_views(removals@);
    assert(task_views(out@) =~= Seq::empty());
    for i in 0..removals.len()
        invariant
            rv == finding_views(removals@),
            task_views(out@) == removal_tasks(rv.take(i as int)),
    {
        proof {
            assert(rv.take(i + 1).drop_last() =~= rv.take(i as int));
            assert(rv.take(i + 1).last() == removals@[i as int]@);
        }
        let ghost before = out@;
        let say = Task::Say(LineKind::Heading, heading(&removals[i]));
        let step = match &removals[i].action {
            Action::Remove { paths, keep_dir } => Task::Remove { paths: copy_paths(paths), keep_dir: *keep_dir },
            _ => Task::Remove { paths: Vec::new(), keep_dir: true },
        };
        proof {
            if !(removals@[i as int].action is Remove) {
                assert(step->paths@.len() == 0);
                assert(paths_view(step->paths@) =~= Seq::empty());
            }
        }
        out.push(say);
        out.push(step);
        assert(task_views(out@) =~= task_views(before).push(say@).push(step@));
    }
    assert(rv.take(removals@.len() as int) =~= rv);
    let ghost first = out@;
    let users = stage_findings(findings, Stage::User, is_root);
    assert(finding_views(users@).len() == users@.len());
    if users.len() > 0 {
        let step = Task::Script { text: script_for(&users, is_root), as_root: false };
        out.push(step);
        assert(task_views(out@) =~= task_views(first) + seq![step@]);
    }
    assert(task_views(out@) =~= task_views(first) + user_tasks(finding_views(users@), is_root));
    let ghost second = out@;
    let roots = stage_findings(findings, Stage::Root, is_root);
    let ghost ov = finding_views(roots@);
    assert(ov.len() == roots@.len());
    if roots.len() > 0 {
        if pkexec {
            let say = Task::Say(
                LineKind::Heading,
                "Asking for administrator rights for ".to_owned().concat(decimal(roots.len() as u64).as_str()).concat(" action(s)…"),
            );
            let step = Task::Script { text: script_for(&roots, true), as_root: true };
            out.push(say);
            out.push(step);
            assert(task_views(out@) =~= task_views(second) + seq![say@, step@]);
        } else {
            let ghost want = seq![TaskView::Say(LineKind::Error, "pkexec not found — run these in a terminal instead:"@)] + Seq::new(
                ov.len(),
                |i: int| TaskView::Say(LineKind::Command, "$ "@ + command_of(ov[i].action, ov[i].needs_root)),
            );
            let say = Task::Say(LineKind::Error, "pkexec not found — run these in a terminal instead:".to_owned());
            out.push(say);
            assert(task_views(out@) =~= task_views(second) + want.take(1));
            for i in 0..roots.len()
                invariant
                    ov == finding_views(roots@),
                    want == seq![TaskView::Say(LineKind::Error, "pkexec not found — run these in a terminal instead:"@)] + Seq::new(
                        ov.len(),
                        |i: int| TaskView::Say(LineKind::Command, "$ "@ + command_of(ov[i].action, ov[i].needs_root)),
                    ),
                    task_views(out@) == task_views(second) + want.take(i + 1),
            {
                let ghost before = out@;
                let step = Task::Say(LineKind::Command, "$ ".to_owned().concat(roots[i].command_text().as_str()));
                out.push(step);
                assert(step@ == want[i + 1]);
                assert(task_views(out@) =~= task_views(before).push(step@));
                assert(task_views(out@) =~= task_views(second) + want.take(i + 2));
            }
            assert(want.take(roots@.len() as int + 1) =~= want);
        }
    }
    assert(task_views(out@) =~= task_views(second) + root_tasks(ov, pkexec));
    out
}

/// An action that can be carried out belongs to exactly one stage, save a root
/// removal of paths while running as root; a manual step belongs to none.
pub proof fn law_every_action_runs_once(f: FindingView, is_root: bool)
    requires
        !(f.action is Remove && f.needs_root && is_root),
    ensures
        actionable(f.action, f.needs_root) <==> (in_stage(f, Stage::Removals, is_root) || in_stage(f, Stage::User, is_root)
            || in_stage(f, Stage::Root, is_root)),
        !(in_stage(f, Stage::Removals, is_root) && in_stage(f, Stage::User, is_root)),
        !(in_stage(f, Stage::Removals, is_root) && in_stage(f, Stage::Root, is_root)),
        !(in_stage(f, Stage::User, is_root) && in_stage(f, Stage::Root, is_root)),
{
}

/// Only what needs root is run as root, and only where the user is not root
/// already.
pub proof fn law_root_script_holds_root_actions_only(list: Seq<FindingView>, is_root: bool)
    ensures
        forall|k: int|
            0 <= k < staged(list, Stage::Root, is_root).len() ==> (#[trigger] staged(list, Stage::Root, is_root)[k]).needs_root
                && !is_root,
{
    lemma_staged(list, Stage::Root, is_root);
}

/// Every path went.
pub open spec fn all_went(errors: Seq<Option<String>>) -> bool {
    forall|i: int| 0 <= i < errors.len() ==> (#[trigger] errors[i]) is None
}

/// The log line about one removed path.
pub open spec fn removal_line(p: Seq<u8>, e: Option<String>) -> (LineKind, Seq<char>) {
    match e {
        None => (LineKind::Output, "removed "@ + lossy_text(p)),
        Some(e) => (LineKind::Error, lossy_text(p) + ": "@ + e@),
    }
}

/// Can root actions be run? They are if `pkexec` is in one of its places.
pub fn pkexec_available(places: &Vec<Probed>) -> (r: bool)
    ensures
        r == (first_found(places@) is Some),
{
    which(places).is_some()
}

/// How a script ended.
pub enum ScriptEnd {
    /// It could not be started.
    NotStarted(String),
    /// Its end could not be awaited.
    Lost(String),
    Code(i32),
    /// It was ended by a signal.
    Signalled,
}

/// What is logged about the end of a script. `pkexec` exits with 126 if its
/// dialog was dismissed and with 127 if the user is not authorized.
pub open spec fn end_lines(end: ScriptEnd, as_root: bool) -> Seq<(LineKind, Seq<char>)> {
    match end {
        ScriptEnd::NotStarted(e) => seq![(LineKind::Error, "failed to start: "@ + e@)],
        ScriptEnd::Lost(e) => seq![(LineKind::Error, e@)],
        ScriptEnd::Code(c) => if as_root && (c == 126 || c == 127) {
            seq![(LineKind::Error, "Authentication was cancelled or refused — root actions skipped."@)]
        } else {
            Seq::empty()
        },
        ScriptEnd::Signalled => Seq::empty(),
    }
}

/// How many of the lines are of that kind and text.
pub open spec fn count_of(lines: Seq<(LineKind, Seq<char>)>, kind: LineKind, text: Seq<char>) -> nat
    decreases lines.len(),
{
    if lines.len() == 0 {
        0
    } else {
        count_of(lines.drop_last(), kind, text) + if lines.last().0 == kind && lines.last().1 == text {
            1nat
        } else {
            0
        }
    }
}

/// The heading before the marked items go.
pub open spec fn marks_heading(mode: RemoveMode, n: nat) -> Seq<char> {
    (match mode {
        RemoveMode::Trash => "Moving to trash"@,
        RemoveMode::Permanent => "Deleting permanently"@,
    }) + ": "@ + digits(n) + " marked item(s)"@
}

pub fn marks_title(mode: RemoveMode, n: usize) -> (r: String)
    ensures
        r@ == marks_heading(mode, n as nat),
{
    let verb = match mode {
        RemoveMode::Trash => "Moving to trash",
        RemoveMode::Permanent => "Deleting permanently",
    };
    verb.to_owned().concat(": ").concat(decimal(n as u64).as_str()).concat(" marked item(s)")
}

/// A line about a marked item is good if it starts with a tick.
pub open spec fn mark_line_kind(line: Seq<char>) -> LineKind {
    if line.len() > 0 && line[0] == '✔' {
        LineKind::Success
    } else {
        LineKind::Error
    }
}

pub open spec fn mark_lines(lines: Seq<Seq<char>>) -> Seq<(LineKind, Seq<char>)> {
    Seq::new(lines.len(), |i: int| (mark_line_kind(lines[i]), lines[i]))
}

/// A running cleanup: its log, and its summary once it is over.
pub struct Job {
    pub lines: Vec<(LineKind, String)>,
    /// In-process removals that did not succeed.
    pub failed: usize,
    pub summary: Option<Summary>,
}

impl Job {
    pub open spec fn log(&self) -> Seq<(LineKind, Seq<char>)> {
        line_views(self.lines@)
    }

    pub fn new() -> (r: Job)
        ensures
            r.log() == Seq::<(LineKind, Seq<char>)>::empty(),
            r.failed == 0,
            r.summary is None,
    {
        let r = Job { lines: Vec::new(), failed: 0, summary: None };
        assert(r.log() =~= Seq::empty());
        r
    }

    /// Log a line.
    pub fn say(&mut self, kind: LineKind, text: String)
        ensures
            final(self).log() == old(self).log().push((kind, text@)),
            final(self).failed == old(self).failed,
            final(self).summary == old(self).summary,
    {
        self.lines.push((kind, text));
        assert(self.log() =~= old(self).log().push((kind, text@)));
    }

    /// A script printed a line.
    pub fn printed(&mut self, line: &str, err: bool)
        ensures
            final(self).log() == old(self).log().push(line_kind(line@, err)),
            final(self).failed == old(self).failed,
            final(self).summary == old(self).summary,
    {
        let (kind, text) = classify_line(line, err);
        self.say(kind, text);
    }

    /// The paths of a finding were removed, each or with the error given for it.
    pub fn removed(&mut self, paths: &Vec<FsPath>, errors: &Vec<Option<String>>)
        requires
            paths@.len() == errors@.len(),
            old(self).failed < usize::MAX,
        ensures
            final(self).log() == old(self).log() + Seq::new(
                paths@.len(),
                |i: int| removal_line(paths@[i]@, errors@[i]),
            ) + (if all_went(errors@) {
                seq![(LineKind::Success, "done"@)]
            } else {
                Seq::empty()
            }),
            final(self).failed == old(self).failed + if all_went(errors@) {
                0int
            } else {
                1
            },
            final(self).summary == old(self).summary,
    {
        let ghost start = self.log();
        let ghost want = Seq::new(paths@.len(), |i: int| removal_line(paths@[i]@, errors@[i]));
        let mut all = true;
        assert(start + want.take(0) =~= start);
        for i in 0..paths.len()
            invariant
                paths@.len() == errors@.len(),
                want == Seq::new(paths@.len(), |i: int| removal_line(paths@[i]@, errors@[i])),
                self.log() == start + want.take(i as int),
                self.failed == old(self).failed,
                self.summary == old(self).summary,
                all == all_went(errors@.take(i as int)),
        {
            proof {
                assert(errors@.take(i + 1).drop_last() =~= errors@.take(i as int));
                assert(errors@.take(i + 1)[i as int] == errors@[i as int]);
                if all_went(errors@.take(i + 1)) {
                    assert forall|j: int| 0 <= j < i implies (#[trigger] errors@.take(i as int)[j]) is None by {
                        assert(errors@.take(i + 1)[j] is None);
                    }
                }
                if all && errors@[i as int] is None {
                    assert forall|j: int| 0 <= j < i + 1 implies (#[trigger] errors@.take(i + 1)[j]) is None by {
                        if j < i {
                            assert(errors@.take(i as int)[j] is None);
                        }
                    }
                }
            }
            match &errors[i] {
                None => self.say(LineKind::Output, "removed ".to_owned().concat(paths[i].display().as_str())),
                Some(e) => {
                    all = false;
                    self.say(LineKind::Error, paths[i].display().concat(": ").concat(e.as_str()));
                },
            }
            assert(self.log() =~= start + want.take(i + 1));
        }
        assert(errors@.take(errors@.len() as int) =~= errors@);
        assert(want.take(paths@.len() as int) =~= want);
        if all {
            self.say(LineKind::Success, "done".to_owned());
            assert(self.log() =~= start + want + seq![(LineKind::Success, "done"@)]);
        } else {
            self.failed += 1;
            assert(self.log() =~= start + want + Seq::empty());
        }
    }

    /// A script ended.
    pub fn script_ended(&mut self, end: &ScriptEnd, as_root: bool)
        ensures
            final(self).log() == old(self).log() + end_lines(*end, as_root),
            final(self).failed == old(self).failed,
            final(self).summary == old(self).summary,
    {
        match end {
            ScriptEnd::NotStarted(e) => self.say(LineKind::Error, "failed to start: ".to_owned().concat(e.as_str())),
            ScriptEnd::Lost(e) => self.say(LineKind::Error, e.clone()),
            ScriptEnd::Code(c) => {
                if as_root && (*c == 126 || *c == 127) {
                    self.say(LineKind::Error, "Authentication was cancelled or refused — root actions skipped.".to_owned());
                }
            },
            ScriptEnd::Signalled => {},
        }
        assert(self.log() =~= old(self).log() + end_lines(*end, as_root));
    }

    fn count(&self, kind: LineKind, text: &str) -> (r: usize)
        ensures
            r == count_of(self.log(), kind, text@),
            r <= self.lines@.len(),
    {
        let mut n: usize = 0;
        let ghost all = self.log();
        for i in 0..self.lines.len()
            invariant
                all == self.log(),
                n == count_of(all.take(i as int), kind, text@),
                n <= i,
        {
            assert(all.take(i + 1).drop_last() =~= all.take(i as int));
            if self.lines[i].0 == kind && same(self.lines[i].1.as_str(), text) {
                n += 1;
            }
        }
        assert(all.take(self.lines@.len() as int) =~= all);
        n
    }

    /// What the suggestions came to: every finished action printed a `done` or
    /// a `failed` marker.
    pub fn tally(&self) -> (r: (usize, usize))
        requires
            self.failed + self.lines@.len() <= usize::MAX,
        ensures
            r.0 == count_of(self.log(), LineKind::Success, "done"@),
            r.1 == self.failed + count_of(self.log(), LineKind::Error, "failed"@),
    {
        let bad = self.count(LineKind::Error, "failed");
        (self.count(LineKind::Success, "done"), self.failed + bad)
    }

    /// The marked items were removed, with a line about each.
    pub fn marks_removed(&mut self, lines: &Vec<String>)
        ensures
            final(self).log() == old(self).log() + mark_lines(texts(lines@)),
            final(self).failed == old(self).failed,
            final(self).summary == old(self).summary,
    {
        let ghost start = self.log();
        let ghost want = mark_lines(texts(lines@));
        assert(start + want.take(0) =~= start);
        for i in 0..lines.len()
            invariant
                want == mark_lines(texts(lines@)),
                self.log() == start + want.take(i as int),
                self.failed == old(self).failed,
                self.summary == old(self).summary,
        {
            let v = chars_of(lines[i].as_str());
            let kind = if v.len() > 0 && v[0] == '✔' {
                LineKind::Success
            } else {
                LineKind::Error
            };
            self.say(kind, lines[i].clone());
            assert(self.log() =~= start + want.take(i + 1));
        }
        assert(want.take(lines@.len() as int) =~= want);
    }
}

/// How many bytes more are free after than before.
pub open spec fn gained(before: Option<u64>, after: Option<u64>) -> u64 {
    match (before, after) {
        (Some(b), Some(a)) => if a >= b {
            (a - b) as u64
        } else {
            0
        },
        _ => 0,
    }
}

/// The free space gained on the filesystem, as far as it is known.
pub fn freed(before: Option<u64>, after: Option<u64>) -> (r: u64)
    ensures
        r == gained(before, after),
{
    match (before, after) {
        (Some(b), Some(a)) => if a >= b {
            a - b
        } else {
            0
        },
        _ => 0,
    }
}

/// What the terminal shows before an action runs.
pub open spec fn intro_lines(f: FindingView, i: nat, n: nat) -> Seq<Seq<char>> {
    let head = "\n\x1b[1;36m["@ + digits(i) + "/"@ + digits(n) + "] "@ + f.title + "\x1b[0m  (~"@ + size_text(f.bytes) + ")"@;
    match f.action {
        ActionView::Shell { command } => seq![head, "\x1b[33m$ "@ + command + "\x1b[0m"@],
        _ => seq![head],
    }
}

/// What the terminal shows before the `i`th of `n` actions runs.
pub fn action_intro(f: &Finding, i: usize, n: usize) -> (r: Vec<String>)
    ensures
        texts(r@) == intro_lines(f@, i as nat, n as nat),
{
    let head = "\n\x1b[1;36m[".to_owned().concat(decimal(i as u64).as_str()).concat("/").concat(decimal(n as u64).as_str()).concat("] ").concat(
        f.title.as_str(),
    ).concat("\x1b[0m  (~").concat(fmt_size(f.bytes).as_str()).concat(")");
    let mut out: Vec<String> = Vec::new();
    out.push(head);
    if let Action::Shell { command } = &f.action {
        out.push("\x1b[33m$ ".to_owned().concat(command.as_str()).concat("\x1b[0m"));
    }
    assert(texts(out@) =~= intro_lines(f@, i as nat, n as nat));
    out
}

/// What `sh` reads on its standard input to run a command. One argument is
/// capped in length, standard input is not.
pub open spec fn shell_text(command: Seq<char>) -> Seq<char> {
    "( "@ + command + " ) </dev/null\n"@
}

pub fn shell_input(command: &str) -> (r: String)
    ensures
        r@ == shell_text(command@),
{
    "( ".to_owned().concat(command).concat(" ) </dev/null\n")
}

/// What came of an action that was run in the terminal.
pub enum ActionEnd {
    /// The command ended; with its status as text if it failed.
    Exited(Option<String>),
    NotStarted(String),
    /// The paths were removed, each or with its error.
    Removed(Vec<Option<String>>),
    Manual,
}

pub open spec fn succeeded(end: ActionEnd) -> bool {
    match end {
        ActionEnd::Exited(s) => s is None,
        ActionEnd::NotStarted(_) => false,
        ActionEnd::Removed(errors) => all_went(errors@),
        ActionEnd::Manual => false,
    }
}

/// What the terminal shows about one removed path.
pub open spec fn removal_text(p: Seq<u8>, e: Option<String>) -> Seq<char> {
    match e {
        None => "  removed "@ + lossy_text(p),
        Some(e) => "\x1b[31m  "@ + lossy_text(p) + ": "@ + e@ + "\x1b[0m"@,
    }
}

/// What the terminal shows once an action ran.
pub open spec fn outcome_lines(paths: Seq<Seq<u8>>, end: ActionEnd) -> Seq<Seq<char>> {
    let told = match end {
        ActionEnd::Exited(s) => match s {
            None => Seq::empty(),
            Some(s) => seq!["\x1b[31mcommand exited with "@ + s@ + "\x1b[0m"@],
        },
        ActionEnd::NotStarted(e) => seq!["\x1b[31mfailed to start: "@ + e@ + "\x1b[0m"@],
        ActionEnd::Removed(errors) => Seq::new(paths.len(), |i: int| removal_text(paths[i], errors@[i])),
        ActionEnd::Manual => seq!["  (manual step — nothing executed)"@],
    };
    if succeeded(end) {
        told.push("\x1b[32m  ✔ done\x1b[0m"@)
    } else {
        told
    }
}

/// Tell what came of an action; the flag says whether it succeeded.
pub fn action_outcome(paths: &Vec<FsPath>, end: &ActionEnd) -> (r: (bool, Vec<String>))
    requires
        end matches ActionEnd::Removed(errors) ==> errors@.len() == paths@.len(),
    ensures
        r.0 == succeeded(*end),
        texts(r.1@) == outcome_lines(paths_view(paths@), *end),
{
    let mut out: Vec<String> = Vec::new();
    let mut ok = false;
    let ghost pv = paths_view(paths@);
    match end {
        ActionEnd::Exited(s) => match s {
            None => {
                ok = true;
            },
            Some(s) => out.push("\x1b[31mcommand exited with ".to_owned().concat(s.as_str()).concat("\x1b[0m")),
        },
        ActionEnd::NotStarted(e) => out.push("\x1b[31mfailed to start: ".to_owned().concat(e.as_str()).concat("\x1b[0m")),
        ActionEnd::Removed(errors) => {
            ok = true;
            let ghost want = Seq::new(pv.len(), |i: int| removal_text(pv[i], errors@[i]));
            assert(texts(out@) =~= want.take(0));
            for i in 0..paths.len()
                invariant
                    errors@.len() == paths@.len(),
                    pv == paths_view(paths@),
                    want == Seq::new(pv.len(), |i: int| removal_text(pv[i], errors@[i])),
                    texts(out@) == want.take(i as int),
                    ok == (forall|j: int| 0 <= j < i ==> (#[trigger] errors@[j]) is None),
            {
                let line = match &errors[i] {
                    None => "  removed ".to_owned().concat(paths[i].display().as_str()),
                    Some(e) => {
                        ok = false;
                        "\x1b[31m  ".to_owned().concat(paths[i].display().as_str()).concat(": ").concat(e.as_str()).concat("\x1b[0m")
                    },
                };
                let ghost before = out@;
                out.push(line);
                assert(texts(out@) =~= texts(before).push(line@));
                assert(texts(out@) =~= want.take(i + 1));
            }
            assert(want.take(paths@.len() as int) =~= want);
        },
        ActionEnd::Manual => out.push("  (manual step — nothing executed)".to_owned()),
    }
    let ghost told = texts(out@);
    if ok {
        let ghost before = out@;
        out.push("\x1b[32m  ✔ done\x1b[0m".to_owned());
        assert(texts(out@) =~= texts(before).push("\x1b[32m  ✔ done\x1b[0m"@));
    }
    assert(texts(out@) =~= outcome_lines(pv, *end));
    (ok, out)
}

/// The last lines of a cleanup in the terminal.
pub open spec fn closing(
    done: nat,
    actions: nat,
    removed: nat,
    marks: nat,
    before: Option<u64>,
    after: Option<u64>,
    mode: RemoveMode,
) -> Seq<Seq<char>> {
    let first = seq![
        "\n\x1b[1m"@ + digits(done) + " of "@ + digits(actions) + " cleanup action(s) and "@ + digits(removed) + " of "@ + digits(
            marks,
        ) + " marked item(s) completed.\x1b[0m"@,
    ];
    if before is Some && after is Some {
        let second = first.push(
            "\x1b[1;32mFree space gained on this filesystem: "@ + size_text(gained(before, after)) + "\x1b[0m"@,
        );
        if mode == RemoveMode::Trash && removed > 0 {
            second.push("\x1b[2m(trashed items still use space until the trash is emptied)\x1b[0m"@)
        } else {
            second
        }
    } else {
        first
    }
}

/// Tell what a cleanup came to. `before` and `after` are the free bytes of the
/// filesystem, where they are known.
pub fn closing_lines(
    done: usize,
    actions: usize,
    removed: usize,
    marks: usize,
    before: Option<u64>,
    after: Option<u64>,
    mode: RemoveMode,
) -> (r: Vec<String>)
    ensures
        texts(r@) == closing(done as nat, actions as nat, removed as nat, marks as nat, before, after, mode),
{
    let mut out: Vec<String> = Vec::new();
    out.push(
        "\n\x1b[1m".to_owned().concat(decimal(done as u64).as_str()).concat(" of ").concat(decimal(actions as u64).as_str()).concat(
            " cleanup action(s) and ",
        ).concat(decimal(removed as u64).as_str()).concat(" of ").concat(decimal(marks as u64).as_str()).concat(
            " marked item(s) completed.\x1b[0m",
        ),
    );
    if before.is_some() && after.is_some() {
        out.push(
            "\x1b[1;32mFree space gained on this filesystem: ".to_owned().concat(fmt_size(freed(before, after)).as_str()).concat("\x1b[0m"),
        );
        if mode == RemoveMode::Trash && removed > 0 {
            out.push("\x1b[2m(trashed items still use space until the trash is emptied)\x1b[0m".to_owned());
        }
    }
    assert(texts(out@) =~= closing(done as nat, actions as nat, removed as nat, marks as nat, before, after, mode));
    out
}

proof fn lemma_staged_holds(list: Seq<FindingView>, stage: Stage, is_root: bool, f: FindingView)
    ensures
        staged(list, stage, is_root).contains(f) <==> list.contains(f) && in_stage(f, stage, is_root),
    decreases list.len(),
{
    if list.len() > 0 {
        let front = list.drop_last();
        lemma_staged_holds(front, stage, is_root, f);
        assert(list =~= front.push(list.last()));
        lemma_push_contains(front, list.last(), f);
        lemma_push_contains(staged(front, stage, is_root), list.last(), f);
    }
}

proof fn lemma_removal_tasks(list: Seq<FindingView>)
    ensures
        removal_tasks(list).len() == 2 * list.len(),
        forall|k: int|
            #![trigger list[k]]
            0 <= k < list.len() ==> removal_tasks(list)[2 * k] == TaskView::Say(
                LineKind::Heading,
                list[k].title + " (~"@ + size_text(list[k].bytes) + ")"@,
            ) && (list[k].action matches ActionView::Remove { paths, keep_dir } ==> removal_tasks(list)[2 * k + 1] == (TaskView::Remove {
                paths,
                keep_dir,
            })),
    decreases list.len(),
{
    if list.len() > 0 {
        let front = list.drop_last();
        lemma_removal_tasks(front);
        let (all, rest) = (removal_tasks(list), removal_tasks(front));
        assert forall|k: int|
            #![trigger list[k]]
            0 <= k < list.len() implies all[2 * k] == TaskView::Say(LineKind::Heading, list[k].title + " (~"@ + size_text(list[k].bytes) + ")"@)
            && (list[k].action matches ActionView::Remove { paths, keep_dir } ==> all[2 * k + 1] == (TaskView::Remove { paths, keep_dir })) by {
            if k < front.len() {
                assert(front[k] == list[k]);
                assert(all[2 * k] == rest[2 * k] && all[2 * k + 1] == rest[2 * k + 1]);
            }
        }
    }
}

/// Every reviewed removal of user-owned paths is planned: under its heading, with
/// exactly its paths, and keeping the folders exactly if it was to.
pub proof fn law_every_reviewed_removal_is_planned(list: Seq<FindingView>, is_root: bool, pkexec: bool, i: int, paths: Seq<Seq<u8>>, keep_dir: bool)
    requires
        0 <= i < list.len(),
        list[i].action == (ActionView::Remove { paths, keep_dir }),
        !list[i].needs_root,
    ensures
        exists|j: int|
            0 < j < plan_of(list, is_root, pkexec).len() && #[trigger] plan_of(list, is_root, pkexec)[j] == (TaskView::Remove { paths, keep_dir })
                && plan_of(list, is_root, pkexec)[j - 1] == TaskView::Say(
                LineKind::Heading,
                list[i].title + " (~"@ + size_text(list[i].bytes) + ")"@,
            ),
{
    let l = staged(list, Stage::Removals, is_root);
    let all = plan_of(list, is_root, pkexec);
    assert(list.contains(list[i]));
    lemma_staged_holds(list, Stage::Removals, is_root, list[i]);
    let k = choose|k: int| 0 <= k < l.len() && l[k] == list[i];
    lemma_removal_tasks(l);
    assert(l[k].action == list[i].action);
    assert(all[2 * k + 1] == removal_tasks(l)[2 * k + 1] && all[2 * k] == removal_tasks(l)[2 * k]);
}

/// Nothing is removed in-process but the paths of a reviewed removal that does
/// not need root.
pub proof fn law_planned_removals_were_reviewed(list: Seq<FindingView>, is_root: bool, pkexec: bool, j: int)
    requires
        0 <= j < plan_of(list, is_root, pkexec).len(),
        plan_of(list, is_root, pkexec)[j] is Remove,
    ensures
        exists|i: int|
            0 <= i < list.len() && !list[i].needs_root && (#[trigger] list[i]).action == (ActionView::Remove {
                paths: plan_of(list, is_root, pkexec)[j]->paths,
                keep_dir: plan_of(list, is_root, pkexec)[j]->keep_dir,
            }),
{
    let l = staged(list, Stage::Removals, is_root);
    let all = plan_of(list, is_root, pkexec);
    let m = removal_tasks(l).len() as int;
    lemma_removal_tasks(l);
    assert(j < m);
    assert(all[j] == removal_tasks(l)[j]);
    let k = j / 2;
    if j == 2 * k {
        assert(l[k] == l[k]);
        assert(removal_tasks(l)[2 * k] is Say);
    }
    assert(j == 2 * k + 1);
    assert(l.contains(l[k]));
    lemma_staged_holds(list, Stage::Removals, is_root, l[k]);
    let i = choose|i: int| 0 <= i < list.len() && list[i] == l[k];
    assert(list[i].action == l[k].action);
}

/// A script runs a command: it holds it in parentheses behind an `if`, and tells
/// `done` or `failed` by how it ended.
pub open spec fn runs(text: Seq<char>, command: Seq<char>) -> bool {
    exists|a: Seq<char>, b: Seq<char>| text == #[trigger] ran(a, command, b)
}

pub open spec fn ran(a: Seq<char>, command: Seq<char>, b: Seq<char>) -> Seq<char> {
    a + branch(command) + b
}

/// The lines of a script that run a command and tell how it ended.
pub open spec fn branch(command: Seq<char>) -> Seq<char> {
    "\nif ( "@ + command + " ); then echo "@ + quoted("@@OK done"@) + "; else echo "@ + quoted("@@ERR failed"@) + "; fi\n"@
}

proof fn lemma_regroup(x: Seq<char>, a: Seq<char>, b: Seq<char>, c: Seq<char>, d: Seq<char>, e: Seq<char>, f: Seq<char>, g: Seq<char>)
    ensures
        x + a + b + c + d + e + f + g == x + (a + b + c + d + e + f + g),
{
    assert(x + a + b =~= x + (a + b));
    assert(x + (a + b) + c =~= x + (a + b + c));
    assert(x + (a + b + c) + d =~= x + (a + b + c + d));
    assert(x + (a + b + c + d) + e =~= x + (a + b + c + d + e));
    assert(x + (a + b + c + d + e) + f =~= x + (a + b + c + d + e + f));
    assert(x + (a + b + c + d + e + f) + g =~= x + (a + b + c + d + e + f + g));
}

proof fn lemma_script_runs(head: Seq<char>, list: Seq<FindingView>, k: int)
    requires
        0 <= k < list.len(),
    ensures
        runs(head + script_parts(list), command_of(list[k].action, list[k].needs_root)),
    decreases list.len(),
{
    let front = list.drop_last();
    let f = list.last();
    let part = script_part(f);
    let text = head + script_parts(list);
    if k < list.len() - 1 {
        lemma_script_runs(head, front, k);
        let c = command_of(list[k].action, list[k].needs_root);
        assert(front[k] == list[k]);
        let (a, b) = choose|a: Seq<char>, b: Seq<char>| head + script_parts(front) == #[trigger] ran(a, c, b);
        assert(text =~= head + script_parts(front) + part);
        assert(a + branch(c) + b + part =~= a + branch(c) + (b + part));
        assert(text == ran(a, c, b + part));
    } else {
        let c = command_of(f.action, f.needs_root);
        let x = "echo "@ + quoted(on_one_line("@@H "@ + heading_of(f))) + "\necho "@ + quoted(on_one_line("@@C $ "@ + c));
        lemma_regroup(x, "\nif ( "@, c, " ); then echo "@, quoted("@@OK done"@), "; else echo "@, quoted("@@ERR failed"@), "; fi\n"@);
        assert(part == x + branch(c));
        let a = head + script_parts(front) + x;
        assert(text =~= a + branch(c) + Seq::<char>::empty()) by {
            assert(head + (script_parts(front) + (x + branch(c))) =~= head + script_parts(front) + x + branch(c));
        }
        assert(text == ran(a, c, Seq::empty()));
    }
}

/// Every reviewed command runs as it was reviewed: as the user if it needs no
/// root or the user is root already, else in the one root script; without
/// `pkexec` it is told instead, to be run in a terminal.
pub proof fn law_every_reviewed_command_is_planned(list: Seq<FindingView>, is_root: bool, pkexec: bool, i: int, command: Seq<char>)
    requires
        0 <= i < list.len(),
        list[i].action == (ActionView::Shell { command }),
    ensures
        !list[i].needs_root || is_root ==> exists|j: int|
            0 <= j < plan_of(list, is_root, pkexec).len() && (#[trigger] plan_of(list, is_root, pkexec)[j]) is Script && !plan_of(
                list,
                is_root,
                pkexec,
            )[j]->as_root && runs(plan_of(list, is_root, pkexec)[j]->text, command),
        list[i].needs_root && !is_root && pkexec ==> exists|j: int|
            0 <= j < plan_of(list, is_root, pkexec).len() && (#[trigger] plan_of(list, is_root, pkexec)[j]) is Script && plan_of(
                list,
                is_root,
                pkexec,
            )[j]->as_root && runs(plan_of(list, is_root, pkexec)[j]->text, command),
        list[i].needs_root && !is_root && !pkexec ==> plan_of(list, is_root, pkexec).contains(
            TaskView::Say(LineKind::Command, "$ "@ + command),
        ),
{
    let (rm, us, ro) = (
        staged(list, Stage::Removals, is_root),
        staged(list, Stage::User, is_root),
        staged(list, Stage::Root, is_root),
    );
    let all = plan_of(list, is_root, pkexec);
    let (a, b, c) = (removal_tasks(rm), user_tasks(us, is_root), root_tasks(ro, pkexec));
    assert(list.contains(list[i]));
    if !list[i].needs_root || is_root {
        lemma_staged_holds(list, Stage::User, is_root, list[i]);
        let k = choose|k: int| 0 <= k < us.len() && us[k] == list[i];
        lemma_script_runs(script_head(is_root), us, k);
        assert(all[a.len() as int] == b[0]);
    } else {
        lemma_staged_holds(list, Stage::Root, is_root, list[i]);
        let k = choose|k: int| 0 <= k < ro.len() && ro[k] == list[i];
        if pkexec {
            lemma_script_runs(script_head(true), ro, k);
            assert(all[a.len() as int + b.len() + 1] == c[1]);
        } else {
            assert(all[a.len() + b.len() + 1 + k] == c[1 + k]);
        }
    }
}

/// A root removal of paths that can be named runs in the root script, as the
/// shell text that was reviewed.
pub proof fn law_root_removals_run_as_reviewed(list: Seq<FindingView>, i: int)
    requires
        0 <= i < list.len(),
        list[i].action is Remove,
        list[i].needs_root,
        actionable(list[i].action, list[i].needs_root),
    ensures
        exists|j: int|
            0 <= j < plan_of(list, false, true).len() && (#[trigger] plan_of(list, false, true)[j]) is Script && plan_of(list, false, true)[j]->as_root
                && runs(plan_of(list, false, true)[j]->text, command_of(list[i].action, true)),
{
    let (rm, us, ro) = (staged(list, Stage::Removals, false), staged(list, Stage::User, false), staged(list, Stage::Root, false));
    let all = plan_of(list, false, true);
    let (a, b, c) = (removal_tasks(rm), user_tasks(us, false), root_tasks(ro, true));
    assert(list.contains(list[i]));
    lemma_staged_holds(list, Stage::Root, false, list[i]);
    let k = choose|k: int| 0 <= k < ro.len() && ro[k] == list[i];
    lemma_script_runs(script_head(true), ro, k);
    assert(all[a.len() as int + b.len() + 1] == c[1]);
}

/// A manual step runs nothing: a review of manual steps alone plans nothing.
pub proof fn law_manual_steps_run_nothing(list: Seq<FindingView>, is_root: bool, pkexec: bool)
    requires
        forall|i: int| 0 <= i < list.len() ==> (#[trigger] list[i]).action is Manual,
    ensures
        plan_of(list, is_root, pkexec).len() == 0,
{
    lemma_none_staged(list, Stage::Removals, is_root);
    lemma_none_staged(list, Stage::User, is_root);
    lemma_none_staged(list, Stage::Root, is_root);
    lemma_removal_tasks(staged(list, Stage::Removals, is_root));
}

proof fn lemma_none_staged(list: Seq<FindingView>, stage: Stage, is_root: bool)
    requires
        forall|i: int| 0 <= i < list.len() ==> (#[trigger] list[i]).action is Manual,
    ensures
        staged(list, stage, is_root).len() == 0,
    decreases list.len(),
{
    if list.len() > 0 {
        let front = list.drop_last();
        assert forall|i: int| 0 <= i < front.len() implies (#[trigger] front[i]).action is Manual by {
            assert(front[i] == list[i]);
        }
        lemma_none_staged(front, stage, is_root);
        assert(list[list.len() - 1].action is Manual);
    }
}

/// At most two scripts run: one as the user, with a no-op `sudo` only if the user
/// is root, and one as root, with it. Each runs the commands of one stage and
/// nothing else, and all removals come before.
pub proof fn law_scripts_hold_reviewed_commands_alone(list: Seq<FindingView>, is_root: bool, pkexec: bool, j: int)
    requires
        0 <= j < plan_of(list, is_root, pkexec).len(),
        plan_of(list, is_root, pkexec)[j] is Script,
    ensures
        ({
            let t = plan_of(list, is_root, pkexec)[j];
            let head = "export DEBIAN_FRONTEND=noninteractive\n"@;
            let sudo = "sudo() { \"$@\"; }\n"@;
            &&& t->as_root ==> pkexec && !is_root && t->text == head + sudo + script_parts(staged(list, Stage::Root, is_root))
            &&& !t->as_root ==> t->text == (if is_root { head + sudo } else { head }) + script_parts(staged(list, Stage::User, is_root))
        }),
        forall|k: int|
            0 <= k < plan_of(list, is_root, pkexec).len() && (#[trigger] plan_of(list, is_root, pkexec)[k]) is Remove ==> k < j,
        forall|k: int|
            0 <= k < plan_of(list, is_root, pkexec).len() && (#[trigger] plan_of(list, is_root, pkexec)[k]) is Script && plan_of(
                list,
                is_root,
                pkexec,
            )[k]->as_root == plan_of(list, is_root, pkexec)[j]->as_root ==> k == j,
{
    let (rm, us, ro) = (
        staged(list, Stage::Removals, is_root),
        staged(list, Stage::User, is_root),
        staged(list, Stage::Root, is_root),
    );
    let (a, b, c) = (removal_tasks(rm), user_tasks(us, is_root), root_tasks(ro, pkexec));
    let all = plan_of(list, is_root, pkexec);
    lemma_removal_tasks(rm);
    lemma_staged(list, Stage::Removals, is_root);
    lemma_staged(list, Stage::Root, is_root);
    assert forall|k: int| 0 <= k < a.len() implies !((#[trigger] all[k]) is Script) by {
        assert(all[k] == a[k]);
        assert(rm[k / 2] == rm[k / 2]);
        assert(in_stage(rm[k / 2], Stage::Removals, is_root));
        assert(k == 2 * (k / 2) || k == 2 * (k / 2) + 1);
    }
    assert forall|k: int| a.len() <= k < all.len() implies !((#[trigger] all[k]) is Remove) && (all[k] is Script ==> (k == a.len() && us.len()
        > 0 && !all[k]->as_root) || (k == a.len() + b.len() + 1 && ro.len() > 0 && pkexec && all[k]->as_root)) by {
        if k < a.len() + b.len() {
            assert(all[k] == b[k - a.len()]);
        } else {
            assert(all[k] == c[k - a.len() - b.len()]);
        }
    }
    if all[j]->as_root {
        assert(in_stage(ro[0], Stage::Root, is_root));
    }
}

/// What a script prints is told by its marker: `@@H ` a heading, `@@C ` a command,
/// `@@OK ` a success, `@@ERR ` an error; the rest is output or, from the standard
/// error, an error.
pub proof fn law_printed_lines_are_told_by_their_marker(x: Seq<char>, err: bool)
    ensures
        line_kind("@@H "@ + x, err) == (LineKind::Heading, x),
        line_kind("@@C "@ + x, err) == (LineKind::Command, x),
        line_kind("@@OK "@ + x, err) == (LineKind::Success, x),
        line_kind("@@ERR "@ + x, err) == (LineKind::Error, x),
        !"@@"@.is_prefix_of(x) ==> line_kind(x, err) == (if err { LineKind::Error } else { LineKind::Output }, x),
{
    reveal_strlit("@@");
    reveal_strlit("@@H ");
    reveal_strlit("@@C ");
    reveal_strlit("@@OK ");
    reveal_strlit("@@ERR ");
    let (h, c, o, e) = ("@@H "@, "@@C "@, "@@OK "@, "@@ERR "@);
    lemma_starts(h, x);
    lemma_starts(c, x);
    lemma_starts(o, x);
    lemma_starts(e, x);
    if starts(c + x, h) {
        assert((c + x).subrange(0, h.len() as int)[2] == 'H');
    }
    if starts(o + x, h) {
        assert((o + x).subrange(0, h.len() as int)[2] == 'H');
    }
    if starts(o + x, c) {
        assert((o + x).subrange(0, c.len() as int)[2] == 'C');
    }
    if starts(e + x, h) {
        assert((e + x).subrange(0, h.len() as int)[2] == 'H');
    }
    if starts(e + x, c) {
        assert((e + x).subrange(0, c.len() as int)[2] == 'C');
    }
    if starts(e + x, o) {
        assert((e + x).subrange(0, o.len() as int)[2] == 'O');
    }
    if !"@@"@.is_prefix_of(x) {
        assert(!starts(x, h) && !starts(x, c) && !starts(x, o) && !starts(x, e)) by {
            if starts(x, h) || starts(x, c) || starts(x, o) || starts(x, e) {
                let p = if starts(x, h) { h } else if starts(x, c) { c } else if starts(x, o) { o } else { e };
                assert(x.subrange(0, p.len() as int)[0] == '@' && x.subrange(0, p.len() as int)[1] == '@');
                assert(x.subrange(0, 2) =~= "@@"@);
            }
        }
    }
}

/// A log counts an action as done or failed once for each line that says so.
pub proof fn law_tally_counts_the_lines(lines: Seq<(LineKind, Seq<char>)>, kind: LineKind, text: Seq<char>, i: int)
    requires
        0 <= i < lines.len(),
    ensures
        count_of(lines, kind, text) == count_of(lines.remove(i), kind, text) + if lines[i] == (kind, text) { 1nat } else { 0 },
        count_of(Seq::empty(), kind, text) == 0,
    decreases lines.len(),
{
    if i < lines.len() - 1 {
        law_tally_counts_the_lines(lines.drop_last(), kind, text, i);
        assert(lines.remove(i).drop_last() =~= lines.drop_last().remove(i));
        assert(lines.remove(i).last() == lines.last());
    } else {
        assert(lines.remove(i) =~= lines.drop_last());
    }
}

/// A root script that ended as a dismissed or refused password dialog does is
/// told as such; the space gained is the difference, never less than none; an
/// action succeeds only if its command did, or all its paths went.
pub proof fn law_outcomes_are_told(c: i32, before: u64, after: u64, errors: Vec<Option<String>>, e: String)
    ensures
        end_lines(ScriptEnd::Code(c), true).len() > 0 <==> c == 126 || c == 127,
        end_lines(ScriptEnd::Code(c), false).len() == 0,
        end_lines(ScriptEnd::NotStarted(e), false) == seq![(LineKind::Error, "failed to start: "@ + e@)],
        gained(Some(before), Some(after)) == (if after >= before { after - before } else { 0 }),
        gained(None, Some(after)) == 0 && gained(Some(before), None) == 0,
        succeeded(ActionEnd::Exited(None)) && !succeeded(ActionEnd::Exited(Some(e))) && !succeeded(ActionEnd::NotStarted(e)) && !succeeded(
            ActionEnd::Manual,
        ),
        succeeded(ActionEnd::Removed(errors)) <==> forall|i: int| 0 <= i < errors@.len() ==> (#[trigger] errors@[i]) is None,
{
}

/// A script runs each command by itself, says what it is about to run, and says
/// afterwards whether it went well.
pub proof fn law_scripts_say_what_they_run(f: FindingView)
    ensures
        ({
            let cmd = command_of(f.action, f.needs_root);
            script_part(f) == "echo "@ + quoted(on_one_line("@@H "@ + heading_of(f))) + "\necho "@ + quoted(on_one_line("@@C $ "@ + cmd))
                + "\nif ( "@ + cmd + " ); then echo "@ + quoted("@@OK done"@) + "; else echo "@ + quoted("@@ERR failed"@) + "; fi\n"@
        }),
        heading_of(f) == f.title + " (~"@ + size_text(f.bytes) + ")"@,
{
}

/// Nothing that runs can ask a question, and a script that already runs as root
/// asks for no password.
pub proof fn law_scripts_ask_nothing(command: Seq<char>)
    ensures
        script_head(false) == "export DEBIAN_FRONTEND=noninteractive\n"@,
        script_head(true) == "export DEBIAN_FRONTEND=noninteractive\n"@ + "sudo() { \"$@\"; }\n"@,
        shell_text(command) == "( "@ + command + " ) </dev/null\n"@,
{
}

/// Each removed path is told, and each that was not with its reason.
pub proof fn law_each_removal_is_told(p: Seq<u8>, e: String)
    ensures
        removal_line(p, None) == (LineKind::Output, "removed "@ + lossy_text(p)),
        removal_line(p, Some(e)) == (LineKind::Error, lossy_text(p) + ": "@ + e@),
        removal_text(p, None) == "  removed "@ + lossy_text(p),
        removal_text(p, Some(e)) == "\x1b[31m  "@ + lossy_text(p) + ": "@ + e@ + "\x1b[0m"@,
{
}

/// The heading of the marks says how many there are and what becomes of them.
pub proof fn law_marks_are_announced(n: nat)
    ensures
        marks_heading(RemoveMode::Trash, n) == "Moving to trash"@ + ": "@ + digits(n) + " marked item(s)"@,
        marks_heading(RemoveMode::Permanent, n) == "Deleting permanently"@ + ": "@ + digits(n) + " marked item(s)"@,
{
}

} // verus!
