//! Deciding what a command line does: a pipeline, a builtin or an external command,
//! with its redirection and whether it runs in the background.

use vstd::prelude::*;
use crate::builtins::{
    arg_views, builtin_kind, builtin_of, cd_arg, cd_builtin, complete_builtin, complete_effect,
    echo_builtin, echo_spec, exit_builtin, pwd_builtin, pwd_spec, type_builtin, type_spec, Builtin,
    CdPlan, CompletionRegistry,
};
use crate::history::{history_builtin, history_command_matches, History, HistoryCommand};
use crate::jobs::jobs_builtin;
pub use crate::jobs::Jobs;
use crate::redirect::{opt_view, output_route, redirect_spec, OutputRoute};
use crate::jobs::{
    finished_jobs, kept_jobs, reap_jobs, report_text, JobStatus, JobTable, JobsReport,
};
use crate::parser::{parse_command, parse_spec};
use crate::redirect::is_redirect_op;
use crate::text::{
    contains_char, split_chars, split_spec, str_chars, str_eq, string_from_chars, string_views,
    trim_chars, trim_spec, views,
};

verus! {

/// The arguments of a command line once surrounding whitespace is removed.
pub open spec fn line_parts(line: Seq<char>) -> Seq<Seq<char>> {
    parse_spec(trim_spec(line))
}

/// The position of the first redirection operator at or after `i`.
pub open spec fn first_redirect(parts: Seq<Seq<char>>, i: int) -> Option<int>
    decreases parts.len() - i,
{
    if i < 0 || i >= parts.len() {
        None
    } else if is_redirect_op(parts[i]) {
        Some(i)
    } else {
        first_redirect(parts, i + 1)
    }
}

/// The words of the command: the arguments before the first redirection operator.
pub open spec fn command_words(parts: Seq<Seq<char>>) -> Seq<Seq<char>> {
    match first_redirect(parts, 0) {
        Some(p) => parts.take(p),
        None => parts,
    }
}

/// The first redirection operator, if any.
pub open spec fn redirect_op(parts: Seq<Seq<char>>) -> Option<Seq<char>> {
    match first_redirect(parts, 0) {
        Some(p) => Some(parts[p]),
        None => None,
    }
}

/// The argument after the first redirection operator, if there is one.
pub open spec fn redirect_file(parts: Seq<Seq<char>>) -> Option<Seq<char>> {
    match first_redirect(parts, 0) {
        Some(p) => if p + 1 < parts.len() {
            Some(parts[p + 1])
        } else {
            None
        },
        None => None,
    }
}

/// The command's last word is `&`: it runs in the background.
pub open spec fn runs_in_background(words: Seq<Seq<char>>) -> bool {
    words.len() > 0 && words.last() == "&"@
}

/// The words without a final `&`.
pub open spec fn foreground_words(words: Seq<Seq<char>>) -> Seq<Seq<char>> {
    if runs_in_background(words) {
        words.drop_last()
    } else {
        words
    }
}

/// How one command of a run of external commands in a pipeline is connected.
pub struct SegmentWiring {
    /// Its standard input is fed the output of the stage before the run.
    pub stdin_from_input: bool,
    /// Its standard input is the output of the command before it in the run.
    pub stdin_from_previous: bool,
    /// Its standard output goes into a pipe: to the next command of the run, or, for the
    /// last command of a run that is not the last stage, to the next stage.
    pub stdout_piped: bool,
}

/// The connections of command `idx` of a run of `count` external commands; `has_input`
/// tells whether an earlier stage produced output, `is_last_segment` whether the run is
/// the last stage (whose last command writes to the terminal).
pub fn segment_wiring(idx: usize, count: usize, has_input: bool, is_last_segment: bool) -> (w:
    SegmentWiring)
    requires
        idx < count,
    ensures
        w.stdin_from_input == (idx == 0 && has_input),
        w.stdin_from_previous == (idx > 0),
        w.stdout_piped == (idx + 1 < count || !is_last_segment),
{
    SegmentWiring {
        stdin_from_input: idx == 0 && has_input,
        stdin_from_previous: idx > 0,
        stdout_piped: idx < count - 1 || !is_last_segment,
    }
}

/// Whether the output of stage `idx` of a pipeline of `count` stages goes to the terminal:
/// only the last stage's does; every other stage's output is the next stage's input.
pub fn stage_output_to_terminal(idx: usize, count: usize) -> (r: bool)
    requires
        idx < count,
    ensures
        r == (idx + 1 == count),
{
    idx == count - 1
}

/// The line printed when `PATH` has no command `cmd`.
pub fn not_found_message(cmd: &str) -> (r: String)
    ensures
        r@ == cmd@ + ": command not found\n"@,
{
    let mut r = String::from_str(cmd);
    r.append(": command not found\n");
    r
}

/// The command line is a lone `&` (possibly with a redirection): the shell has no command
/// left to run and gives up.
pub open spec fn command_panics_spec(line: Seq<char>) -> bool {
    let w = command_words(line_parts(line));
    !line.contains('|') && w.len() > 0 && foreground_words(w).len() == 0
}

/// One command of a pipeline.
pub struct PipelineCommand {
    pub cmd: String,
    pub args: Vec<String>,
}

/// A stage of a pipeline: a builtin, or a run of external commands connected by pipes.
pub enum PipelineStage {
    Builtin { kind: Builtin, command: PipelineCommand },
    External { commands: Vec<PipelineCommand> },
}

/// What a command line asks for.
pub enum CommandPlan {
    /// Nothing to run.
    Nothing,
    /// A pipeline, stage by stage.
    Pipeline { stages: Vec<PipelineStage> },
    /// A builtin, with its arguments and redirection.
    Builtin {
        kind: Builtin,
        cmd: String,
        args: Vec<String>,
        op: Option<String>,
        file: Option<String>,
    },
    /// An external command, with its arguments and redirection; `command` is the whole
    /// line, which names the job when it runs in the background.
    External {
        command: String,
        cmd: String,
        args: Vec<String>,
        op: Option<String>,
        file: Option<String>,
        background: bool,
    },
}

/// The view of an optional string.
pub open spec fn opt_string_view(o: Option<String>) -> Option<Seq<char>> {
    match o {
        Some(s) => Some(s@),
        None => None,
    }
}

/// The words of one pipeline command.
pub open spec fn command_view(c: PipelineCommand) -> Seq<Seq<char>> {
    seq![c.cmd@] + string_views(c.args@)
}

/// A stage as a plain value: whether it is a builtin, and its commands.
pub open spec fn stage_view(s: PipelineStage) -> (bool, Seq<Seq<Seq<char>>>) {
    match s {
        PipelineStage::Builtin { kind, command } => (true, seq![command_view(command)]),
        PipelineStage::External { commands } => (
            false,
            commands@.map_values(|c: PipelineCommand| command_view(c)),
        ),
    }
}

/// The commands of the pieces of a pipeline: each piece trimmed and split into words,
/// leaving out pieces with no words.
pub open spec fn pipeline_commands(pieces: Seq<Seq<char>>) -> Seq<Seq<Seq<char>>>
    decreases pieces.len(),
{
    if pieces.len() == 0 {
        Seq::empty()
    } else {
        let r = pipeline_commands(pieces.drop_last());
        let p = line_parts(pieces.last());
        if p.len() > 0 {
            r.push(p)
        } else {
            r
        }
    }
}

/// The stages of a pipeline's commands: each builtin alone, and each run of
/// consecutive external commands together.
pub open spec fn group_stages(cmds: Seq<Seq<Seq<char>>>) -> Seq<(bool, Seq<Seq<Seq<char>>>)>
    decreases cmds.len(),
{
    if cmds.len() == 0 {
        Seq::empty()
    } else {
        let g = group_stages(cmds.drop_last());
        let c = cmds.last();
        let b = builtin_of(c[0]) is Some;
        if !b && g.len() > 0 && !g.last().0 {
            g.update(g.len() - 1, (false, g.last().1.push(c)))
        } else {
            g.push((b, seq![c]))
        }
    }
}

/// The stages of the pipeline `line`, split at each `|`.
pub open spec fn pipeline_spec(line: Seq<char>) -> Seq<(bool, Seq<Seq<Seq<char>>>)> {
    group_stages(pipeline_commands(split_spec(line, '|')))
}

/// The words of `chars` once surrounding whitespace is removed.
fn parse_trimmed(chars: &[char]) -> (parts: Vec<String>)
    ensures
        string_views(parts@) == parse_spec(trim_spec(chars@)),
{
    let trimmed = trim_chars(chars);
    let s = string_from_chars(trimmed.as_slice());
    parse_command(s.as_str())
}

/// Whether `s` is a redirection operator.
fn is_redirect_str(s: &str) -> (r: bool)
    ensures
        r == is_redirect_op(s@),
{
    str_eq(s, ">") || str_eq(s, "1>") || str_eq(s, "2>") || str_eq(s, ">>") || str_eq(s, "1>>")
        || str_eq(s, "2>>")
}

/// Copies of `v[from..to]`.
fn copy_range(v: &Vec<String>, from: usize, to: usize) -> (r: Vec<String>)
    requires
        from <= to <= v@.len(),
    ensures
        string_views(r@) == string_views(v@).subrange(from as int, to as int),
{
    let mut r: Vec<String> = Vec::new();
    let mut i = from;
    while i < to
        invariant
            from <= i <= to,
            to <= v@.len(),
            string_views(r@) == string_views(v@).subrange(from as int, i as int),
        decreases to - i,
    {
        let ghost before = r@;
        r.push(v[i].clone());
        assert(string_views(r@) =~= string_views(before).push(v@[i as int]@));
        assert(string_views(v@).subrange(from as int, i + 1) =~= string_views(v@).subrange(
            from as int,
            i as int,
        ).push(v@[i as int]@));
        i = i + 1;
    }
    r
}

/// The position of the first redirection operator in `parts`.
fn find_redirect(parts: &Vec<String>) -> (r: Option<usize>)
    ensures
        match r {
            Some(p) => p < parts@.len() && first_redirect(string_views(parts@), 0) == Some(p as int),
            None => first_redirect(string_views(parts@), 0) is None,
        },
{
    let ghost pv = string_views(parts@);
    let mut i: usize = 0;
    while i < parts.len()
        invariant
            i <= parts@.len(),
            pv == string_views(parts@),
            first_redirect(pv, 0) == first_redirect(pv, i as int),
        decreases parts@.len() - i,
    {
        if is_redirect_str(parts[i].as_str()) {
            return Some(i);
        }
        i = i + 1;
    }
    None
}

/// The words of the command line, its redirection operator and file, and where the
/// words end.
fn split_redirect(parts: &Vec<String>) -> (r: (usize, Option<String>, Option<String>))
    ensures
        r.0 <= parts@.len(),
        string_views(parts@).take(r.0 as int) == command_words(string_views(parts@)),
        opt_string_view(r.1) == redirect_op(string_views(parts@)),
        opt_string_view(r.2) == redirect_file(string_views(parts@)),
{
    let ghost pv = string_views(parts@);
    match find_redirect(parts) {
        Some(pos) => {
            let file = if pos < parts.len() - 1 {
                Some(parts[pos + 1].clone())
            } else {
                None
            };
            (pos, Some(parts[pos].clone()), file)
        },
        None => {
            assert(pv.take(pv.len() as int) == pv);
            (parts.len(), None, None)
        },
    }
}

/// Whether the command line is a lone `&`, on which the shell gives up.
pub fn command_panics(command: &str) -> (r: bool)
    ensures
        r == command_panics_spec(command@),
{
    let chars = str_chars(command);
    if contains_char(chars.as_slice(), '|') {
        return false;
    }
    let parts = parse_trimmed(chars.as_slice());
    let (end, _op, _file) = split_redirect(&parts);
    let ghost w = command_words(string_views(parts@));
    if end == 0 {
        return false;
    }
    assert(w.last() == string_views(parts@)[end - 1]);
    end == 1 && str_eq(parts[0].as_str(), "&")
}

/// The stages of the pipeline as plain values.
pub open spec fn stage_views(stages: Seq<PipelineStage>) -> Seq<(bool, Seq<Seq<Seq<char>>>)> {
    stages.map_values(|s: PipelineStage| stage_view(s))
}

/// The commands of a run of external commands.
pub open spec fn command_views(cmds: Seq<PipelineCommand>) -> Seq<Seq<Seq<char>>> {
    cmds.map_values(|c: PipelineCommand| command_view(c))
}

/// The stages, with the pending run of external commands as one more stage.
spec fn with_pending(
    g: Seq<(bool, Seq<Seq<Seq<char>>>)>,
    pending: Seq<PipelineCommand>,
) -> Seq<(bool, Seq<Seq<Seq<char>>>)> {
    if pending.len() > 0 {
        g.push((false, command_views(pending)))
    } else {
        g
    }
}

/// The command made of `parts`: its first word and the rest.
fn make_command(parts: &Vec<String>) -> (c: PipelineCommand)
    requires
        parts@.len() > 0,
    ensures
        command_view(c) == string_views(parts@),
        c.cmd@ == parts@[0]@,
{
    let cmd = parts[0].clone();
    let args = copy_range(parts, 1, parts.len());
    let c = PipelineCommand { cmd, args };
    assert(command_view(c) =~= string_views(parts@));
    c
}

/// Each builtin stage's kind is the builtin that its command names.
pub open spec fn kinds_match(stages: Seq<PipelineStage>) -> bool {
    forall|i: int|
        0 <= i < stages.len() ==> match #[trigger] stages[i] {
            PipelineStage::Builtin { kind, command } => builtin_of(command.cmd@) == Some(kind),
            PipelineStage::External { .. } => true,
        }
}

/// The stages of a pipeline: the line is split at each `|`, each piece is trimmed and
/// split into words (pieces without words are left out), and consecutive external
/// commands are grouped into one stage.
pub fn pipeline_stages(command: &str) -> (stages: Vec<PipelineStage>)
    ensures
        stage_views(stages@) == pipeline_spec(command@),
        kinds_match(stages@),
{
    let chars = str_chars(command);
    let pieces = split_chars(chars.as_slice(), '|');
    let ghost pv = views(pieces@);
    let mut stages: Vec<PipelineStage> = Vec::new();
    let mut pending: Vec<PipelineCommand> = Vec::new();
    let mut i: usize = 0;
    assert(pv.take(0) == Seq::<Seq<char>>::empty());
    assert(stage_views(stages@) =~= Seq::<(bool, Seq<Seq<Seq<char>>>)>::empty());
    while i < pieces.len()
        invariant
            i <= pieces@.len(),
            pv == views(pieces@),
            pv == split_spec(command@, '|'),
            kinds_match(stages@),
            with_pending(stage_views(stages@), pending@) == group_stages(
                pipeline_commands(pv.take(i as int)),
            ),
            pending@.len() == 0 ==> (stages@.len() == 0 || stage_views(stages@).last().0),
        decreases pieces@.len() - i,
    {
        let parts = parse_trimmed(pieces[i].as_slice());
        proof {
            assert(pv.take(i + 1).drop_last() == pv.take(i as int));
            assert(pv.take(i + 1).last() == pieces@[i as int]@);
        }
        let ghost cmds_old = pipeline_commands(pv.take(i as int));
        if parts.len() > 0 {
            let c = make_command(&parts);
            let ghost cv = command_view(c);
            let ghost g_old = with_pending(stage_views(stages@), pending@);
            proof {
                assert(pipeline_commands(pv.take(i + 1)) == cmds_old.push(cv));
                assert(cmds_old.push(cv).drop_last() =~= cmds_old);
                assert(cmds_old.push(cv).last() == cv);
                assert(cv[0] == c.cmd@);
            }
            match builtin_kind(c.cmd.as_str()) {
                Some(kind) => {
                    if pending.len() > 0 {
                        let mut flushed: Vec<PipelineCommand> = Vec::new();
                        std::mem::swap(&mut flushed, &mut pending);
                        let ghost before = stages@;
                        stages.push(PipelineStage::External { commands: flushed });
                        assert(stage_views(stages@) =~= stage_views(before).push(
                            (false, command_views(flushed@)),
                        ));
                    }
                    let ghost before = stages@;
                    stages.push(PipelineStage::Builtin { kind, command: c });
                    assert(stage_views(stages@) =~= stage_views(before).push((true, seq![cv])));
                    assert(with_pending(stage_views(stages@), pending@) == g_old.push(
                        (true, seq![cv]),
                    ));
                },
                None => {
                    let ghost before = pending@;
                    pending.push(c);
                    assert(command_views(pending@) =~= command_views(before).push(cv));
                    proof {
                        if before.len() > 0 {
                            assert(g_old.last() == (false, command_views(before)));
                            assert(with_pending(stage_views(stages@), pending@) =~= g_old.update(
                                g_old.len() - 1,
                                (false, g_old.last().1.push(cv)),
                            ));
                        } else {
                            assert(command_views(pending@) =~= seq![cv]);
                            assert(with_pending(stage_views(stages@), pending@) =~= g_old.push(
                                (false, seq![cv]),
                            ));
                        }
                    }
                },
            }
        }
        i = i + 1;
    }
    assert(pv.take(pieces@.len() as int) == pv);
    if pending.len() > 0 {
        let ghost before = stages@;
        let ghost pend = pending@;
        stages.push(PipelineStage::External { commands: pending });
        assert(stage_views(stages@) =~= stage_views(before).push((false, command_views(pend))));
    }
    stages
}

/// The plan `plan` is what the line `line` asks for.
pub open spec fn plan_matches(line: Seq<char>, plan: CommandPlan) -> bool {
    if line.contains('|') {
        plan matches CommandPlan::Pipeline { stages } && stage_views(stages@) == pipeline_spec(line)
            && kinds_match(stages@)
    } else {
        let parts = line_parts(line);
        let w = command_words(parts);
        if w.len() == 0 {
            plan is Nothing
        } else {
            let fw = foreground_words(w);
            match builtin_of(fw[0]) {
                Some(k) => plan matches CommandPlan::Builtin { kind, cmd, args, op, file } && kind
                    == k && cmd@ == fw[0] && string_views(args@) == fw.drop_first() && opt_string_view(op)
                    == redirect_op(parts) && opt_string_view(file) == redirect_file(parts),
                None => plan matches CommandPlan::External {
                    command,
                    cmd,
                    args,
                    op,
                    file,
                    background,
                } && command@ == line && cmd@ == fw[0] && string_views(args@) == fw.drop_first()
                    && opt_string_view(op) == redirect_op(parts) && opt_string_view(file)
                    == redirect_file(parts) && background == runs_in_background(w),
            }
        }
    }
}

/// Before each command finished background jobs are reported and removed (`statuses`
/// holds the status of each job, in order); then the line is read: a line with `|` is a
/// pipeline; otherwise its words up to the first redirection operator name a builtin or
/// an external command, with the operator and the word after it as the redirection, and
/// a final `&` runs it in the background.
pub fn process_command(jobs: &mut JobTable, statuses: &[JobStatus], command: &str) -> (r: (
    JobsReport,
    CommandPlan,
))
    requires
        statuses@.len() == old(jobs)@.len(),
        !command_panics_spec(command@),
    ensures
        r.0.output@ == report_text(old(jobs)@, statuses@, old(jobs)@.len() as int, true),
        final(jobs)@ == kept_jobs(old(jobs)@, statuses@, old(jobs)@.len() as int),
        r.0.finished@.map_values(|n: usize| n as nat) == finished_jobs(
            old(jobs)@,
            statuses@,
            old(jobs)@.len() as int,
        ),
        plan_matches(command@, r.1),
{
    let report = reap_jobs(jobs, statuses);
    let chars = str_chars(command);
    if contains_char(chars.as_slice(), '|') {
        let stages = pipeline_stages(command);
        return (report, CommandPlan::Pipeline { stages });
    }
    let parts = parse_trimmed(chars.as_slice());
    let ghost pv = string_views(parts@);
    let (end, op, file) = split_redirect(&parts);
    if end == 0 {
        return (report, CommandPlan::Nothing);
    }
    let ghost w = command_words(pv);
    assert(w.last() == pv[end - 1]);
    let background = str_eq(parts[end - 1].as_str(), "&");
    let wend = if background {
        end - 1
    } else {
        end
    };
    let ghost fw = foreground_words(w);
    assert(fw == pv.take(wend as int));
    let cmd = parts[0].clone();
    let args = copy_range(&parts, 1, wend);
    assert(fw.drop_first() == pv.subrange(1, wend as int));
    match builtin_kind(cmd.as_str()) {
        Some(kind) => (report, CommandPlan::Builtin { kind, cmd, args, op, file }),
        None => (
            report,
            CommandPlan::External {
                command: String::from_str(command),
                cmd,
                args,
                op,
                file,
                background,
            },
        ),
    }
}

/// The state that the builtins keep between commands.
pub struct ShellState {
    pub completions: CompletionRegistry,
    pub jobs: JobTable,
    pub history: History,
}

impl ShellState {
    /// Nothing registered, no jobs, no history.
    pub fn new() -> (s: ShellState)
        ensures
            s.completions@ == Map::<Seq<char>, Seq<char>>::empty(),
            s.jobs@ == Seq::<(nat, Seq<char>)>::empty(),
            s.history@.0 == Seq::<Seq<char>>::empty(),
            s.history@.1 == 0,
    {
        ShellState {
            completions: CompletionRegistry::new(),
            jobs: JobTable::new(),
            history: History::new(),
        }
    }
}

/// What the shell found out for a builtin before running it: the working directory
/// (for `pwd`), the home directory (for `cd`), where `PATH` has the command that `type`
/// asks about, and the status of each background job (for `jobs`).
pub struct BuiltinFacts {
    pub cwd: Option<String>,
    pub home: Option<String>,
    pub found: Option<String>,
    pub job_statuses: Vec<JobStatus>,
}

/// What running a builtin asks the shell to do.
pub enum BuiltinAction {
    /// Nothing more.
    Nothing,
    /// Write `text` along `route`.
    Print { text: String, route: OutputRoute },
    /// The working directory could not be found: report it on standard error.
    PwdFailed,
    /// Change the working directory as `plan` says.
    ChangeDir { plan: CdPlan },
    /// Carry out `command` of the `history` builtin.
    History { command: HistoryCommand },
    /// Write `jobs`' report along `route`, and forget the processes of the finished jobs.
    Jobs { report: JobsReport, route: OutputRoute },
}

/// The result of running a builtin: whether the shell goes on, and what is left to do.
pub struct BuiltinOutcome {
    pub keep_running: bool,
    pub action: BuiltinAction,
}

/// `route` is where a builtin's output goes under `op` and `file`.
pub open spec fn route_matches(route: OutputRoute, op: Option<&str>, file: Option<&str>) -> bool {
    &&& op is None ==> route is ToOutput
    &&& op is Some ==> (route matches OutputRoute::Redirected { plan } && (
        plan.file_action,
        plan.print,
    ) == redirect_spec(opt_view(op), file is Some))
}

/// The view of an optional string held by a struct.
pub open spec fn opt_str(o: Option<String>) -> Option<Seq<char>> {
    opt_string_view(o)
}

/// Runs the builtin named `cmd` with `args`; `None` when `cmd` is not a builtin. The text
/// a builtin prints goes along the route that `op` and `file` give.
pub fn builtin_execution(
    state: &mut ShellState,
    cmd: &str,
    args: &[&str],
    op: Option<&str>,
    file: Option<&str>,
    facts: &BuiltinFacts,
) -> (r: Option<BuiltinOutcome>)
    requires
        builtin_of(cmd@) == Some(Builtin::Jobs) ==> facts.job_statuses@.len()
            == old(state).jobs@.len(),
    ensures
        builtin_of(cmd@) != Some(Builtin::Complete) ==> final(state).completions@ == old(
            state,
        ).completions@,
        builtin_of(cmd@) != Some(Builtin::Jobs) ==> final(state).jobs@ == old(state).jobs@,
        final(state).history@ == old(state).history@,
        r is Some == builtin_of(cmd@) is Some,
        r matches Some(o) ==> o.keep_running == (builtin_of(cmd@) != Some(Builtin::Exit)),
        r matches Some(o) ==> match builtin_of(cmd@) {
            Some(Builtin::Exit) => o.action is Nothing,
            Some(Builtin::Echo) => o.action matches BuiltinAction::Print { text, route } && text@
                == echo_spec(arg_views(args@)) && route_matches(route, op, file),
            Some(Builtin::Pwd) => match facts.cwd {
                Some(d) => o.action matches BuiltinAction::Print { text, route } && text@
                    == pwd_spec(d@) && route_matches(route, op, file),
                None => o.action is PwdFailed,
            },
            Some(Builtin::Cd) => o.action matches BuiltinAction::ChangeDir { plan } && plan.target@
                == (if cd_arg(arg_views(args@)) == "~"@ && facts.home is Some {
                facts.home.unwrap()@
            } else {
                cd_arg(arg_views(args@))
            }) && plan.error_message@ == "cd: "@ + cd_arg(arg_views(args@))
                + ": No such file or directory\n"@,
            Some(Builtin::Type) => if args@.len() == 0 {
                o.action is Nothing
            } else {
                o.action matches BuiltinAction::Print { text, route } && text@ == type_spec(
                    args@[0]@,
                    opt_str(facts.found),
                ) && route_matches(route, op, file)
            },
            Some(Builtin::Complete) => {
                let (reg, out) = complete_effect(old(state).completions@, arg_views(args@));
                &&& final(state).completions@ == reg
                &&& match out {
                    Some(t) => o.action matches BuiltinAction::Print { text, route } && text@ == t
                        && route_matches(route, op, file),
                    None => o.action is Nothing,
                }
            },
            Some(Builtin::Jobs) => o.action matches BuiltinAction::Jobs { report, route }
                && report.output@ == report_text(
                old(state).jobs@,
                facts.job_statuses@,
                old(state).jobs@.len() as int,
                false,
            ) && final(state).jobs@ == kept_jobs(
                old(state).jobs@,
                facts.job_statuses@,
                old(state).jobs@.len() as int,
            ) && report.finished@.map_values(|n: usize| n as nat) == finished_jobs(
                old(state).jobs@,
                facts.job_statuses@,
                old(state).jobs@.len() as int,
            ) && route_matches(route, op, file),
            Some(Builtin::History) => o.action matches BuiltinAction::History { command }
                && history_command_matches(command, arg_views(args@), old(state).history@),
            None => true,
        },
{
    let kind = match builtin_kind(cmd) {
        Some(k) => k,
        None => return None,
    };
    match kind {
        Builtin::Exit => {
            let keep_running = exit_builtin(args);
            Some(BuiltinOutcome { keep_running, action: BuiltinAction::Nothing })
        },
        Builtin::Echo => {
            let text = echo_builtin(args);
            Some(
                BuiltinOutcome {
                    keep_running: true,
                    action: BuiltinAction::Print { text, route: output_route(op, file) },
                },
            )
        },
        Builtin::Pwd => match &facts.cwd {
            Some(d) => {
                let text = pwd_builtin(d.as_str());
                Some(
                    BuiltinOutcome {
                        keep_running: true,
                        action: BuiltinAction::Print { text, route: output_route(op, file) },
                    },
                )
            },
            None => Some(BuiltinOutcome { keep_running: true, action: BuiltinAction::PwdFailed }),
        },
        Builtin::Cd => {
            let home = match &facts.home {
                Some(h) => Some(h.as_str()),
                None => None,
            };
            let plan = cd_builtin(args, home);
            Some(BuiltinOutcome { keep_running: true, action: BuiltinAction::ChangeDir { plan } })
        },
        Builtin::Type => {
            let found = match &facts.found {
                Some(p) => Some(p.as_str()),
                None => None,
            };
            match type_builtin(args, found) {
                Some(text) => Some(
                    BuiltinOutcome {
                        keep_running: true,
                        action: BuiltinAction::Print { text, route: output_route(op, file) },
                    },
                ),
                None => Some(BuiltinOutcome { keep_running: true, action: BuiltinAction::Nothing }),
            }
        },
        Builtin::Complete => match complete_builtin(args, &mut state.completions) {
            Some(text) => Some(
                BuiltinOutcome {
                    keep_running: true,
                    action: BuiltinAction::Print { text, route: output_route(op, file) },
                },
            ),
            None => Some(BuiltinOutcome { keep_running: true, action: BuiltinAction::Nothing }),
        },
        Builtin::Jobs => {
            let report = jobs_builtin(&mut state.jobs, facts.job_statuses.as_slice());
            Some(
                BuiltinOutcome {
                    keep_running: true,
                    action: BuiltinAction::Jobs { report, route: output_route(op, file) },
                },
            )
        },
        Builtin::History => {
            let command = history_builtin(args, &state.history);
            Some(BuiltinOutcome { keep_running: true, action: BuiltinAction::History { command } })
        },
    }
}

/// Only `exit` names the builtin that stops the shell.
pub proof fn lemma_exit_builtin_name(name: Seq<char>)
    ensures
        builtin_of(name) == Some(Builtin::Exit) <==> name == "exit"@,
{
}

/// Of a command line that the shell can read, the plan runs the `exit` builtin exactly when
/// the line has no `|` and its command's first word (before any redirection, a final `&`
/// left out) is `exit`; the plan does nothing exactly when the line has no `|` and no
/// word before its first redirection.
pub proof fn lemma_stops_exactly_on_exit(line: Seq<char>, plan: CommandPlan)
    requires
        plan_matches(line, plan),
        !command_panics_spec(line),
    ensures
        (plan matches CommandPlan::Builtin { kind, cmd, .. } && kind == Builtin::Exit && builtin_of(
            cmd@,
        ) == Some(Builtin::Exit)) <==> (!line.contains('|') && command_words(line_parts(line)).len()
            > 0 && foreground_words(command_words(line_parts(line)))[0] == "exit"@),
        plan is Nothing <==> (!line.contains('|') && command_words(line_parts(line)).len() == 0),
{
    if !line.contains('|') {
        let w = command_words(line_parts(line));
        if w.len() > 0 {
            let fw = foreground_words(w);
            assert(fw.len() > 0);
            lemma_exit_builtin_name(fw[0]);
        }
    }
}

/// The first redirection at or after `i`, when the word at `k` is one and none from `i`
/// to before `k` is.
proof fn lemma_first_redirect_at(parts: Seq<Seq<char>>, i: int, k: int)
    requires
        0 <= i <= k < parts.len(),
        is_redirect_op(parts[k]),
        forall|j: int| i <= j < k ==> !is_redirect_op(#[trigger] parts[j]),
    ensures
        first_redirect(parts, i) == Some(k),
    decreases k - i,
{
    if i < k {
        lemma_first_redirect_at(parts, i + 1, k);
    }
}

/// No redirection at or after `i` when no word from `i` on is one.
proof fn lemma_first_redirect_none(parts: Seq<Seq<char>>, i: int)
    requires
        0 <= i,
        forall|j: int| i <= j < parts.len() ==> !is_redirect_op(#[trigger] parts[j]),
    ensures
        first_redirect(parts, i) is None,
    decreases parts.len() - i,
{
    if i < parts.len() {
        lemma_first_redirect_none(parts, i + 1);
    }
}

/// The six redirection operators are exactly `>`, `1>`, `2>`, `>>`, `1>>` and `2>>`: when
/// the word at `k` is one of them and no earlier word is, the command is the words before
/// `k`, the operator is that word, and the file is the word after it, if any.
pub proof fn lemma_redirect_at_first_operator(parts: Seq<Seq<char>>, k: int)
    requires
        0 <= k < parts.len(),
        parts[k] == ">"@ || parts[k] == "1>"@ || parts[k] == "2>"@ || parts[k] == ">>"@
            || parts[k] == "1>>"@ || parts[k] == "2>>"@,
        forall|j: int|
            0 <= j < k ==> !(#[trigger] parts[j] == ">"@ || parts[j] == "1>"@ || parts[j] == "2>"@
                || parts[j] == ">>"@ || parts[j] == "1>>"@ || parts[j] == "2>>"@),
    ensures
        command_words(parts) == parts.take(k),
        redirect_op(parts) == Some(parts[k]),
        redirect_file(parts) == (if k + 1 < parts.len() {
            Some(parts[k + 1])
        } else {
            None
        }),
{
    assert forall|j: int| 0 <= j < k implies !is_redirect_op(#[trigger] parts[j]) by {}
    lemma_first_redirect_at(parts, 0, k);
}

/// When no word is one of `>`, `1>`, `2>`, `>>`, `1>>` and `2>>`, every word belongs to
/// the command and there is no redirection.
pub proof fn lemma_no_redirect_operator(parts: Seq<Seq<char>>)
    requires
        forall|j: int|
            0 <= j < parts.len() ==> !(#[trigger] parts[j] == ">"@ || parts[j] == "1>"@ || parts[j]
                == "2>"@ || parts[j] == ">>"@ || parts[j] == "1>>"@ || parts[j] == "2>>"@),
    ensures
        command_words(parts) == parts,
        redirect_op(parts) is None,
        redirect_file(parts) is None,
{
    assert forall|j: int| 0 <= j < parts.len() implies !is_redirect_op(#[trigger] parts[j]) by {}
    lemma_first_redirect_none(parts, 0);
}

} // verus!
