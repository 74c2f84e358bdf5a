use shell::builtins::Builtin;
use shell::command::{
    builtin_execution, command_panics, pipeline_stages, process_command, segment_wiring,
    BuiltinAction,
    BuiltinFacts, CommandPlan, PipelineCommand, PipelineStage, ShellState,
};
use shell::executable::{has_exec_permission, is_listed_executable, path_dirs};
use shell::history::HistoryCommand;
use shell::jobs::{JobStatus, JobTable};
use shell::redirect::{external_redirect, output_route, redirect_plan, FileAction, OutputRoute};

fn strings(v: &[&str]) -> Vec<String> {
    v.iter().map(|s| s.to_string()).collect()
}

fn plan_of(line: &str) -> CommandPlan {
    let mut t = JobTable::new();
    process_command(&mut t, &[], line).1
}

fn words(c: &PipelineCommand) -> Vec<String> {
    let mut v = vec![c.cmd.clone()];
    v.extend(c.args.iter().cloned());
    v
}

#[test]
fn redirect_plans() {
    let p = redirect_plan(Some(">"), Some("f"));
    assert_eq!((p.file_action, p.print), (FileAction::Write, false));
    let p = redirect_plan(Some("1>"), Some("f"));
    assert_eq!((p.file_action, p.print), (FileAction::Write, false));
    let p = redirect_plan(Some("2>"), Some("f"));
    assert_eq!((p.file_action, p.print), (FileAction::Create, true));
    let p = redirect_plan(Some(">>"), Some("f"));
    assert_eq!((p.file_action, p.print), (FileAction::Append, false));
    let p = redirect_plan(Some("1>>"), Some("f"));
    assert_eq!((p.file_action, p.print), (FileAction::Append, false));
    let p = redirect_plan(Some("2>>"), Some("f"));
    assert_eq!((p.file_action, p.print), (FileAction::Touch, true));
    let p = redirect_plan(Some(">"), None);
    assert_eq!((p.file_action, p.print), (FileAction::Nothing, false));
    let p = redirect_plan(Some("2>"), None);
    assert_eq!((p.file_action, p.print), (FileAction::Nothing, true));
    let p = redirect_plan(None, None);
    assert_eq!((p.file_action, p.print), (FileAction::Nothing, true));
    let p = redirect_plan(Some("<"), Some("f"));
    assert_eq!((p.file_action, p.print), (FileAction::Nothing, true));
}

#[test]
fn output_routes() {
    assert!(matches!(output_route(None, None), OutputRoute::ToOutput));
    assert!(matches!(output_route(None, Some("f")), OutputRoute::ToOutput));
    match output_route(Some(">>"), Some("f")) {
        OutputRoute::Redirected { plan } => {
            assert_eq!((plan.file_action, plan.print), (FileAction::Append, false))
        },
        _ => panic!("expected a redirection"),
    }
}

#[test]
fn external_redirections() {
    let r = external_redirect(Some(">"), Some("f")).unwrap();
    assert_eq!((r.append, r.stderr), (false, false));
    let r = external_redirect(Some("1>>"), Some("f")).unwrap();
    assert_eq!((r.append, r.stderr), (true, false));
    let r = external_redirect(Some("2>"), Some("f")).unwrap();
    assert_eq!((r.append, r.stderr), (false, true));
    let r = external_redirect(Some("2>>"), Some("f")).unwrap();
    assert_eq!((r.append, r.stderr), (true, true));
    assert!(external_redirect(Some(">"), None).is_none());
}

#[test]
fn path_directories() {
    assert_eq!(path_dirs("/bin:/usr/bin"), strings(&["/bin", "/usr/bin"]));
    assert_eq!(path_dirs(""), strings(&[""]));
    assert_eq!(path_dirs("a::b:"), strings(&["a", "", "b", ""]));
}

#[test]
fn execute_permissions() {
    assert!(has_exec_permission(0o755));
    assert!(has_exec_permission(0o100755));
    assert!(has_exec_permission(0o001));
    assert!(!has_exec_permission(0o644));
    assert!(!has_exec_permission(0o100666));
    assert!(is_listed_executable(true, 0o700));
    assert!(!is_listed_executable(false, 0o755));
    assert!(!is_listed_executable(true, 0o600));
}

#[test]
fn lone_ampersand_is_refused() {
    assert!(command_panics("&"));
    assert!(command_panics("  &  "));
    assert!(command_panics("& > out"));
    assert!(!command_panics("echo hi &"));
    assert!(!command_panics(""));
    assert!(!command_panics("a | &"));
    assert!(!command_panics("> out"));
}

#[test]
fn empty_lines_run_nothing() {
    assert!(matches!(plan_of(""), CommandPlan::Nothing));
    assert!(matches!(plan_of("    "), CommandPlan::Nothing));
    assert!(matches!(plan_of("> out.txt"), CommandPlan::Nothing));
}

#[test]
fn builtin_with_redirection() {
    match plan_of("echo hello > out.txt") {
        CommandPlan::Builtin { kind, cmd, args, op, file } => {
            assert_eq!(kind, Builtin::Echo);
            assert_eq!(cmd, "echo");
            assert_eq!(args, strings(&["hello"]));
            assert_eq!(op.as_deref(), Some(">"));
            assert_eq!(file.as_deref(), Some("out.txt"));
        },
        _ => panic!("expected a builtin"),
    }
    match plan_of("echo a 1>") {
        CommandPlan::Builtin { args, op, file, .. } => {
            assert_eq!(args, strings(&["a"]));
            assert_eq!(op.as_deref(), Some("1>"));
            assert_eq!(file, None);
        },
        _ => panic!("expected a builtin"),
    }
}

#[test]
fn builtin_drops_background_marker() {
    match plan_of("  echo hi &  ") {
        CommandPlan::Builtin { kind, args, op, .. } => {
            assert_eq!(kind, Builtin::Echo);
            assert_eq!(args, strings(&["hi"]));
            assert_eq!(op, None);
        },
        _ => panic!("expected a builtin"),
    }
}

#[test]
fn external_in_background() {
    match plan_of("sleep 5 &") {
        CommandPlan::External { command, cmd, args, op, file, background } => {
            assert_eq!(command, "sleep 5 &");
            assert_eq!(cmd, "sleep");
            assert_eq!(args, strings(&["5"]));
            assert_eq!(op, None);
            assert_eq!(file, None);
            assert!(background);
        },
        _ => panic!("expected an external command"),
    }
}

#[test]
fn external_with_stderr_append() {
    match plan_of("cat 'my file' 2>> err.log extra") {
        CommandPlan::External { cmd, args, op, file, background, .. } => {
            assert_eq!(cmd, "cat");
            assert_eq!(args, strings(&["my file"]));
            assert_eq!(op.as_deref(), Some("2>>"));
            assert_eq!(file.as_deref(), Some("err.log"));
            assert!(!background);
        },
        _ => panic!("expected an external command"),
    }
}

#[test]
fn first_redirection_wins() {
    match plan_of("ls > a > b") {
        CommandPlan::External { args, op, file, .. } => {
            assert!(args.is_empty());
            assert_eq!(op.as_deref(), Some(">"));
            assert_eq!(file.as_deref(), Some("a"));
        },
        _ => panic!("expected an external command"),
    }
}

#[test]
fn quoted_operator_is_a_redirection_too() {
    match plan_of("echo '>' x") {
        CommandPlan::Builtin { args, op, file, .. } => {
            assert!(args.is_empty());
            assert_eq!(op.as_deref(), Some(">"));
            assert_eq!(file.as_deref(), Some("x"));
        },
        _ => panic!("expected a builtin"),
    }
}

#[test]
fn pipelines_group_external_commands() {
    match plan_of("echo a | wc -l | grep 1 | echo b") {
        CommandPlan::Pipeline { stages } => {
            assert_eq!(stages.len(), 3);
            match &stages[0] {
                PipelineStage::Builtin { kind, command } => {
                    assert_eq!(*kind, Builtin::Echo);
                    assert_eq!(words(command), strings(&["echo", "a"]));
                },
                _ => panic!("expected a builtin stage"),
            }
            match &stages[1] {
                PipelineStage::External { commands } => {
                    assert_eq!(commands.len(), 2);
                    assert_eq!(words(&commands[0]), strings(&["wc", "-l"]));
                    assert_eq!(words(&commands[1]), strings(&["grep", "1"]));
                },
                _ => panic!("expected an external stage"),
            }
            match &stages[2] {
                PipelineStage::Builtin { command, .. } => {
                    assert_eq!(words(command), strings(&["echo", "b"]))
                },
                _ => panic!("expected a builtin stage"),
            }
        },
        _ => panic!("expected a pipeline"),
    }
}

#[test]
fn pipeline_skips_empty_pieces() {
    let stages = pipeline_stages("ls | | wc  ");
    assert_eq!(stages.len(), 1);
    match &stages[0] {
        PipelineStage::External { commands } => {
            assert_eq!(commands.len(), 2);
            assert_eq!(words(&commands[0]), strings(&["ls"]));
            assert_eq!(words(&commands[1]), strings(&["wc"]));
        },
        _ => panic!("expected an external stage"),
    }
    assert!(pipeline_stages("|").is_empty());
}

#[test]
fn pipe_inside_quotes_still_splits() {
    let stages = pipeline_stages("echo 'a|b'");
    assert_eq!(stages.len(), 2);
}

#[test]
fn commands_reap_finished_jobs_first() {
    let mut t = JobTable::new();
    t.add_job("sleep 1 &".to_string());
    t.add_job("sleep 2 &".to_string());
    let (report, plan) = process_command(&mut t, &[JobStatus::Running, JobStatus::Done], "pwd");
    assert_eq!(report.output, "[2]+  Done                    sleep 2\n");
    assert_eq!(report.finished, vec![2]);
    assert_eq!(t.len(), 1);
    assert!(matches!(plan, CommandPlan::Builtin { kind: Builtin::Pwd, .. }));
}

fn facts() -> BuiltinFacts {
    BuiltinFacts {
        cwd: Some("/tmp".to_string()),
        home: Some("/home/u".to_string()),
        found: None,
        job_statuses: Vec::new(),
    }
}

#[test]
fn executing_echo_and_exit() {
    let mut state = ShellState::new();
    let o = builtin_execution(&mut state, "echo", &["a", "b"], None, None, &facts()).unwrap();
    assert!(o.keep_running);
    match o.action {
        BuiltinAction::Print { text, route } => {
            assert_eq!(text, "a b\n");
            assert!(matches!(route, OutputRoute::ToOutput));
        },
        _ => panic!("expected output"),
    }
    let o = builtin_execution(&mut state, "exit", &[], None, None, &facts()).unwrap();
    assert!(!o.keep_running);
    assert!(matches!(o.action, BuiltinAction::Nothing));
    assert!(builtin_execution(&mut state, "ls", &[], None, None, &facts()).is_none());
}

#[test]
fn executing_echo_into_a_file() {
    let mut state = ShellState::new();
    let o = builtin_execution(&mut state, "echo", &["x"], Some(">"), Some("f"), &facts()).unwrap();
    match o.action {
        BuiltinAction::Print { text, route: OutputRoute::Redirected { plan } } => {
            assert_eq!(text, "x\n");
            assert_eq!((plan.file_action, plan.print), (FileAction::Write, false));
        },
        _ => panic!("expected redirected output"),
    }
}

#[test]
fn executing_pwd_cd_type() {
    let mut state = ShellState::new();
    match builtin_execution(&mut state, "pwd", &[], None, None, &facts()).unwrap().action {
        BuiltinAction::Print { text, .. } => assert_eq!(text, "/tmp\n"),
        _ => panic!("expected output"),
    }
    let mut f = facts();
    f.cwd = None;
    assert!(matches!(
        builtin_execution(&mut state, "pwd", &[], None, None, &f).unwrap().action,
        BuiltinAction::PwdFailed
    ));
    match builtin_execution(&mut state, "cd", &[], None, None, &facts()).unwrap().action {
        BuiltinAction::ChangeDir { plan } => assert_eq!(plan.target, "/home/u"),
        _ => panic!("expected a directory change"),
    }
    let mut f = facts();
    f.found = Some("/bin/ls".to_string());
    match builtin_execution(&mut state, "type", &["ls"], None, None, &f).unwrap().action {
        BuiltinAction::Print { text, .. } => assert_eq!(text, "ls is /bin/ls\n"),
        _ => panic!("expected output"),
    }
    assert!(matches!(
        builtin_execution(&mut state, "type", &[], None, None, &facts()).unwrap().action,
        BuiltinAction::Nothing
    ));
}

#[test]
fn executing_complete_keeps_registrations() {
    let mut state = ShellState::new();
    let o = builtin_execution(&mut state, "complete", &["-C", "/s", "git"], None, None, &facts());
    assert!(matches!(o.unwrap().action, BuiltinAction::Nothing));
    match builtin_execution(&mut state, "complete", &["-p", "git"], None, None, &facts())
        .unwrap()
        .action
    {
        BuiltinAction::Print { text, .. } => assert_eq!(text, "complete -C '/s' git\n"),
        _ => panic!("expected output"),
    }
    assert_eq!(state.completions.lookup("git").map(|s| s.as_str()), Some("/s"));
}

#[test]
fn executing_jobs_and_history() {
    let mut state = ShellState::new();
    state.jobs.add_job("sleep 9 &".to_string());
    let mut f = facts();
    f.job_statuses = vec![JobStatus::Running];
    match builtin_execution(&mut state, "jobs", &[], None, None, &f).unwrap().action {
        BuiltinAction::Jobs { report, route } => {
            assert_eq!(report.output, "[1]+  Running                 sleep 9 &\n");
            assert!(report.finished.is_empty());
            assert!(matches!(route, OutputRoute::ToOutput));
        },
        _ => panic!("expected a jobs report"),
    }
    state.history.load(&["ls".to_string()]);
    match builtin_execution(&mut state, "history", &["-w", "h.txt"], None, None, &facts())
        .unwrap()
        .action
    {
        BuiltinAction::History { command: HistoryCommand::Write { file, text } } => {
            assert_eq!(file, "h.txt");
            assert_eq!(text, "ls\n");
        },
        _ => panic!("expected a history write"),
    }
}

#[test]
fn pipeline_segment_wiring() {
    let w = segment_wiring(0, 2, true, true);
    assert_eq!((w.stdin_from_input, w.stdin_from_previous, w.stdout_piped), (true, false, true));
    let w = segment_wiring(1, 2, true, true);
    assert_eq!((w.stdin_from_input, w.stdin_from_previous, w.stdout_piped), (false, true, false));
    let w = segment_wiring(1, 2, false, false);
    assert_eq!((w.stdin_from_input, w.stdin_from_previous, w.stdout_piped), (false, true, true));
    let w = segment_wiring(0, 1, false, true);
    assert_eq!((w.stdin_from_input, w.stdin_from_previous, w.stdout_piped), (false, false, false));
}

#[test]
fn exit_plan_only_for_exit() {
    match plan_of("exit 3 > f &") {
        CommandPlan::Builtin { kind, cmd, .. } => {
            assert_eq!(kind, Builtin::Exit);
            assert_eq!(cmd, "exit");
        },
        _ => panic!("expected the exit builtin"),
    }
    assert!(matches!(plan_of("exit | echo x"), CommandPlan::Pipeline { .. }));
    assert!(matches!(plan_of("exits"), CommandPlan::External { .. }));
    assert!(matches!(plan_of("echo exit"), CommandPlan::Builtin { kind: Builtin::Echo, .. }));
}

#[test]
fn pipeline_builtin_stage_kinds_match_their_names() {
    for stage in pipeline_stages("pwd | cat | type ls") {
        if let PipelineStage::Builtin { kind, command } = stage {
            assert_eq!(Some(kind), shell::builtins::builtin_kind(&command.cmd));
        }
    }
}

#[test]
fn only_the_last_stage_prints() {
    assert!(!shell::command::stage_output_to_terminal(0, 3));
    assert!(!shell::command::stage_output_to_terminal(1, 3));
    assert!(shell::command::stage_output_to_terminal(2, 3));
    assert!(shell::command::stage_output_to_terminal(0, 1));
}

#[test]
fn command_not_found_line() {
    assert_eq!(shell::command::not_found_message("nope"), "nope: command not found\n");
}
