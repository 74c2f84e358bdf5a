use shell::builtins::{
    builtin_kind, builtin_names, cd_builtin, complete_builtin, echo_builtin, exit_builtin, is_builtin_name,
    pwd_builtin, type_builtin, type_lookup, Builtin, CompletionRegistry,
};
use shell::history::{history_builtin, History, HistoryCommand};
use shell::jobs::{job_started_message, jobs_builtin, reap_jobs, JobStatus, JobTable};

#[test]
fn names_are_recognised() {
    for name in ["exit", "echo", "pwd", "cd", "type", "complete", "jobs", "history"] {
        assert!(is_builtin_name(name), "{}", name);
    }
    for name in ["ls", "", "Echo", "echo ", "hist"] {
        assert!(!is_builtin_name(name), "{}", name);
    }
}

#[test]
fn all_builtin_names() {
    let names = builtin_names();
    assert_eq!(names, vec!["exit", "echo", "pwd", "cd", "type", "complete", "jobs", "history"]);
    assert!(names.iter().all(|n| is_builtin_name(n)));
}

#[test]
fn builtin_kinds() {
    assert_eq!(builtin_kind("echo"), Some(Builtin::Echo));
    assert_eq!(builtin_kind("exit"), Some(Builtin::Exit));
    assert_eq!(builtin_kind("pwd"), Some(Builtin::Pwd));
    assert_eq!(builtin_kind("cd"), Some(Builtin::Cd));
    assert_eq!(builtin_kind("type"), Some(Builtin::Type));
    assert_eq!(builtin_kind("complete"), Some(Builtin::Complete));
    assert_eq!(builtin_kind("jobs"), Some(Builtin::Jobs));
    assert_eq!(builtin_kind("history"), Some(Builtin::History));
    assert_eq!(builtin_kind("cat"), None);
}

#[test]
fn exit_stops_the_shell() {
    assert!(!exit_builtin(&[]));
    assert!(!exit_builtin(&["0"]));
}

#[test]
fn echo_joins_with_spaces() {
    assert_eq!(echo_builtin(&["hello", "world"]), "hello world\n");
    assert_eq!(echo_builtin(&["a  b"]), "a  b\n");
    assert_eq!(echo_builtin(&[]), "\n");
}

#[test]
fn pwd_prints_the_directory() {
    assert_eq!(pwd_builtin("/tmp"), "/tmp\n");
}

#[test]
fn cd_without_argument_goes_home() {
    let plan = cd_builtin(&[], Some("/home/u"));
    assert_eq!(plan.target, "/home/u");
    assert_eq!(plan.error_message, "cd: ~: No such file or directory\n");
    let plan = cd_builtin(&["~"], Some("/home/u"));
    assert_eq!(plan.target, "/home/u");
}

#[test]
fn cd_tilde_without_home_stays_tilde() {
    let plan = cd_builtin(&["~"], None);
    assert_eq!(plan.target, "~");
}

#[test]
fn cd_to_a_path() {
    let plan = cd_builtin(&["/nope", "extra"], Some("/home/u"));
    assert_eq!(plan.target, "/nope");
    assert_eq!(plan.error_message, "cd: /nope: No such file or directory\n");
    let plan = cd_builtin(&["~/x"], Some("/home/u"));
    assert_eq!(plan.target, "~/x");
}

#[test]
fn type_lookup_only_for_non_builtins() {
    assert_eq!(type_lookup(&["ls"]), Some("ls"));
    assert_eq!(type_lookup(&["echo"]), None);
    assert_eq!(type_lookup(&[]), None);
}

#[test]
fn type_reports() {
    assert_eq!(type_builtin(&["echo"], None), Some("echo is a shell builtin\n".to_string()));
    assert_eq!(
        type_builtin(&["type"], Some("/usr/bin/type")),
        Some("type is a shell builtin\n".to_string())
    );
    assert_eq!(type_builtin(&["ls"], Some("/bin/ls")), Some("ls is /bin/ls\n".to_string()));
    assert_eq!(type_builtin(&["nope"], None), Some("nope: not found\n".to_string()));
    assert_eq!(type_builtin(&[], None), None);
}

#[test]
fn complete_register_print_unregister() {
    let mut reg = CompletionRegistry::new();
    assert_eq!(complete_builtin(&["-C", "/s.sh", "git"], &mut reg), None);
    assert_eq!(reg.lookup("git").map(|s| s.as_str()), Some("/s.sh"));
    assert_eq!(
        complete_builtin(&["-p", "git"], &mut reg),
        Some("complete -C '/s.sh' git\n".to_string())
    );
    assert_eq!(complete_builtin(&["-r", "git"], &mut reg), None);
    assert_eq!(reg.lookup("git"), None);
    assert_eq!(
        complete_builtin(&["-p", "git"], &mut reg),
        Some("complete: git: no completion specification\n".to_string())
    );
}

#[test]
fn complete_register_replaces_the_old_script() {
    let mut reg = CompletionRegistry::new();
    complete_builtin(&["-C", "/a.sh", "git"], &mut reg);
    complete_builtin(&["-C", "/b.sh", "git"], &mut reg);
    complete_builtin(&["-C", "/c.sh", "cargo"], &mut reg);
    assert_eq!(
        complete_builtin(&["-p", "git"], &mut reg),
        Some("complete -C '/b.sh' git\n".to_string())
    );
    assert_eq!(
        complete_builtin(&["-p", "cargo"], &mut reg),
        Some("complete -C '/c.sh' cargo\n".to_string())
    );
    complete_builtin(&["-r", "git"], &mut reg);
    assert_eq!(reg.lookup("git"), None);
    assert_eq!(reg.lookup("cargo").map(|s| s.as_str()), Some("/c.sh"));
}

#[test]
fn complete_with_too_few_arguments_does_nothing() {
    let mut reg = CompletionRegistry::new();
    assert_eq!(complete_builtin(&["-C", "/a.sh"], &mut reg), None);
    assert_eq!(complete_builtin(&["-p"], &mut reg), None);
    assert_eq!(complete_builtin(&["-x", "y"], &mut reg), None);
    assert_eq!(complete_builtin(&[], &mut reg), None);
    assert_eq!(reg.lookup("/a.sh"), None);
}

#[test]
fn removing_an_unknown_completion_is_harmless() {
    let mut reg = CompletionRegistry::new();
    assert_eq!(complete_builtin(&["-r", "nothing"], &mut reg), None);
    assert_eq!(reg.lookup("nothing"), None);
}

#[test]
fn job_numbers_are_the_smallest_free() {
    let mut t = JobTable::new();
    assert_eq!(t.len(), 0);
    assert_eq!(t.add_job("sleep 5 &".to_string()), 1);
    assert_eq!(t.add_job("sleep 10 &".to_string()), 2);
    assert_eq!(t.add_job("sleep 15 &".to_string()), 3);
    let r = reap_jobs(&mut t, &[JobStatus::Running, JobStatus::Done, JobStatus::Running]);
    assert_eq!(r.finished, vec![2]);
    assert_eq!(t.len(), 2);
    assert_eq!(t.job_num(0), 1);
    assert_eq!(t.job_num(1), 3);
    assert_eq!(t.add_job("sleep 20 &".to_string()), 2);
    assert_eq!(t.add_job("sleep 25 &".to_string()), 4);
}

#[test]
fn job_started_line() {
    assert_eq!(job_started_message(1, 12345), "[1] 12345\n");
    assert_eq!(job_started_message(10, 7), "[10] 7\n");
}

#[test]
fn reaping_reports_finished_jobs() {
    let mut t = JobTable::new();
    t.add_job("sleep 5 &".to_string());
    t.add_job("sleep 10 &".to_string());
    let r = reap_jobs(&mut t, &[JobStatus::Done, JobStatus::Running]);
    assert_eq!(r.output, "[1]-  Done                    sleep 5\n");
    assert_eq!(r.finished, vec![1]);
    assert_eq!(t.len(), 1);
    assert_eq!(t.job_num(0), 2);
}

#[test]
fn reaping_nothing() {
    let mut t = JobTable::new();
    let r = reap_jobs(&mut t, &[]);
    assert_eq!(r.output, "");
    assert!(r.finished.is_empty());
    t.add_job("sleep 1 &".to_string());
    let r = reap_jobs(&mut t, &[JobStatus::Unknown]);
    assert_eq!(r.output, "");
    assert_eq!(t.len(), 1);
}

#[test]
fn jobs_lists_running_and_done() {
    let mut t = JobTable::new();
    t.add_job("sleep 5 &".to_string());
    t.add_job("sleep 10 &".to_string());
    t.add_job("sleep 15 &".to_string());
    let r = jobs_builtin(&mut t, &[JobStatus::Running, JobStatus::Unknown, JobStatus::Done]);
    assert_eq!(
        r.output,
        "[1]   Running                 sleep 5 &\n[3]+  Done                 sleep 15\n"
    );
    assert_eq!(r.finished, vec![3]);
    assert_eq!(t.len(), 2);
    let r = jobs_builtin(&mut t, &[JobStatus::Running, JobStatus::Running]);
    assert_eq!(
        r.output,
        "[1]-  Running                 sleep 5 &\n[2]+  Running                 sleep 10 &\n"
    );
}

#[test]
fn done_job_keeps_text_without_trailing_ampersands() {
    let mut t = JobTable::new();
    t.add_job("sleep 1 & &".to_string());
    let r = jobs_builtin(&mut t, &[JobStatus::Done]);
    assert_eq!(r.output, "[1]+  Done                 sleep 1\n");
    assert_eq!(t.len(), 0);
}

fn loaded(lines: &[&str]) -> History {
    let mut h = History::new();
    let v: Vec<String> = lines.iter().map(|s| s.to_string()).collect();
    h.load(&v);
    h
}

fn print_text(c: HistoryCommand) -> String {
    match c {
        HistoryCommand::Print { text } => text,
        _ => panic!("expected a listing"),
    }
}

#[test]
fn history_lists_all_entries() {
    let h = loaded(&["ls", "  ", "echo hi", ""]);
    assert_eq!(print_text(history_builtin(&[], &h)), "    1  ls\n    2  echo hi\n");
}

#[test]
fn history_lists_the_last_n() {
    let h = loaded(&["a", "b", "c"]);
    assert_eq!(print_text(history_builtin(&["2"], &h)), "    2  b\n    3  c\n");
    assert_eq!(print_text(history_builtin(&["0"], &h)), "");
    assert_eq!(print_text(history_builtin(&["9"], &h)), "    1  a\n    2  b\n    3  c\n");
    assert_eq!(print_text(history_builtin(&["x"], &h)), "    1  a\n    2  b\n    3  c\n");
    assert_eq!(print_text(history_builtin(&["-r"], &h)), "    1  a\n    2  b\n    3  c\n");
    assert_eq!(print_text(history_builtin(&["+1"], &h)), "    3  c\n");
    assert_eq!(print_text(history_builtin(&["-1"], &h)), "    1  a\n    2  b\n    3  c\n");
    assert_eq!(
        print_text(history_builtin(&["99999999999999999999999"], &h)),
        "    1  a\n    2  b\n    3  c\n"
    );
}

#[test]
fn history_numbers_are_right_aligned() {
    let lines: Vec<String> = (0..12).map(|i| format!("cmd{}", i)).collect();
    let mut h = History::new();
    h.load(&lines);
    assert_eq!(print_text(history_builtin(&["2"], &h)), "   11  cmd10\n   12  cmd11\n");
}

#[test]
fn history_read_write_append() {
    let mut h = loaded(&["ls", "pwd"]);
    match history_builtin(&["-r", "f.txt"], &h) {
        HistoryCommand::Read { file } => assert_eq!(file, "f.txt"),
        _ => panic!("expected a read"),
    }
    match history_builtin(&["-w", "out.txt"], &h) {
        HistoryCommand::Write { file, text } => {
            assert_eq!(file, "out.txt");
            assert_eq!(text, "ls\npwd\n");
        },
        _ => panic!("expected a write"),
    }
    match history_builtin(&["-a", "app.txt"], &h) {
        HistoryCommand::Append { file, text } => {
            assert_eq!(file, "app.txt");
            assert_eq!(text, "ls\npwd\n");
        },
        _ => panic!("expected an append"),
    }
    h.mark_appended();
    h.load(&["cd /".to_string()]);
    match history_builtin(&["-a", "app.txt"], &h) {
        HistoryCommand::Append { text, .. } => assert_eq!(text, "cd /\n"),
        _ => panic!("expected an append"),
    }
    h.mark_appended();
    match history_builtin(&["-a", "app.txt"], &h) {
        HistoryCommand::Append { text, .. } => assert_eq!(text, ""),
        _ => panic!("expected an append"),
    }
}

#[test]
fn empty_history_lists_nothing() {
    let h = History::new();
    assert_eq!(print_text(history_builtin(&[], &h)), "");
}

#[test]
fn written_history_reads_back() {
    let h = loaded(&["ls -l", "echo hi", "pwd"]);
    let text = match history_builtin(&["-w", "f"], &h) {
        HistoryCommand::Write { text, .. } => text,
        _ => panic!("expected a write"),
    };
    let lines: Vec<String> = text.lines().map(String::from).collect();
    let mut again = History::new();
    again.load(&lines);
    assert_eq!(print_text(history_builtin(&[], &again)), print_text(history_builtin(&[], &h)));
    assert_eq!(text.split('\n').last(), Some(""));
}
