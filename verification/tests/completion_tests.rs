use shell::builtins::{complete_builtin, CompletionRegistry};
use shell::completion::{
    cursor_at, longest_common_prefix, parse_completion_context, CompletionResponse,
    CompletionStep, ShellHelper,
};
use shell::trie::Trie;

fn strings(v: &[&str]) -> Vec<String> {
    v.iter().map(|s| s.to_string()).collect()
}

fn helper(words: &[&str]) -> ShellHelper {
    let mut trie = Trie::new();
    for w in words {
        trie.insert(w);
    }
    ShellHelper { trie, last_tab: None }
}

fn pairs(r: &CompletionResponse) -> Vec<(String, String)> {
    r.pairs.iter().map(|p| (p.display.clone(), p.replacement.clone())).collect()
}

fn done(step: CompletionStep) -> CompletionResponse {
    match step {
        CompletionStep::Done { response } => response,
        _ => panic!("expected an answer"),
    }
}

fn entries(v: &[(&str, bool)]) -> Vec<(String, bool)> {
    v.iter().map(|(n, d)| (n.to_string(), *d)).collect()
}

#[test]
fn common_prefixes() {
    assert_eq!(longest_common_prefix(&[]), "");
    assert_eq!(longest_common_prefix(&strings(&["x"])), "x");
    assert_eq!(longest_common_prefix(&strings(&["abc", "abd", "ab"])), "ab");
    assert_eq!(longest_common_prefix(&strings(&["abc", "xyz"])), "");
    assert_eq!(longest_common_prefix(&strings(&["héllo", "hélium"])), "hél");
}

#[test]
fn completion_context_words_and_offsets() {
    let (t, cur) = parse_completion_context("git co");
    assert_eq!(t, vec![(0, "git".to_string()), (4, "co".to_string())]);
    assert_eq!(cur, Some(4));
    let (t, cur) = parse_completion_context("git ");
    assert_eq!(t, vec![(0, "git".to_string())]);
    assert_eq!(cur, None);
    let (t, cur) = parse_completion_context("");
    assert!(t.is_empty());
    assert_eq!(cur, None);
}

#[test]
fn completion_context_quotes_and_bytes() {
    let (t, cur) = parse_completion_context("echo 'a b'");
    assert_eq!(t, vec![(0, "echo".to_string()), (5, "a b".to_string())]);
    assert_eq!(cur, Some(5));
    let (t, cur) = parse_completion_context("é  x\\ y");
    assert_eq!(t, vec![(0, "é".to_string()), (4, "x y".to_string())]);
    assert_eq!(cur, Some(4));
}

#[test]
fn cursor_positions() {
    assert_eq!(cursor_at("abc", 3), Some(3));
    assert_eq!(cursor_at("abc", 0), Some(0));
    assert_eq!(cursor_at("abc", 4), None);
    assert_eq!(cursor_at("héllo", 3), Some(2));
    assert_eq!(cursor_at("héllo", 2), None);
}

#[test]
fn command_name_with_one_match() {
    let mut h = helper(&["echo", "exit", "type"]);
    let r = done(h.complete_word("ec", 2));
    assert_eq!(r.start, 0);
    assert_eq!(pairs(&r), vec![("echo".to_string(), "echo ".to_string())]);
    assert_eq!(r.printed, "");
    assert_eq!(h.last_tab, None);
}

#[test]
fn command_name_after_leading_spaces() {
    let mut h = helper(&["echo", "exit"]);
    let r = done(h.complete_word("  ty", 4));
    assert_eq!(r.start, 4);
    assert!(r.pairs.is_empty());
    assert_eq!(r.printed, "\x07");
    let r = done(h.complete_word("  ec", 4));
    assert_eq!(r.start, 2);
    assert_eq!(pairs(&r), vec![("echo".to_string(), "echo ".to_string())]);
}

#[test]
fn command_name_without_match_rings_the_bell() {
    let mut h = helper(&["echo"]);
    h.last_tab = Some("z".to_string());
    let r = done(h.complete_word("z", 1));
    assert_eq!(r.start, 1);
    assert!(r.pairs.is_empty());
    assert_eq!(r.printed, "\x07");
    assert_eq!(h.last_tab, None);
}

#[test]
fn command_name_completed_to_the_common_part() {
    let mut h = helper(&["export", "exporter"]);
    let r = done(h.complete_word("exp", 3));
    assert_eq!(pairs(&r), vec![("export".to_string(), "export".to_string())]);
}

#[test]
fn command_names_listed_on_second_tab() {
    let mut h = helper(&["echo", "exit", "type"]);
    let r = done(h.complete_word("e", 1));
    assert_eq!(r.printed, "\x07");
    assert!(r.pairs.is_empty());
    assert_eq!(r.start, 1);
    assert_eq!(h.last_tab.as_deref(), Some("e"));
    let r = done(h.complete_word("e", 1));
    assert_eq!(r.printed, "\necho  exit\n$ e");
    assert_eq!(r.listed, strings(&["echo", "exit"]));
    assert_eq!(h.last_tab, None);
    let r = done(h.complete_word("e", 1));
    assert_eq!(r.printed, "\x07");
}

#[test]
fn second_tab_on_another_line_rings_again() {
    let mut h = helper(&["echo", "exit"]);
    done(h.complete_word("e", 1));
    let r = done(h.complete_word("e ", 1));
    assert_eq!(r.printed, "\x07");
    assert_eq!(h.last_tab.as_deref(), Some("e "));
}

#[test]
fn argument_asks_for_a_directory_listing() {
    let mut h = helper(&["cat"]);
    match h.complete_word("cat fo", 6) {
        CompletionStep::ListDirectory { dir, file_prefix, replacement_prefix, start } => {
            assert_eq!(dir, ".");
            assert_eq!(file_prefix, "fo");
            assert_eq!(replacement_prefix, "");
            assert_eq!(start, 4);
        },
        _ => panic!("expected a directory listing"),
    }
    match h.complete_word("cat src/ma", 10) {
        CompletionStep::ListDirectory { dir, file_prefix, replacement_prefix, start } => {
            assert_eq!(dir, "src");
            assert_eq!(file_prefix, "ma");
            assert_eq!(replacement_prefix, "src/");
            assert_eq!(start, 4);
        },
        _ => panic!("expected a directory listing"),
    }
    match h.complete_word("cat /", 5) {
        CompletionStep::ListDirectory { dir, file_prefix, replacement_prefix, .. } => {
            assert_eq!(dir, "");
            assert_eq!(file_prefix, "");
            assert_eq!(replacement_prefix, "/");
        },
        _ => panic!("expected a directory listing"),
    }
}

#[test]
fn file_with_one_match() {
    let mut h = helper(&[]);
    let r = h.complete_file("cat fo", 6, 4, "", "fo", &entries(&[("foo.txt", false), ("bar", false)]));
    assert_eq!(r.start, 4);
    assert_eq!(pairs(&r), vec![("foo.txt".to_string(), "foo.txt ".to_string())]);
    let r = h.complete_file("cd fo", 5, 3, "", "fo", &entries(&[("folder", true)]));
    assert_eq!(pairs(&r), vec![("folder/".to_string(), "folder/".to_string())]);
    let r = h.complete_file("cat src/ma", 10, 4, "src/", "ma", &entries(&[("main.rs", false)]));
    assert_eq!(pairs(&r), vec![("src/main.rs".to_string(), "src/main.rs ".to_string())]);
}

#[test]
fn file_without_match_rings_the_bell() {
    let mut h = helper(&[]);
    h.last_tab = Some("cat z".to_string());
    let r = h.complete_file("cat z", 5, 4, "", "z", &entries(&[("a", false)]));
    assert_eq!(r.start, 5);
    assert!(r.pairs.is_empty());
    assert_eq!(r.printed, "\x07");
    assert_eq!(h.last_tab, None);
}

#[test]
fn files_completed_to_common_prefix() {
    let mut h = helper(&[]);
    let r = h.complete_file(
        "cat f",
        5,
        4,
        "",
        "f",
        &entries(&[("foo2", false), ("foo1", false), ("x", false)]),
    );
    assert_eq!(pairs(&r), vec![("foo".to_string(), "foo".to_string())]);
}

#[test]
fn files_listed_on_second_tab() {
    let mut h = helper(&[]);
    let e = entries(&[("fb", false), ("fa", true), ("g", false)]);
    let r = h.complete_file("ls f", 4, 3, "", "f", &e);
    assert_eq!(r.printed, "\x07");
    assert_eq!(r.start, 4);
    let r = h.complete_file("ls f", 4, 3, "", "f", &e);
    assert_eq!(r.printed, "\nfa/  fb\n$ ls f");
    assert_eq!(r.listed, strings(&["fa/", "fb"]));
    assert_eq!(h.last_tab, None);
}

fn registry_with(cmd: &str, script: &str) -> CompletionRegistry {
    let mut reg = CompletionRegistry::new();
    complete_builtin(&["-C", script, cmd], &mut reg);
    reg
}

fn script_step(step: CompletionStep) -> (String, String, String, String, usize) {
    match step {
        CompletionStep::RunScript { script, command, word, previous, replacement_start } => {
            (script, command, word, previous, replacement_start)
        },
        _ => panic!("expected a script run"),
    }
}

#[test]
fn registered_command_runs_its_script() {
    let reg = registry_with("git", "/comp.sh");
    let mut h = helper(&["git"]);
    assert_eq!(
        script_step(h.begin_completion(&reg, "git co", 6)),
        ("/comp.sh".into(), "git".into(), "co".into(), "".into(), 4)
    );
    assert_eq!(
        script_step(h.begin_completion(&reg, "git commit -", 12)),
        ("/comp.sh".into(), "git".into(), "-".into(), "commit".into(), 11)
    );
    assert_eq!(
        script_step(h.begin_completion(&reg, "git ", 4)),
        ("/comp.sh".into(), "git".into(), "".into(), "".into(), 4)
    );
    assert_eq!(
        script_step(h.begin_completion(&reg, "git commit ", 11)),
        ("/comp.sh".into(), "git".into(), "".into(), "commit".into(), 11)
    );
    assert_eq!(
        script_step(h.begin_completion(&reg, "git commit -m", 10)),
        ("/comp.sh".into(), "git".into(), "commit".into(), "".into(), 4)
    );
}

#[test]
fn unregistered_command_completes_as_usual() {
    let reg = registry_with("git", "/comp.sh");
    let mut h = helper(&["echo"]);
    let r = done(h.begin_completion(&reg, "ech", 3));
    assert_eq!(pairs(&r), vec![("echo".to_string(), "echo ".to_string())]);
    match h.begin_completion(&reg, "cat x", 5) {
        CompletionStep::ListDirectory { file_prefix, .. } => assert_eq!(file_prefix, "x"),
        _ => panic!("expected a directory listing"),
    }
}

#[test]
fn script_with_one_candidate() {
    let mut h = helper(&[]);
    let r = h.complete_from_script("git co", 6, 4, "co", "  commit  \n").unwrap();
    assert_eq!(r.start, 4);
    assert_eq!(pairs(&r), vec![("commit".to_string(), "commit ".to_string())]);
}

#[test]
fn script_candidates_completed_to_common_prefix() {
    let mut h = helper(&[]);
    let r = h.complete_from_script("git c", 5, 4, "c", "cherry-pick\ncheckout\n").unwrap();
    assert_eq!(pairs(&r), vec![("che".to_string(), "che".to_string())]);
}

#[test]
fn script_without_candidates_gives_way() {
    let mut h = helper(&[]);
    assert!(h.complete_from_script("git c", 5, 4, "c", "  \n\n").is_none());
    assert!(h.complete_from_script("git c", 5, 4, "c", "").is_none());
}

#[test]
fn script_candidates_listed_on_second_tab() {
    let mut h = helper(&[]);
    let r = h.complete_from_script("git ", 4, 4, "", "b\na\n").unwrap();
    assert_eq!(r.printed, "\x07");
    assert_eq!(h.last_tab.as_deref(), Some("git "));
    let r = h.complete_from_script("git ", 4, 4, "", "b\na\n").unwrap();
    assert_eq!(r.printed, "\na  b\n$ git ");
    assert_eq!(r.listed, strings(&["a", "b"]));
    assert_eq!(h.last_tab, None);
}

#[test]
fn word_under_cursor_unless_line_ends_in_a_plain_space() {
    assert_eq!(parse_completion_context("git ").1, None);
    assert_eq!(parse_completion_context("git\\ ").1, Some(0));
    assert_eq!(parse_completion_context("git ' ").1, Some(4));
    assert_eq!(parse_completion_context("git \" ").1, Some(4));
    assert_eq!(parse_completion_context("git '' ").1, None);
    assert_eq!(parse_completion_context("  ").1, None);
}

#[test]
fn empty_answers_start_at_the_cursor() {
    let mut h = helper(&["echo", "exit"]);
    let r = done(h.complete_word("  e", 3));
    assert!(r.pairs.is_empty());
    assert_eq!(r.start, 3);
}
