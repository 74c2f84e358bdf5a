use shell::parser::parse_command;
use shell::trie::Trie;

fn trie_of(words: &[&str]) -> Trie {
    let mut t = Trie::new();
    for w in words {
        t.insert(w);
    }
    t
}

#[test]
fn empty_trie_has_no_matches() {
    let t = Trie::new();
    assert!(t.get_matches("").is_empty());
    assert!(t.get_matches("e").is_empty());
    assert_eq!(t.autocomplete(""), None);
    assert_eq!(t.autocomplete("e"), None);
}

#[test]
fn get_matches_is_sorted_and_filtered_by_prefix() {
    let t = trie_of(&["exit", "echo", "type", "pwd", "history", "cd"]);
    assert_eq!(t.get_matches("e"), vec!["echo".to_string(), "exit".to_string()]);
    assert_eq!(t.get_matches("ty"), vec!["type".to_string()]);
    assert_eq!(t.get_matches("x"), Vec::<String>::new());
    assert_eq!(
        t.get_matches(""),
        vec!["cd", "echo", "exit", "history", "pwd", "type"]
            .into_iter()
            .map(String::from)
            .collect::<Vec<_>>()
    );
}

#[test]
fn get_matches_has_no_duplicates() {
    let t = trie_of(&["ls", "ls", "lsblk", "ls"]);
    assert_eq!(t.get_matches("l"), vec!["ls".to_string(), "lsblk".to_string()]);
}

#[test]
fn get_matches_includes_the_prefix_itself_when_stored() {
    let t = trie_of(&["git", "gitk"]);
    assert_eq!(t.get_matches("git"), vec!["git".to_string(), "gitk".to_string()]);
}

#[test]
fn get_matches_on_non_ascii_words() {
    let t = trie_of(&["héllo", "hélium", "hello"]);
    assert_eq!(t.get_matches("hé"), vec!["hélium".to_string(), "héllo".to_string()]);
    assert_eq!(t.autocomplete("hél"), Some("hél".to_string()));
    assert_eq!(t.autocomplete("hell"), Some("hello".to_string()));
}

#[test]
fn autocomplete_extends_a_unique_match_to_the_whole_word() {
    let t = trie_of(&["echo", "exit", "type"]);
    assert_eq!(t.autocomplete("ty"), Some("type".to_string()));
    assert_eq!(t.autocomplete("ech"), Some("echo".to_string()));
}

#[test]
fn autocomplete_stops_where_words_branch() {
    let t = trie_of(&["echo", "exit"]);
    assert_eq!(t.autocomplete("e"), Some("e".to_string()));
    let t = trie_of(&["history", "hist2"]);
    assert_eq!(t.autocomplete("h"), Some("hist".to_string()));
}

#[test]
fn autocomplete_stops_at_a_stored_word() {
    let t = trie_of(&["export", "exporter"]);
    assert_eq!(t.autocomplete("exp"), Some("export".to_string()));
    assert_eq!(t.autocomplete("export"), Some("export".to_string()));
}

#[test]
fn autocomplete_without_a_match_is_none() {
    let t = trie_of(&["echo"]);
    assert_eq!(t.autocomplete("z"), None);
    assert_eq!(t.autocomplete("echoes"), None);
    assert_eq!(t.autocomplete("echo"), Some("echo".to_string()));
}

#[test]
fn stored_word_is_found_again() {
    let mut t = Trie::new();
    t.insert("pwd");
    assert_eq!(t.get_matches("pwd"), vec!["pwd".to_string()]);
    assert_eq!(t.get_matches("p"), vec!["pwd".to_string()]);
}

fn strings(v: &[&str]) -> Vec<String> {
    v.iter().map(|s| s.to_string()).collect()
}

#[test]
fn parse_splits_on_spaces() {
    assert_eq!(parse_command("echo hello world"), strings(&["echo", "hello", "world"]));
    assert_eq!(parse_command("echo   hello    world  "), strings(&["echo", "hello", "world"]));
}

#[test]
fn parse_empty_and_blank_lines() {
    assert_eq!(parse_command(""), Vec::<String>::new());
    assert_eq!(parse_command("    "), Vec::<String>::new());
}

#[test]
fn parse_single_quotes_keep_spaces_and_backslashes() {
    assert_eq!(parse_command("echo 'hello   world'"), strings(&["echo", "hello   world"]));
    assert_eq!(parse_command("echo 'a\\b'"), strings(&["echo", "a\\b"]));
    assert_eq!(parse_command("echo 'say \"hi\"'"), strings(&["echo", "say \"hi\""]));
}

#[test]
fn parse_double_quotes_keep_spaces_and_single_quotes() {
    assert_eq!(parse_command("echo \"a  b\" c"), strings(&["echo", "a  b", "c"]));
    assert_eq!(parse_command("echo \"it's\""), strings(&["echo", "it's"]));
}

#[test]
fn parse_backslash_escapes_the_next_character() {
    assert_eq!(parse_command("echo a\\ b"), strings(&["echo", "a b"]));
    assert_eq!(parse_command("echo \\'x\\'"), strings(&["echo", "'x'"]));
    assert_eq!(parse_command("echo \"a\\\"b\""), strings(&["echo", "a\"b"]));
    assert_eq!(parse_command("abc\\"), strings(&["abc"]));
}

#[test]
fn parse_adjacent_quotes_join_one_word() {
    assert_eq!(parse_command("a''b"), strings(&["ab"]));
    assert_eq!(parse_command("'foo'\"bar\"baz"), strings(&["foobarbaz"]));
}

#[test]
fn parse_empty_quotes_give_no_word() {
    assert_eq!(parse_command("echo ''"), strings(&["echo"]));
}

#[test]
fn parse_round_trip_of_plain_words() {
    let words = ["ls", "-la", "/tmp"];
    assert_eq!(parse_command(&words.join(" ")), strings(&words));
}

#[test]
fn nodes_exist_exactly_for_prefixes_of_stored_words() {
    let t = trie_of(&["echo", "exit"]);
    assert!(t.find_node(&[]).is_some());
    assert!(t.find_node(&['e']).is_some());
    assert!(t.find_node(&['e', 'c', 'h', 'o']).is_some());
    assert!(t.find_node(&['x']).is_none());
    assert!(t.find_node(&['e', 'c', 'h', 'o', 's']).is_none());
    assert!(Trie::new().find_node(&[]).is_some());
    assert!(Trie::new().find_node(&['a']).is_none());
}

#[test]
fn matches_come_sorted_whatever_the_insertion_order() {
    let t = trie_of(&["zsh", "bash", "ash", "sh", "dash"]);
    assert_eq!(t.get_matches(""), strings(&["ash", "bash", "dash", "sh", "zsh"]));
}

#[test]
fn plain_line_splits_on_spaces() {
    let line = "ls  -la /tmp  x ";
    let expected: Vec<String> =
        line.split(' ').filter(|s| !s.is_empty()).map(String::from).collect();
    assert_eq!(parse_command(line), expected);
}

#[test]
fn unbalanced_quotes_are_accepted() {
    assert_eq!(parse_command("echo 'a b"), strings(&["echo", "a b"]));
    assert_eq!(parse_command("echo \"a b"), strings(&["echo", "a b"]));
}
