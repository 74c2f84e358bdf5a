//! Tab completion: of the arguments of commands that have a registered completion
//! script, of file names, and of command names.

use vstd::prelude::*;
use crate::text::{
    all_whitespace, byte_len, char_is_whitespace, char_width, chars_byte_len, has_prefix,
    join_strings, lemma_byte_len_push, push_chars, push_str_chars, seq_join, str_chars, str_eq,
    string_from_chars, string_views,
};
use crate::parser::{nonempty_words, parse_from, parse_spec};
use crate::trie::{has_match, is_completion, lemma_completion_unique, Trie};
use crate::builtins::CompletionRegistry;
use crate::text::{
    entry_views, lemma_trim_empty, sort_by_name, sorted_by_name, split_chars, split_spec,
    trim_chars, trim_spec, views,
};

verus! {

/// `r` is a prefix of every sequence in `strs`.
pub open spec fn is_common_prefix(strs: Seq<Seq<char>>, r: Seq<char>) -> bool {
    forall|i: int| 0 <= i < strs.len() ==> has_prefix(#[trigger] strs[i], r)
}

/// The length of the longest common prefix of `a` and `b`.
fn common_len(a: &[char], b: &[char]) -> (k: usize)
    ensures
        k <= a@.len(),
        k <= b@.len(),
        a@.take(k as int) == b@.take(k as int),
        k < a@.len() && k < b@.len() ==> a@[k as int] != b@[k as int],
{
    let mut k: usize = 0;
    while k < a.len() && k < b.len() && a[k] == b[k]
        invariant
            k <= a@.len(),
            k <= b@.len(),
            a@.take(k as int) == b@.take(k as int),
        decreases a@.len() - k,
    {
        assert(a@.take(k + 1) == a@.take(k as int).push(a@[k as int]));
        assert(b@.take(k + 1) == b@.take(k as int).push(b@[k as int]));
        k = k + 1;
    }
    k
}

/// The longest text with which every string of `strings` begins (empty for no strings).
pub fn longest_common_prefix(strings: &[String]) -> (prefix: String)
    ensures
        strings@.len() == 0 ==> prefix@.len() == 0,
        is_common_prefix(string_views(strings@), prefix@),
        forall|r: Seq<char>|
            strings@.len() > 0 && is_common_prefix(string_views(strings@), r) ==> r.len()
                <= prefix@.len(),
{
    let ghost sv = string_views(strings@);
    if strings.len() == 0 {
        return String::new();
    }
    let first = str_chars(strings[0].as_str());
    let mut prefix: Vec<char> = first.clone();
    let mut i: usize = 1;
    proof {
        assert(prefix@ == sv[0]);
        assert(prefix@.take(prefix@.len() as int) == prefix@);
        assert(sv.take(1)[0] == sv[0]);
        assert forall|r: Seq<char>| is_common_prefix(sv.take(1), r) implies r.len()
            <= prefix@.len() by {
            assert(has_prefix(sv.take(1)[0], r));
        }
    }
    while i < strings.len()
        invariant
            1 <= i <= strings@.len(),
            sv == string_views(strings@),
            has_prefix(sv[0], prefix@),
            is_common_prefix(sv.take(i as int), prefix@),
            forall|r: Seq<char>| is_common_prefix(sv.take(i as int), r) ==> r.len() <= prefix@.len(),
        decreases strings@.len() - i,
    {
        let s = str_chars(strings[i].as_str());
        let k = common_len(prefix.as_slice(), s.as_slice());
        let ghost old_p = prefix@;
        prefix.truncate(k);
        proof {
            assert(prefix@ == old_p.take(k as int));
            let t = sv.take(i + 1);
            assert forall|j: int| 0 <= j < t.len() implies has_prefix(#[trigger] t[j], prefix@) by {
                if j < i {
                    assert(t[j] == sv.take(i as int)[j]);
                    assert(has_prefix(t[j], old_p));
                    assert(t[j].take(k as int) == t[j].take(old_p.len() as int).take(k as int));
                } else {
                    assert(t[j] == s@);
                }
            }
            assert forall|r: Seq<char>| is_common_prefix(t, r) implies r.len() <= prefix@.len() by {
                assert forall|j: int| 0 <= j < sv.take(i as int).len() implies has_prefix(
                    #[trigger] sv.take(i as int)[j],
                    r,
                ) by {
                    assert(sv.take(i as int)[j] == t[j]);
                }
                assert(is_common_prefix(sv.take(i as int), r));
                assert(r.len() <= old_p.len());
                assert(has_prefix(t[i as int], r));
                assert(t[i as int] == s@);
                if r.len() > k {
                    assert(has_prefix(t[0], r));
                    assert(t[0] == sv[0]);
                    assert(sv[0].take(old_p.len() as int) == old_p);
                    assert(r[k as int] == old_p[k as int]);
                    assert(r[k as int] == s@[k as int]);
                }
            }
            assert(sv[0].take(k as int) == old_p.take(k as int));
        }
        i = i + 1;
    }
    assert(sv.take(strings@.len() as int) == sv);
    string_from_chars(prefix.as_slice())
}

/// The words of the text before the cursor, each with the byte offset at which it
/// starts, and the offset at which the word being typed starts (none after a space).
/// As for command lines, backslashes escape, quotes group, and unquoted spaces separate;
/// a word starts at its first character, quote or backslash, so quotes alone make an
/// empty word.
pub open spec fn context_from(
    s: Seq<char>,
    i: int,
    args: Seq<(nat, Seq<char>)>,
    cur: Seq<char>,
    start: Option<nat>,
    sq: bool,
    dq: bool,
) -> (Seq<(nat, Seq<char>)>, Option<nat>)
    decreases s.len() - i,
{
    if i < 0 || i >= s.len() {
        (
            match start {
                Some(p) => args.push((p, cur)),
                None => args,
            },
            start,
        )
    } else {
        let c = s[i];
        let st = match start {
            Some(p) => Some(p),
            None => Some(byte_len(s.take(i))),
        };
        if c == '\\' && !sq {
            if i + 1 < s.len() {
                context_from(s, i + 2, args, cur.push(s[i + 1]), st, sq, dq)
            } else {
                context_from(s, i + 1, args, cur, st, sq, dq)
            }
        } else if c == '"' && !sq {
            context_from(s, i + 1, args, cur, st, sq, !dq)
        } else if c == '\'' && !dq {
            context_from(s, i + 1, args, cur, st, !sq, dq)
        } else if c == ' ' && !sq && !dq {
            match start {
                Some(p) => context_from(s, i + 1, args.push((p, cur)), Seq::empty(), None, sq, dq),
                None => context_from(s, i + 1, args, cur, None, sq, dq),
            }
        } else {
            context_from(s, i + 1, args, cur.push(c), st, sq, dq)
        }
    }
}

/// The completion context of the text before the cursor.
pub open spec fn context_spec(s: Seq<char>) -> (Seq<(nat, Seq<char>)>, Option<nat>) {
    context_from(s, 0, Seq::empty(), Seq::empty(), None, false, false)
}

/// The words with their starting offsets, as plain values.
pub open spec fn token_views(t: Seq<(usize, String)>) -> Seq<(nat, Seq<char>)> {
    t.map_values(|p: (usize, String)| (p.0 as nat, p.1@))
}

/// The words of `command` with the byte offsets at which they start, and the offset of
/// the word being typed.
pub fn parse_completion_context(command: &str) -> (r: (Vec<(usize, String)>, Option<usize>))
    requires
        byte_len(command@) <= usize::MAX,
    ensures
        (token_views(r.0@), match r.1 {
            Some(p) => Some(p as nat),
            None => None,
        }) == context_spec(command@),
{
    let s = str_chars(command);
    let ghost sv = s@;
    let mut args: Vec<(usize, String)> = Vec::new();
    let mut current: Vec<char> = Vec::new();
    let mut current_start: Option<usize> = None;
    let mut in_single_quotes = false;
    let mut in_double_quotes = false;
    let mut i: usize = 0;
    let mut off: usize = 0;
    assert(sv.take(0) == Seq::<char>::empty());
    assert(token_views(args@) == Seq::<(nat, Seq<char>)>::empty());
    while i < s.len()
        invariant
            sv == s@,
            sv == command@,
            byte_len(sv) <= usize::MAX,
            i <= s@.len(),
            off == byte_len(sv.take(i as int)),
            context_spec(sv) == context_from(
                sv,
                i as int,
                token_views(args@),
                current@,
                match current_start {
                    Some(p) => Some(p as nat),
                    None => None,
                },
                in_single_quotes,
                in_double_quotes,
            ),
        decreases s@.len() - i,
    {
        let c = s[i];
        proof {
            lemma_byte_len_prefix(sv, i as int + 1);
            lemma_byte_len_push(sv.take(i as int), c);
            assert(sv.take(i as int).push(c) == sv.take(i + 1));
        }
        let w = char_width(c);
        let here = off;
        let start_now = match current_start {
            Some(p) => Some(p),
            None => Some(here),
        };
        if c == '\\' && !in_single_quotes {
            current_start = start_now;
            if i + 1 < s.len() {
                let c2 = s[i + 1];
                proof {
                    lemma_byte_len_prefix(sv, i as int + 2);
                    lemma_byte_len_push(sv.take(i + 1), c2);
                    assert(sv.take(i + 1).push(c2) == sv.take(i + 2));
                }
                current.push(c2);
                off = off + w + char_width(c2);
                i = i + 2;
            } else {
                off = off + w;
                i = i + 1;
            }
        } else if c == '"' && !in_single_quotes {
            current_start = start_now;
            in_double_quotes = !in_double_quotes;
            off = off + w;
            i = i + 1;
        } else if c == '\'' && !in_double_quotes {
            current_start = start_now;
            in_single_quotes = !in_single_quotes;
            off = off + w;
            i = i + 1;
        } else if c == ' ' && !in_single_quotes && !in_double_quotes {
            match current_start {
                Some(p) => {
                    let ghost before = args@;
                    let word = string_from_chars(current.as_slice());
                    args.push((p, word));
                    assert(token_views(args@) =~= token_views(before).push((p as nat, current@)));
                    current = Vec::new();
                    current_start = None;
                },
                None => {},
            }
            off = off + w;
            i = i + 1;
        } else {
            current_start = start_now;
            current.push(c);
            off = off + w;
            i = i + 1;
        }
    }
    assert(sv.take(sv.len() as int) == sv);
    match current_start {
        Some(p) => {
            let ghost before = args@;
            let word = string_from_chars(current.as_slice());
            args.push((p, word));
            assert(token_views(args@) =~= token_views(before).push((p as nat, current@)));
        },
        None => {},
    }
    (args, current_start)
}

/// The byte length of a prefix is at most that of the whole.
pub proof fn lemma_byte_len_prefix(s: Seq<char>, i: int)
    requires
        0 <= i <= s.len(),
    ensures
        byte_len(s.take(i)) <= byte_len(s),
    decreases s.len() - i,
{
    if i < s.len() {
        lemma_byte_len_prefix(s, i + 1);
        lemma_byte_len_push(s.take(i), s[i]);
        assert(s.take(i).push(s[i]) == s.take(i + 1));
    } else {
        assert(s.take(i) == s);
    }
}

/// The position, in characters, at which the first `k` characters of `s` or more take
/// up `pos` bytes; none when `pos` falls inside a character or past the end.
pub open spec fn cursor_from(s: Seq<char>, pos: nat, k: int) -> Option<nat>
    decreases s.len() - k,
{
    if k < 0 || k > s.len() {
        None
    } else if byte_len(s.take(k)) == pos {
        Some(k as nat)
    } else if k == s.len() {
        None
    } else {
        cursor_from(s, pos, k + 1)
    }
}

/// The number of characters before the byte offset `pos` of `s`, when `pos` is the
/// offset of a character boundary.
pub open spec fn cursor_index(s: Seq<char>, pos: nat) -> Option<nat> {
    cursor_from(s, pos, 0)
}

/// The text before the cursor.
pub open spec fn before_cursor(line: Seq<char>, pos: nat) -> Seq<char> {
    line.take(cursor_index(line, pos).unwrap() as int)
}

/// The number of characters before the byte offset `pos` of `line`; none when `pos` is
/// not at a character boundary.
pub fn cursor_at(line: &str, pos: usize) -> (r: Option<usize>)
    ensures
        match r {
            Some(k) => cursor_index(line@, pos as nat) == Some(k as nat),
            None => cursor_index(line@, pos as nat) is None,
        },
{
    let s = str_chars(line);
    let ghost sv = s@;
    let mut k: usize = 0;
    let mut off: u128 = 0;
    assert(sv.take(0) == Seq::<char>::empty());
    loop
        invariant
            sv == s@,
            sv == line@,
            k <= s@.len(),
            off == byte_len(sv.take(k as int)),
            off <= 4 * k,
            cursor_index(sv, pos as nat) == cursor_from(sv, pos as nat, k as int),
        decreases s@.len() - k,
    {
        if off == pos as u128 {
            return Some(k);
        }
        if k == s.len() {
            return None;
        }
        proof {
            lemma_byte_len_push(sv.take(k as int), sv[k as int]);
            assert(sv.take(k as int).push(sv[k as int]) == sv.take(k + 1));
        }
        off = off + char_width(s[k]) as u128;
        k = k + 1;
    }
}

/// Where the word under the cursor starts: after the last space before the cursor.
pub open spec fn word_start(b: Seq<char>) -> nat
    decreases b.len(),
{
    if b.len() == 0 {
        0
    } else if b.last() == ' ' {
        b.len()
    } else {
        word_start(b.drop_last())
    }
}

proof fn lemma_word_start_bound(b: Seq<char>)
    ensures
        word_start(b) <= b.len(),
    decreases b.len(),
{
    if b.len() > 0 && b.last() != ' ' {
        lemma_word_start_bound(b.drop_last());
    }
}

/// The position of the last occurrence of `c` in `s`.
pub open spec fn last_index_of(s: Seq<char>, c: char) -> Option<int>
    decreases s.len(),
{
    if s.len() == 0 {
        None
    } else if s.last() == c {
        Some(s.len() - 1)
    } else {
        last_index_of(s.drop_last(), c)
    }
}

proof fn lemma_last_index_bound(s: Seq<char>, c: char)
    ensures
        last_index_of(s, c) matches Some(i) ==> 0 <= i < s.len() && s[i] == c,
    decreases s.len(),
{
    if s.len() > 0 && s.last() != c {
        lemma_last_index_bound(s.drop_last(), c);
    }
}

/// The directory to list, the part of the name being typed, and the text that goes
/// before each completed name: split at the last `/` of the word, or the current
/// directory when there is none.
pub open spec fn file_parts(word: Seq<char>) -> (Seq<char>, Seq<char>, Seq<char>) {
    match last_index_of(word, '/') {
        Some(i) => (word.take(i), word.skip(i + 1), word.take(i + 1)),
        None => ("."@, word, Seq::empty()),
    }
}

/// A completion offered to the line editor: what is shown, and what replaces the word.
pub struct CompletionPair {
    pub display: String,
    pub replacement: String,
}

/// The answer to a completion request: the byte offset where the replaced text starts,
/// the completions offered, the text printed (a bell, or the list of candidates), and
/// the candidates that the list shows.
pub struct CompletionResponse {
    pub start: usize,
    pub pairs: Vec<CompletionPair>,
    pub printed: String,
    pub listed: Vec<String>,
}

/// What completing asks the shell to do next.
pub enum CompletionStep {
    /// Run `script` with the command, the word being completed and the word before it
    /// (with the line and the cursor in its environment), and pass on its output.
    RunScript {
        script: String,
        command: String,
        word: String,
        previous: String,
        replacement_start: usize,
    },
    /// List the directory `dir` and pass on its entries (name, and whether a directory).
    ListDirectory {
        dir: String,
        file_prefix: String,
        replacement_prefix: String,
        start: usize,
    },
    /// Answer with `response`.
    Done { response: CompletionResponse },
}

/// The view of an optional string.
pub open spec fn opt_view(o: Option<String>) -> Option<Seq<char>> {
    match o {
        Some(s) => Some(s@),
        None => None,
    }
}

/// The text that shows every candidate: a newline, the candidates separated by two
/// spaces, a newline, and the prompt with the line again.
pub open spec fn listing_spec(listed: Seq<Seq<char>>, line: Seq<char>) -> Seq<char> {
    "\n"@ + seq_join(listed, "  "@) + "\n$ "@ + line
}

/// No candidate extends the word: the first tab rings the bell and remembers the line;
/// a second tab on the same line lists the candidates and forgets it.
pub open spec fn tab_matches(
    old_last: Option<Seq<char>>,
    new_last: Option<Seq<char>>,
    line: Seq<char>,
    pos: nat,
    listed: Seq<Seq<char>>,
    resp: CompletionResponse,
) -> bool {
    &&& resp.start == pos
    &&& resp.pairs@.len() == 0
    &&& string_views(resp.listed@) == listed
    &&& if old_last == Some(line) {
        new_last is None && resp.printed@ == listing_spec(listed, line)
    } else {
        new_last == Some(line) && resp.printed@ == "\x07"@
    }
}

/// Nothing to complete: the bell rings and the remembered line is forgotten.
pub open spec fn bell_matches(new_last: Option<Seq<char>>, pos: nat, resp: CompletionResponse) -> bool {
    &&& new_last is None
    &&& resp.start == pos
    &&& resp.pairs@.len() == 0
    &&& resp.printed@ == "\x07"@
    &&& resp.listed@.len() == 0
}

/// One completion: offered as it is, the remembered line forgotten.
pub open spec fn single_matches(
    new_last: Option<Seq<char>>,
    start: nat,
    display: Seq<char>,
    replacement: Seq<char>,
    resp: CompletionResponse,
) -> bool {
    &&& new_last is None
    &&& resp.start == start
    &&& resp.pairs@.len() == 1
    &&& resp.pairs@[0].display@ == display
    &&& resp.pairs@[0].replacement@ == replacement
    &&& resp.printed@.len() == 0
    &&& resp.listed@.len() == 0
}

/// `m` is the only word of `words` that begins with `p`.
pub open spec fn only_match(words: Set<Seq<char>>, p: Seq<char>, m: Seq<char>) -> bool {
    &&& words.contains(m)
    &&& has_prefix(m, p)
    &&& forall|w: Seq<char>| #[trigger] words.contains(w) && has_prefix(w, p) ==> w == m
}

/// The answer to completing a command name that begins with `p`, among the names
/// `words`: the bell when none does; the name and a space when only one does; the
/// completion of `p` when it is longer than `p`; otherwise the bell, then the list.
pub open spec fn command_completion_matches(
    words: Set<Seq<char>>,
    old_last: Option<Seq<char>>,
    new_last: Option<Seq<char>>,
    line: Seq<char>,
    pos: nat,
    start: nat,
    p: Seq<char>,
    resp: CompletionResponse,
) -> bool {
    if !has_match(words, p) {
        bell_matches(new_last, pos, resp)
    } else if exists|m: Seq<char>| #[trigger] only_match(words, p, m) {
        resp.pairs@.len() == 1 && {
            let m = resp.pairs@[0].display@;
            &&& words.contains(m) && has_prefix(m, p)
            &&& single_matches(new_last, start, m, m + " "@, resp)
        }
    } else if exists|q: Seq<char>| #[trigger] is_completion(words, p, q) && byte_len(q) > byte_len(p) {
        resp.pairs@.len() == 1 && {
            let q = resp.pairs@[0].display@;
            &&& is_completion(words, p, q)
            &&& single_matches(new_last, start, q, q, resp)
        }
    } else {
        &&& tab_matches(old_last, new_last, line, pos, string_views(resp.listed@), resp)
        &&& crate::text::strictly_sorted(string_views(resp.listed@))
        &&& forall|t: Seq<char>| #[trigger]
            string_views(resp.listed@).contains(t) <==> (words.contains(t) && has_prefix(t, p))
    }
}

/// The text from the cursor's word back to the start of the line is blank: the word is
/// a command name, not an argument.
pub open spec fn completes_command(b: Seq<char>) -> bool {
    all_whitespace(b.take(word_start(b) as int))
}

/// The shell's completion state: the command names, and the line on which the last tab
/// rang the bell.
pub struct ShellHelper {
    pub trie: Trie,
    pub last_tab: Option<String>,
}

impl ShellHelper {
    /// Answers that no candidate extends the word, listing `listed` on the second tab.
    fn respond_tab(&mut self, line: &str, pos: usize, listed: Vec<String>) -> (resp: CompletionResponse)
        ensures
            final(self).trie@ == old(self).trie@,
            tab_matches(
                opt_view(old(self).last_tab),
                opt_view(final(self).last_tab),
                line@,
                pos as nat,
                string_views(listed@),
                resp,
            ),
    {
        let again = match &self.last_tab {
            Some(l) => str_eq(l.as_str(), line),
            None => false,
        };
        if again {
            self.last_tab = None;
            let mut printed = String::from_str("\n");
            let joined = join_strings(listed.as_slice(), "  ");
            printed.append(joined.as_str());
            printed.append("\n$ ");
            printed.append(line);
            CompletionResponse { start: pos, pairs: Vec::new(), printed, listed }
        } else {
            self.last_tab = Some(String::from_str(line));
            CompletionResponse {
                start: pos,
                pairs: Vec::new(),
                printed: String::from_str("\x07"),
                listed,
            }
        }
    }

    /// Rings the bell and forgets the remembered line.
    fn respond_bell(&mut self, pos: usize) -> (resp: CompletionResponse)
        ensures
            final(self).trie@ == old(self).trie@,
            bell_matches(opt_view(final(self).last_tab), pos as nat, resp),
    {
        self.last_tab = None;
        CompletionResponse {
            start: pos,
            pairs: Vec::new(),
            printed: String::from_str("\x07"),
            listed: Vec::new(),
        }
    }

    /// Offers one completion and forgets the remembered line.
    fn respond_single(&mut self, start: usize, display: String, replacement: String) -> (resp:
        CompletionResponse)
        ensures
            final(self).trie@ == old(self).trie@,
            single_matches(opt_view(final(self).last_tab), start as nat, display@, replacement@, resp),
    {
        self.last_tab = None;
        let mut pairs = Vec::new();
        pairs.push(CompletionPair { display, replacement });
        CompletionResponse { start, pairs, printed: String::new(), listed: Vec::new() }
    }

    /// Completes the command name `prefix`, which starts at byte `start`.
    fn complete_command_name(&mut self, line: &str, pos: usize, start: usize, prefix: &str) -> (resp:
        CompletionResponse)
        ensures
            final(self).trie@ == old(self).trie@,
            command_completion_matches(
                old(self).trie@,
                opt_view(old(self).last_tab),
                opt_view(final(self).last_tab),
                line@,
                pos as nat,
                start as nat,
                prefix@,
                resp,
            ),
    {
        let ghost words = self.trie@;
        let ghost p = prefix@;
        let matches = self.trie.get_matches(prefix);
        let ghost mv = string_views(matches@);
        if matches.len() == 0 {
            proof {
                if has_match(words, p) {
                    let w = choose|w: Seq<char>| #[trigger] words.contains(w) && has_prefix(w, p);
                    assert(mv.contains(w));
                }
            }
            return self.respond_bell(pos);
        }
        assert(mv.contains(mv[0]));
        assert(has_match(words, p));
        if matches.len() == 1 {
            let m = matches[0].clone();
            let mut rep = matches[0].clone();
            rep.append(" ");
            proof {
                assert forall|w: Seq<char>| #[trigger] words.contains(w) && has_prefix(w, p) implies w
                    == mv[0] by {
                    assert(mv.contains(w));
                }
                assert(only_match(words, p, mv[0]));
            }
            let r = self.respond_single(start, m, rep);
            return r;
        }
        proof {
            assert(crate::text::seq_less(mv[0], mv[1]));
            crate::text::lemma_seq_less_irreflexive(mv[0]);
            assert(mv.contains(mv[1]));
            assert forall|m: Seq<char>| !#[trigger] only_match(words, p, m) by {
                assert(words.contains(mv[0]) && has_prefix(mv[0], p));
                assert(words.contains(mv[1]) && has_prefix(mv[1], p));
            }
        }
        match self.trie.autocomplete(prefix) {
            Some(cp) => {
                let cpc = str_chars(cp.as_str());
                let pc = str_chars(prefix);
                if chars_byte_len(cpc.as_slice()) > chars_byte_len(pc.as_slice()) {
                    let disp = cp.clone();
                    let ghost cpv = cp@;
                    let r = self.respond_single(start, disp, cp);
                    assert(is_completion(words, p, cpv) && byte_len(cpv) > byte_len(p));
                    return r;
                }
                proof {
                    assert forall|q: Seq<char>| #[trigger]
                        is_completion(words, p, q) implies byte_len(q) <= byte_len(p) by {
                        lemma_completion_unique(words, p, q, cp@);
                    }
                }
            },
            None => {},
        }
        self.respond_tab(line, pos, matches)
    }
}

/// The characters of `s` from `from` up to `to`.
fn copy_chars(s: &[char], from: usize, to: usize) -> (r: Vec<char>)
    requires
        from <= to <= s@.len(),
    ensures
        r@ == s@.subrange(from as int, to as int),
{
    let mut r: Vec<char> = Vec::new();
    let mut i = from;
    while i < to
        invariant
            from <= i <= to,
            to <= s@.len(),
            r@ == s@.subrange(from as int, i as int),
        decreases to - i,
    {
        r.push(s[i]);
        i = i + 1;
        assert(r@ =~= s@.subrange(from as int, i as int));
    }
    r
}

/// Whether `s` begins with `p`.
fn chars_have_prefix(s: &[char], p: &[char]) -> (r: bool)
    ensures
        r == has_prefix(s@, p@),
{
    if p.len() > s.len() {
        return false;
    }
    let mut i: usize = 0;
    while i < p.len()
        invariant
            p@.len() <= s@.len(),
            i <= p@.len(),
            forall|j: int| 0 <= j < i ==> s@[j] == p@[j],
        decreases p@.len() - i,
    {
        if s[i] != p[i] {
            assert(s@.take(p@.len() as int)[i as int] == s@[i as int]);
            return false;
        }
        i = i + 1;
    }
    assert(s@.take(p@.len() as int) =~= p@);
    true
}

/// What completing the word under the cursor does when no completion script applies:
/// an argument is completed from the files of its directory (which the shell must
/// list), a command name from the stored command names.
pub open spec fn word_completion_matches(
    words: Set<Seq<char>>,
    old_last: Option<Seq<char>>,
    new_last: Option<Seq<char>>,
    line: Seq<char>,
    pos: nat,
    r: CompletionStep,
) -> bool {
    let b = before_cursor(line, pos);
    let ws = word_start(b) as int;
    let start = byte_len(b.take(ws));
    let word = b.subrange(ws, b.len() as int);
    if !completes_command(b) {
        &&& r matches CompletionStep::ListDirectory {
            dir,
            file_prefix,
            replacement_prefix,
            start: s,
        }
        &&& s == start
        &&& (dir@, file_prefix@, replacement_prefix@) == file_parts(word)
        &&& new_last == old_last
    } else {
        &&& r matches CompletionStep::Done { response }
        &&& command_completion_matches(words, old_last, new_last, line, pos, start, word, response)
    }
}

/// The names of the entries.
pub open spec fn entry_names(s: Seq<(Seq<char>, bool)>) -> Seq<Seq<char>> {
    s.map_values(|e: (Seq<char>, bool)| e.0)
}

/// `r` is the longest common prefix of `strs`.
pub open spec fn is_longest_common_prefix(strs: Seq<Seq<char>>, r: Seq<char>) -> bool {
    &&& is_common_prefix(strs, r)
    &&& forall|x: Seq<char>| #[trigger] is_common_prefix(strs, x) ==> x.len() <= r.len()
}

/// The directory entries whose names begin with `fp`, each with `rp` before its name.
pub open spec fn file_matches(entries: Seq<(Seq<char>, bool)>, rp: Seq<char>, fp: Seq<char>) -> Seq<
    (Seq<char>, bool),
>
    decreases entries.len(),
{
    if entries.len() == 0 {
        Seq::empty()
    } else {
        let r = file_matches(entries.drop_last(), rp, fp);
        let e = entries.last();
        if has_prefix(e.0, fp) {
            r.push((rp + e.0, e.1))
        } else {
            r
        }
    }
}

/// How a matching entry is shown: directories with a final `/`.
pub open spec fn entry_display(e: (Seq<char>, bool)) -> Seq<char> {
    if e.1 {
        e.0 + "/"@
    } else {
        e.0
    }
}

/// What a matching entry completes to: directories with a final `/`, files with a space.
pub open spec fn entry_replacement(e: (Seq<char>, bool)) -> Seq<char> {
    if e.1 {
        e.0 + "/"@
    } else {
        e.0 + " "@
    }
}

/// The answer to completing a file name from the entries of its directory: the bell
/// when none matches; the one match when there is one; otherwise their longest common
/// prefix when it is longer than what was typed; otherwise the bell, then the list
/// sorted by name.
pub open spec fn file_completion_matches(
    old_last: Option<Seq<char>>,
    new_last: Option<Seq<char>>,
    line: Seq<char>,
    pos: nat,
    start: nat,
    rp: Seq<char>,
    fp: Seq<char>,
    entries: Seq<(Seq<char>, bool)>,
    resp: CompletionResponse,
) -> bool {
    let ms = file_matches(entries, rp, fp);
    if ms.len() == 0 {
        bell_matches(new_last, pos, resp)
    } else if ms.len() == 1 {
        single_matches(new_last, start, entry_display(ms[0]), entry_replacement(ms[0]), resp)
    } else if resp.pairs@.len() == 1 {
        let d = resp.pairs@[0].display@;
        &&& is_longest_common_prefix(entry_names(ms), d)
        &&& byte_len(d) > byte_len(rp + fp)
        &&& single_matches(new_last, start, d, d, resp)
    } else {
        &&& forall|x: Seq<char>| #[trigger]
            is_longest_common_prefix(entry_names(ms), x) ==> byte_len(x) <= byte_len(rp + fp)
        &&& exists|sm: Seq<(Seq<char>, bool)>|
            #![trigger sorted_by_name(sm)]
            sorted_by_name(sm) && sm.to_multiset() == ms.to_multiset() && tab_matches(
                old_last,
                new_last,
                line,
                pos,
                sm.map_values(|e: (Seq<char>, bool)| entry_display(e)),
                resp,
            )
    }
}

/// Common prefixes depend only on which strings there are.
proof fn lemma_common_prefix_same_elems(a: Seq<Seq<char>>, b: Seq<Seq<char>>, r: Seq<char>)
    requires
        forall|x: Seq<char>| a.contains(x) <==> b.contains(x),
    ensures
        is_common_prefix(a, r) <==> is_common_prefix(b, r),
{
    if is_common_prefix(a, r) {
        assert forall|i: int| 0 <= i < b.len() implies has_prefix(#[trigger] b[i], r) by {
            assert(b.contains(b[i]));
            let j = choose|j: int| 0 <= j < a.len() && a[j] == b[i];
        }
    }
    if is_common_prefix(b, r) {
        assert forall|i: int| 0 <= i < a.len() implies has_prefix(#[trigger] a[i], r) by {
            assert(a.contains(a[i]));
            let j = choose|j: int| 0 <= j < b.len() && b[j] == a[i];
        }
    }
}

/// Sequences with the same multiset of entries have the same names.
proof fn lemma_same_names(a: Seq<(Seq<char>, bool)>, b: Seq<(Seq<char>, bool)>)
    requires
        a.to_multiset() == b.to_multiset(),
    ensures
        forall|x: Seq<char>| entry_names(a).contains(x) <==> entry_names(b).contains(x),
{
    broadcast use vstd::seq_lib::group_to_multiset_ensures;

    assert forall|x: Seq<char>| entry_names(a).contains(x) implies entry_names(b).contains(x) by {
        let i = choose|i: int| 0 <= i < entry_names(a).len() && entry_names(a)[i] == x;
        assert(a.contains(a[i]));
        assert(a.to_multiset().count(a[i]) > 0);
        assert(b.to_multiset().count(a[i]) > 0);
        assert(b.contains(a[i]));
        let j = choose|j: int| 0 <= j < b.len() && b[j] == a[i];
        assert(entry_names(b)[j] == x);
    }
    assert forall|x: Seq<char>| entry_names(b).contains(x) implies entry_names(a).contains(x) by {
        let i = choose|i: int| 0 <= i < entry_names(b).len() && entry_names(b)[i] == x;
        assert(b.contains(b[i]));
        assert(b.to_multiset().count(b[i]) > 0);
        assert(a.to_multiset().count(b[i]) > 0);
        assert(a.contains(b[i]));
        let j = choose|j: int| 0 <= j < a.len() && a[j] == b[i];
        assert(entry_names(a)[j] == x);
    }
}

impl ShellHelper {
    /// Completes the word under the cursor when no completion script applies: from the
    /// files of its directory (which the shell must list) for an argument, from the
    /// stored command names for a command.
    pub fn complete_word(&mut self, line: &str, pos: usize) -> (r: CompletionStep)
        requires
            cursor_index(line@, pos as nat) is Some,
        ensures
            final(self).trie@ == old(self).trie@,
            word_completion_matches(
                old(self).trie@,
                opt_view(old(self).last_tab),
                opt_view(final(self).last_tab),
                line@,
                pos as nat,
                r,
            ),
    {
        let lc = str_chars(line);
        let k = match cursor_at(line, pos) {
            Some(k) => k,
            None => {
                return CompletionStep::Done { response: self.respond_bell(pos) };
            },
        };
        proof {
            lemma_cursor_from(line@, pos as nat, 0);
        }
        let ghost b = lc@.take(k as int);
        assert(b == before_cursor(line@, pos as nat));
        let mut ws = k;
        assert(b.take(k as int) == b);
        while ws > 0 && lc[ws - 1] != ' '
            invariant
                ws <= k,
                k <= lc@.len(),
                b == lc@.take(k as int),
                word_start(b) == word_start(b.take(ws as int)),
            decreases ws,
        {
            assert(b.take(ws as int).drop_last() == b.take(ws - 1));
            assert(b.take(ws as int).last() == lc@[ws - 1]);
            ws = ws - 1;
        }
        proof {
            if ws > 0 {
                assert(b.take(ws as int).last() == lc@[ws - 1]);
            }
            assert(word_start(b) == ws);
            crate::completion::lemma_byte_len_prefix(b, ws as int);
            assert(b.take(ws as int) == lc@.take(ws as int));
            let cp = cursor_index(line@, pos as nat);
            assert(byte_len(b) == pos) by {
                lemma_cursor_from(line@, pos as nat, 0);
            }
        }
        let head = copy_chars(lc.as_slice(), 0, ws);
        let start_bytes = chars_byte_len(head.as_slice());
        assert(head@ == b.take(ws as int));
        let start = start_bytes as usize;
        let word = copy_chars(lc.as_slice(), ws, k);
        assert(word@ == b.subrange(ws as int, b.len() as int));
        let mut blank = true;
        let mut j: usize = 0;
        while j < ws
            invariant
                j <= ws,
                head@.len() == ws,
                blank == (forall|i: int| 0 <= i < j ==> crate::text::is_whitespace(#[trigger] head@[i])),
            decreases ws - j,
        {
            if !char_is_whitespace(head[j]) {
                blank = false;
            }
            j = j + 1;
        }
        if !blank {
            let mut slash = word.len();
            let mut i = word.len();
            proof {
                assert(word@.take(word@.len() as int) == word@);
            }
            while i > 0 && word[i - 1] != '/'
                invariant
                    i <= word@.len(),
                    last_index_of(word@, '/') == last_index_of(word@.take(i as int), '/'),
                decreases i,
            {
                assert(word@.take(i as int).drop_last() == word@.take(i - 1));
                assert(word@.take(i as int).last() == word@[i - 1]);
                i = i - 1;
            }
            let (dir, file_prefix, replacement_prefix) = if i > 0 {
                proof {
                    assert(word@.take(i as int).last() == word@[i - 1]);
                }
                let d = copy_chars(word.as_slice(), 0, i - 1);
                let f = copy_chars(word.as_slice(), i, word.len());
                let rpc = copy_chars(word.as_slice(), 0, i);
                assert(d@ == word@.take(i - 1));
                assert(f@ == word@.skip(i as int));
                assert(rpc@ == word@.take(i as int));
                (string_from_chars(d.as_slice()), string_from_chars(f.as_slice()), string_from_chars(rpc.as_slice()))
            } else {
                proof {
                    assert(word@.take(0) == Seq::<char>::empty());
                }
                (String::from_str("."), string_from_chars(word.as_slice()), String::new())
            };
            return CompletionStep::ListDirectory { dir, file_prefix, replacement_prefix, start };
        }
        let prefix = string_from_chars(word.as_slice());
        let response = self.complete_command_name(line, pos, start, prefix.as_str());
        CompletionStep::Done { response }
    }

    /// Completes a file name from the entries of its directory (each a name and whether it
    /// is a directory); `replacement_prefix` goes before each name, `file_prefix` is the
    /// part of the name typed, and the word starts at byte `start`.
    pub fn complete_file(
        &mut self,
        line: &str,
        pos: usize,
        start: usize,
        replacement_prefix: &str,
        file_prefix: &str,
        entries: &[(String, bool)],
    ) -> (resp: CompletionResponse)
        ensures
            final(self).trie@ == old(self).trie@,
            file_completion_matches(
                opt_view(old(self).last_tab),
                opt_view(final(self).last_tab),
                line@,
                pos as nat,
                start as nat,
                replacement_prefix@,
                file_prefix@,
                entries@.map_values(|e: (String, bool)| (e.0@, e.1)),
                resp,
            ),
    {
        let ghost ev = entries@.map_values(|e: (String, bool)| (e.0@, e.1));
        let rp = str_chars(replacement_prefix);
        let fp = str_chars(file_prefix);
        let mut matches: Vec<(Vec<char>, bool)> = Vec::new();
        let mut i: usize = 0;
        assert(ev.take(0) == Seq::<(Seq<char>, bool)>::empty());
        assert(entry_views(matches@) == Seq::<(Seq<char>, bool)>::empty());
        while i < entries.len()
            invariant
                i <= entries@.len(),
                ev == entries@.map_values(|e: (String, bool)| (e.0@, e.1)),
                rp@ == replacement_prefix@,
                fp@ == file_prefix@,
                entry_views(matches@) == file_matches(ev.take(i as int), rp@, fp@),
            decreases entries@.len() - i,
        {
            let name = str_chars(entries[i].0.as_str());
            proof {
                assert(ev.take(i + 1).drop_last() == ev.take(i as int));
                assert(ev.take(i + 1).last() == ev[i as int]);
            }
            if chars_have_prefix(name.as_slice(), fp.as_slice()) {
                let mut full = rp.clone();
                assert(full@ == rp@);
                push_chars(name.as_slice(), &mut full);
                let ghost before = matches@;
                matches.push((full, entries[i].1));
                assert(entry_views(matches@) =~= entry_views(before).push((rp@ + name@, entries@[i as int].1)));
            }
            i = i + 1;
        }
        assert(ev.take(entries@.len() as int) == ev);
        let ghost ms = entry_views(matches@);
        if matches.len() == 0 {
            return self.respond_bell(pos);
        }
        if matches.len() == 1 {
            let is_dir = matches[0].1;
            let mut display = string_from_chars(matches[0].0.as_slice());
            let mut replacement = string_from_chars(matches[0].0.as_slice());
            if is_dir {
                display.append("/");
                replacement.append("/");
            } else {
                replacement.append(" ");
            }
            return self.respond_single(start, display, replacement);
        }
        let sorted = sort_by_name(matches);
        let ghost sm = entry_views(sorted@);
        let mut names: Vec<String> = Vec::new();
        let mut displays: Vec<String> = Vec::new();
        let mut j: usize = 0;
        while j < sorted.len()
            invariant
                j <= sorted@.len(),
                sm == entry_views(sorted@),
                string_views(names@) == entry_names(sm).take(j as int),
                string_views(displays@) == sm.map_values(|e: (Seq<char>, bool)| entry_display(e)).take(j as int),
            decreases sorted@.len() - j,
        {
            let n = string_from_chars(sorted[j].0.as_slice());
            let mut d = string_from_chars(sorted[j].0.as_slice());
            if sorted[j].1 {
                d.append("/");
            }
            let ghost nb = names@;
            let ghost db = displays@;
            names.push(n);
            displays.push(d);
            proof {
                assert(string_views(names@) =~= string_views(nb).push(sm[j as int].0));
                assert(entry_names(sm).take(j + 1) =~= entry_names(sm).take(j as int).push(sm[j as int].0));
                assert(string_views(displays@) =~= string_views(db).push(entry_display(sm[j as int])));
                assert(sm.map_values(|e: (Seq<char>, bool)| entry_display(e)).take(j + 1) =~= sm.map_values(
                    |e: (Seq<char>, bool)| entry_display(e),
                ).take(j as int).push(entry_display(sm[j as int])));
            }
            j = j + 1;
        }
        assert(entry_names(sm).take(sm.len() as int) == entry_names(sm));
        assert(sm.map_values(|e: (Seq<char>, bool)| entry_display(e)).take(sm.len() as int)
            == sm.map_values(|e: (Seq<char>, bool)| entry_display(e)));
        let lcp = longest_common_prefix(names.as_slice());
        proof {
            lemma_same_names(sm, ms);
            assert forall|x: Seq<char>| is_common_prefix(entry_names(ms), x) <==> is_common_prefix(entry_names(sm), x) by {
                lemma_common_prefix_same_elems(entry_names(ms), entry_names(sm), x);
            }
            assert(is_longest_common_prefix(entry_names(ms), lcp@));
        }
        let lcpc = str_chars(lcp.as_str());
        let mut typed = rp.clone();
        push_chars(fp.as_slice(), &mut typed);
        assert(typed@ == rp@ + fp@);
        if chars_byte_len(lcpc.as_slice()) > chars_byte_len(typed.as_slice()) {
            let disp = lcp.clone();
            return self.respond_single(start, disp, lcp);
        }
        proof {
            assert forall|x: Seq<char>| #[trigger]
                is_longest_common_prefix(entry_names(ms), x) implies byte_len(x) <= byte_len(rp@ + fp@) by {
                lemma_longest_common_prefix_unique(entry_names(ms), x, lcp@);
            }
        }
        let resp = self.respond_tab(line, pos, displays);
        assert(sorted_by_name(sm) && sm.to_multiset() == ms.to_multiset());
        resp
    }
}

/// The longest common prefix of a non-empty list is unique.
proof fn lemma_longest_common_prefix_unique(strs: Seq<Seq<char>>, a: Seq<char>, b: Seq<char>)
    requires
        strs.len() > 0,
        is_longest_common_prefix(strs, a),
        is_longest_common_prefix(strs, b),
    ensures
        a == b,
{
    assert(a.len() <= b.len() && b.len() <= a.len());
    assert(has_prefix(strs[0], a));
    assert(has_prefix(strs[0], b));
    assert(a == strs[0].take(a.len() as int));
}

/// Where the cursor search stops, the byte length of the prefix is the cursor's offset.
proof fn lemma_cursor_from(s: Seq<char>, pos: nat, k: int)
    requires
        cursor_from(s, pos, k) is Some,
    ensures
        0 <= cursor_from(s, pos, k).unwrap() <= s.len(),
        byte_len(s.take(cursor_from(s, pos, k).unwrap() as int)) == pos,
    decreases s.len() - k,
{
    if 0 <= k <= s.len() && byte_len(s.take(k)) != pos && k < s.len() {
        lemma_cursor_from(s, pos, k + 1);
    }
}

/// The trimmed, non-blank pieces of `pieces`.
pub open spec fn nonblank_trimmed(pieces: Seq<Seq<char>>) -> Seq<Seq<char>>
    decreases pieces.len(),
{
    if pieces.len() == 0 {
        Seq::empty()
    } else {
        let r = nonblank_trimmed(pieces.drop_last());
        let t = trim_spec(pieces.last());
        if t.len() > 0 {
            r.push(t)
        } else {
            r
        }
    }
}

/// The candidates in a completion script's output: its lines, trimmed, without the
/// blank ones.
pub open spec fn script_candidates(out: Seq<char>) -> Seq<Seq<char>> {
    nonblank_trimmed(split_spec(out, '\n'))
}

/// The answer to completing from a script's candidates: nothing when there are none
/// (the other completions apply); the candidate and a space when there is one;
/// otherwise their longest common prefix when it is longer, in bytes, than the word;
/// otherwise the bell, then the sorted list.
pub open spec fn script_completion_matches(
    old_last: Option<Seq<char>>,
    new_last: Option<Seq<char>>,
    line: Seq<char>,
    pos: nat,
    replacement_start: nat,
    word: Seq<char>,
    out: Seq<char>,
    r: Option<CompletionResponse>,
) -> bool {
    let cs = script_candidates(out);
    if cs.len() == 0 {
        r is None && new_last == old_last
    } else if cs.len() == 1 {
        r matches Some(resp) && single_matches(new_last, replacement_start, cs[0], cs[0] + " "@, resp)
    } else {
        &&& r is Some
        &&& ({
            let resp = r.unwrap();
            if resp.pairs@.len() == 1 {
                let d = resp.pairs@[0].display@;
                &&& is_longest_common_prefix(cs, d)
                &&& byte_len(d) > byte_len(word)
                &&& single_matches(new_last, replacement_start, d, d, resp)
            } else {
                &&& forall|x: Seq<char>| #[trigger]
                    is_longest_common_prefix(cs, x) ==> byte_len(x) <= byte_len(word)
                &&& exists|sm: Seq<(Seq<char>, bool)>|
                    #![trigger sorted_by_name(sm)]
                    sorted_by_name(sm) && sm.to_multiset() == cs.map_values(
                        |c: Seq<char>| (c, false),
                    ).to_multiset() && tab_matches(
                        old_last,
                        new_last,
                        line,
                        pos,
                        entry_names(sm),
                        resp,
                    )
            }
        })
    }
}

/// What completing asks for first: when the first word of the text before the cursor
/// has a registered completion script, that script is run with the command, the word
/// being completed (empty after a space) and the word before it; otherwise the word is
/// completed as `complete_word` does.
pub open spec fn begin_matches(
    registry: Map<Seq<char>, Seq<char>>,
    words: Set<Seq<char>>,
    old_last: Option<Seq<char>>,
    new_last: Option<Seq<char>>,
    line: Seq<char>,
    pos: nat,
    r: CompletionStep,
) -> bool {
    let b = before_cursor(line, pos);
    let (toks, cur) = context_spec(b);
    if toks.len() > 0 && registry.contains_key(toks[0].1) {
        &&& r matches CompletionStep::RunScript {
            script,
            command,
            word,
            previous,
            replacement_start,
        }
        &&& script@ == registry[toks[0].1]
        &&& command@ == toks[0].1
        &&& match cur {
            Some(st) => {
                &&& word@ == toks.last().1
                &&& previous@ == (if toks.len() >= 3 {
                    toks[toks.len() - 2].1
                } else {
                    Seq::empty()
                })
                &&& replacement_start == st
            },
            None => {
                &&& word@.len() == 0
                &&& previous@ == (if toks.len() >= 2 {
                    toks.last().1
                } else {
                    Seq::empty()
                })
                &&& replacement_start == pos
            },
        }
        &&& new_last == old_last
    } else {
        word_completion_matches(words, old_last, new_last, line, pos, r)
    }
}

impl ShellHelper {
    /// Starts completing the word before the byte offset `pos` of `line`.
    pub fn begin_completion(&mut self, registry: &CompletionRegistry, line: &str, pos: usize) -> (r:
        CompletionStep)
        requires
            cursor_index(line@, pos as nat) is Some,
        ensures
            final(self).trie@ == old(self).trie@,
            begin_matches(
                registry@,
                old(self).trie@,
                opt_view(old(self).last_tab),
                opt_view(final(self).last_tab),
                line@,
                pos as nat,
                r,
            ),
    {
        let lc = str_chars(line);
        let k = match cursor_at(line, pos) {
            Some(k) => k,
            None => {
                return CompletionStep::Done { response: self.respond_bell(pos) };
            },
        };
        proof {
            lemma_cursor_from(line@, pos as nat, 0);
        }
        let before_chars = copy_chars(lc.as_slice(), 0, k);
        let before = string_from_chars(before_chars.as_slice());
        assert(before@ == before_cursor(line@, pos as nat));
        let (tokens, current_start) = parse_completion_context(before.as_str());
        let ghost tv = token_views(tokens@);
        if tokens.len() > 0 {
            assert(tv[0] == (tokens@[0].0 as nat, tokens@[0].1@));
            match registry.lookup(tokens[0].1.as_str()) {
                Some(script_path) => {
                    let command = tokens[0].1.clone();
                    let n = tokens.len();
                    assert(tv[n - 1] == (tokens@[n - 1].0 as nat, tokens@[n - 1].1@));
                    let (word, previous, replacement_start) = match current_start {
                        Some(st) => {
                            let prev = if n >= 3 {
                                assert(tv[n - 2] == (tokens@[n - 2].0 as nat, tokens@[n - 2].1@));
                                tokens[n - 2].1.clone()
                            } else {
                                String::new()
                            };
                            (tokens[n - 1].1.clone(), prev, st)
                        },
                        None => {
                            let prev = if n >= 2 {
                                tokens[n - 1].1.clone()
                            } else {
                                String::new()
                            };
                            (String::new(), prev, pos)
                        },
                    };
                    return CompletionStep::RunScript {
                        script: script_path.clone(),
                        command,
                        word,
                        previous,
                        replacement_start,
                    };
                },
                None => {},
            }
        }
        self.complete_word(line, pos)
    }

    /// Completes from the output `out` of a completion script; `None` when it offers no
    /// candidate, and completion goes on as `complete_word` does.
    pub fn complete_from_script(
        &mut self,
        line: &str,
        pos: usize,
        replacement_start: usize,
        word: &str,
        out: &str,
    ) -> (r: Option<CompletionResponse>)
        ensures
            final(self).trie@ == old(self).trie@,
            script_completion_matches(
                opt_view(old(self).last_tab),
                opt_view(final(self).last_tab),
                line@,
                pos as nat,
                replacement_start as nat,
                word@,
                out@,
                r,
            ),
    {
        let oc = str_chars(out);
        let pieces = split_chars(oc.as_slice(), '\n');
        let ghost pv = views(pieces@);
        let mut cands: Vec<(Vec<char>, bool)> = Vec::new();
        let mut i: usize = 0;
        assert(pv.take(0) == Seq::<Seq<char>>::empty());
        assert(entry_names(entry_views(cands@)) =~= Seq::<Seq<char>>::empty());
        while i < pieces.len()
            invariant
                i <= pieces@.len(),
                pv == views(pieces@),
                pv == split_spec(out@, '\n'),
                entry_names(entry_views(cands@)) == nonblank_trimmed(pv.take(i as int)),
                entry_views(cands@) == nonblank_trimmed(pv.take(i as int)).map_values(
                    |c: Seq<char>| (c, false),
                ),
            decreases pieces@.len() - i,
        {
            let t = trim_chars(pieces[i].as_slice());
            proof {
                assert(pv.take(i + 1).drop_last() == pv.take(i as int));
                assert(pv.take(i + 1).last() == pieces@[i as int]@);
            }
            if t.len() > 0 {
                let ghost before = cands@;
                let ghost tv = t@;
                cands.push((t, false));
                proof {
                    assert(entry_views(cands@) =~= entry_views(before).push((tv, false)));
                    assert(entry_names(entry_views(cands@)) =~= entry_names(entry_views(before)).push(tv));
                    assert(nonblank_trimmed(pv.take(i as int)).push(tv).map_values(
                        |c: Seq<char>| (c, false),
                    ) =~= nonblank_trimmed(pv.take(i as int)).map_values(|c: Seq<char>| (c, false)).push((tv, false)));
                }
            }
            i = i + 1;
        }
        assert(pv.take(pieces@.len() as int) == pv);
        let ghost cs = script_candidates(out@);
        assert(entry_names(entry_views(cands@)) == cs);
        if cands.len() == 0 {
            return None;
        }
        if cands.len() == 1 {
            assert(entry_views(cands@)[0].0 == cs[0]);
            let c = string_from_chars(cands[0].0.as_slice());
            let mut rep = string_from_chars(cands[0].0.as_slice());
            rep.append(" ");
            return Some(self.respond_single(replacement_start, c, rep));
        }
        let ghost cv = entry_views(cands@);
        let sorted = sort_by_name(cands);
        let ghost sm = entry_views(sorted@);
        let mut names: Vec<String> = Vec::new();
        let mut j: usize = 0;
        while j < sorted.len()
            invariant
                j <= sorted@.len(),
                sm == entry_views(sorted@),
                string_views(names@) == entry_names(sm).take(j as int),
            decreases sorted@.len() - j,
        {
            let n = string_from_chars(sorted[j].0.as_slice());
            let ghost nb = names@;
            names.push(n);
            proof {
                assert(string_views(names@) =~= string_views(nb).push(sm[j as int].0));
                assert(entry_names(sm).take(j + 1) =~= entry_names(sm).take(j as int).push(sm[j as int].0));
            }
            j = j + 1;
        }
        assert(entry_names(sm).take(sm.len() as int) == entry_names(sm));
        let lcp = longest_common_prefix(names.as_slice());
        proof {
            lemma_same_names(sm, cv);
            assert forall|x: Seq<char>| is_common_prefix(cs, x) <==> is_common_prefix(entry_names(sm), x) by {
                lemma_common_prefix_same_elems(cs, entry_names(sm), x);
            }
            assert(is_longest_common_prefix(cs, lcp@));
        }
        let lcpc = str_chars(lcp.as_str());
        let wc = str_chars(word);
        if chars_byte_len(lcpc.as_slice()) > chars_byte_len(wc.as_slice()) {
            let disp = lcp.clone();
            return Some(self.respond_single(replacement_start, disp, lcp));
        }
        proof {
            assert forall|x: Seq<char>| #[trigger]
                is_longest_common_prefix(cs, x) implies byte_len(x) <= byte_len(word@) by {
                lemma_longest_common_prefix_unique(cs, x, lcp@);
            }
        }
        let resp = self.respond_tab(line, pos, names);
        assert(sorted_by_name(sm) && sm.to_multiset() == cs.map_values(|c: Seq<char>| (c, false)).to_multiset());
        Some(resp)
    }
}

/// The word under the cursor: from just after the last space before the cursor up to it.
pub open spec fn typed_word(line: Seq<char>, pos: nat) -> Seq<char> {
    let b = before_cursor(line, pos);
    b.subrange(word_start(b) as int, b.len() as int)
}

/// `resp` is a well-formed answer to a tab press at byte `pos`: the replaced text starts
/// at or before the cursor, at the cursor when nothing is offered, and at most one
/// completion is offered.
pub open spec fn well_placed(pos: nat, resp: CompletionResponse) -> bool {
    &&& resp.start <= pos
    &&& resp.pairs@.len() <= 1
    &&& resp.pairs@.len() == 0 ==> resp.start == pos
}

/// `resp` is a well-placed answer to a tab press at byte `pos` of `line` whose
/// completion, if any, begins with the word typed.
pub open spec fn sound_answer(line: Seq<char>, pos: nat, resp: CompletionResponse) -> bool {
    &&& well_placed(pos, resp)
    &&& resp.pairs@.len() == 1 ==> has_prefix(resp.pairs@[0].replacement@, typed_word(line, pos))
}

/// What follows a prefix keeps it.
proof fn lemma_prefix_extend(m: Seq<char>, p: Seq<char>, x: Seq<char>)
    requires
        has_prefix(m, p),
    ensures
        has_prefix(m + x, p),
{
    assert((m + x).take(p.len() as int) == m.take(p.len() as int));
}

/// The word starts, in bytes, at or before the cursor.
proof fn lemma_word_start_before_cursor(line: Seq<char>, pos: nat)
    requires
        cursor_index(line, pos) is Some,
    ensures
        byte_len(before_cursor(line, pos).take(word_start(before_cursor(line, pos)) as int)) <= pos,
{
    let b = before_cursor(line, pos);
    lemma_cursor_from(line, pos, 0);
    lemma_word_start_bound(b);
    lemma_byte_len_prefix(b, word_start(b) as int);
}

/// Completing a command name answers well: the replaced text starts at or before the
/// cursor, at most one completion is offered, and it begins with the typed word.
pub proof fn lemma_command_completion_sound(
    words: Set<Seq<char>>,
    old_last: Option<Seq<char>>,
    new_last: Option<Seq<char>>,
    line: Seq<char>,
    pos: nat,
    response: CompletionResponse,
)
    requires
        cursor_index(line, pos) is Some,
        word_completion_matches(
            words,
            old_last,
            new_last,
            line,
            pos,
            (CompletionStep::Done { response }),
        ),
    ensures
        sound_answer(line, pos, response),
{
    let b = before_cursor(line, pos);
    let ws = word_start(b) as int;
    let start = byte_len(b.take(ws));
    let p = typed_word(line, pos);
    lemma_word_start_before_cursor(line, pos);
    if has_match(words, p) {
        if exists|m: Seq<char>| #[trigger] only_match(words, p, m) {
            let m = response.pairs@[0].display@;
            lemma_prefix_extend(m, p, " "@);
        } else if exists|q: Seq<char>| #[trigger] is_completion(words, p, q) && byte_len(q) > byte_len(
            p,
        ) {
        }
    }
}

/// The entries matching `fp`, with `rp` before their names, begin with `rp + fp`.
proof fn lemma_file_matches_prefix(entries: Seq<(Seq<char>, bool)>, rp: Seq<char>, fp: Seq<char>)
    ensures
        forall|i: int|
            0 <= i < file_matches(entries, rp, fp).len() ==> has_prefix(
                (#[trigger] file_matches(entries, rp, fp)[i]).0,
                rp + fp,
            ),
    decreases entries.len(),
{
    if entries.len() > 0 {
        lemma_file_matches_prefix(entries.drop_last(), rp, fp);
        let r = file_matches(entries.drop_last(), rp, fp);
        let e = entries.last();
        if has_prefix(e.0, fp) {
            assert((rp + e.0).take((rp + fp).len() as int) == rp + e.0.take(fp.len() as int));
            let ms = r.push((rp + e.0, e.1));
            assert(file_matches(entries, rp, fp) == ms);
            assert forall|i: int| 0 <= i < ms.len() implies has_prefix((#[trigger] ms[i]).0, rp + fp) by {
                if i < r.len() {
                    assert(ms[i] == r[i]);
                }
            }
        }
    }
}

/// The word is the text that goes before each name followed by the part of the name typed.
proof fn lemma_file_parts_join(word: Seq<char>)
    ensures
        file_parts(word).2 + file_parts(word).1 == word,
{
    lemma_last_index_bound(word, '/');
    match last_index_of(word, '/') {
        Some(i) => {
            assert(word.take(i + 1) + word.skip(i + 1) == word);
        },
        None => {
            assert(Seq::<char>::empty() + word == word);
        },
    }
}

/// Completing a file name from a directory's entries answers well: the replaced text
/// starts at or before the cursor, at most one completion is offered, and it begins
/// with the typed word.
pub proof fn lemma_file_completion_sound(
    old_last: Option<Seq<char>>,
    new_last: Option<Seq<char>>,
    line: Seq<char>,
    pos: nat,
    start: nat,
    entries: Seq<(Seq<char>, bool)>,
    resp: CompletionResponse,
)
    requires
        cursor_index(line, pos) is Some,
        start == byte_len(
            before_cursor(line, pos).take(word_start(before_cursor(line, pos)) as int),
        ),
        file_completion_matches(
            old_last,
            new_last,
            line,
            pos,
            start,
            file_parts(typed_word(line, pos)).2,
            file_parts(typed_word(line, pos)).1,
            entries,
            resp,
        ),
    ensures
        sound_answer(line, pos, resp),
{
    let word = typed_word(line, pos);
    let rp = file_parts(word).2;
    let fp = file_parts(word).1;
    let ms = file_matches(entries, rp, fp);
    lemma_word_start_before_cursor(line, pos);
    lemma_file_parts_join(word);
    lemma_file_matches_prefix(entries, rp, fp);
    assert(rp + fp == word);
    if ms.len() == 0 {
        assert(sound_answer(line, pos, resp));
    } else if ms.len() == 1 {
        assert(has_prefix(ms[0].0, word));
        lemma_prefix_extend(ms[0].0, word, "/"@);
        lemma_prefix_extend(ms[0].0, word, " "@);
        assert(has_prefix(entry_replacement(ms[0]), word));
        assert(sound_answer(line, pos, resp));
    } else if resp.pairs@.len() != 1 {
        assert(resp.pairs@.len() == 0);
        assert(sound_answer(line, pos, resp));
    } else {
        let d = resp.pairs@[0].display@;
        let names = entry_names(ms);
        assert(is_common_prefix(names, word)) by {
            assert forall|i: int| 0 <= i < names.len() implies has_prefix(#[trigger] names[i], word) by {
                assert(names[i] == ms[i].0);
            }
        }
        assert(word.len() <= d.len());
        assert(has_prefix(names[0], d));
        assert(names[0] == ms[0].0);
        assert(has_prefix(names[0], word));
        assert(d.take(word.len() as int) == names[0].take(d.len() as int).take(word.len() as int));
        assert(names[0].take(d.len() as int).take(word.len() as int) =~= names[0].take(
            word.len() as int,
        ));
        assert(has_prefix(d, word));
        assert(sound_answer(line, pos, resp));
    }
}

/// The offset of the word being typed lies within the text.
proof fn lemma_context_start_bound(
    s: Seq<char>,
    i: int,
    args: Seq<(nat, Seq<char>)>,
    cur: Seq<char>,
    start: Option<nat>,
    sq: bool,
    dq: bool,
)
    requires
        start matches Some(p) ==> p <= byte_len(s),
    ensures
        context_from(s, i, args, cur, start, sq, dq).1 matches Some(q) ==> q <= byte_len(s),
    decreases s.len() - i,
{
    if 0 <= i < s.len() {
        lemma_byte_len_prefix(s, i);
        let c = s[i];
        let st = match start {
            Some(p) => Some(p),
            None => Some(byte_len(s.take(i))),
        };
        if c == '\\' && !sq {
            if i + 1 < s.len() {
                lemma_context_start_bound(s, i + 2, args, cur.push(s[i + 1]), st, sq, dq);
            } else {
                lemma_context_start_bound(s, i + 1, args, cur, st, sq, dq);
            }
        } else if c == '"' && !sq {
            lemma_context_start_bound(s, i + 1, args, cur, st, sq, !dq);
        } else if c == '\'' && !dq {
            lemma_context_start_bound(s, i + 1, args, cur, st, !sq, dq);
        } else if c == ' ' && !sq && !dq {
            match start {
                Some(p) => lemma_context_start_bound(
                    s,
                    i + 1,
                    args.push((p, cur)),
                    Seq::empty(),
                    None,
                    sq,
                    dq,
                ),
                None => lemma_context_start_bound(s, i + 1, args, cur, None, sq, dq),
            }
        } else {
            lemma_context_start_bound(s, i + 1, args, cur.push(c), st, sq, dq);
        }
    }
}

/// When a completion script runs, the replaced text starts at or before the cursor and
/// at most one completion is offered, whatever the script printed.
pub proof fn lemma_script_completion_sound(
    registry: Map<Seq<char>, Seq<char>>,
    words: Set<Seq<char>>,
    old_last: Option<Seq<char>>,
    mid_last: Option<Seq<char>>,
    new_last: Option<Seq<char>>,
    line: Seq<char>,
    pos: nat,
    step: CompletionStep,
    out: Seq<char>,
    r: Option<CompletionResponse>,
)
    requires
        cursor_index(line, pos) is Some,
        begin_matches(registry, words, old_last, mid_last, line, pos, step),
        step matches CompletionStep::RunScript { replacement_start, word, .. }
            && script_completion_matches(
            mid_last,
            new_last,
            line,
            pos,
            replacement_start as nat,
            word@,
            out,
            r,
        ),
    ensures
        r matches Some(resp) ==> well_placed(pos, resp),
{
    let b = before_cursor(line, pos);
    lemma_cursor_from(line, pos, 0);
    lemma_context_start_bound(b, 0, Seq::empty(), Seq::empty(), None, false, false);
    let (toks, cur) = context_spec(b);
    if !(toks.len() > 0 && registry.contains_key(toks[0].1)) {
        lemma_word_start_bound(b);
    }
}

/// The words of a list of words with their offsets.
pub open spec fn token_words(t: Seq<(nat, Seq<char>)>) -> Seq<Seq<char>> {
    t.map_values(|p: (nat, Seq<char>)| p.1)
}

/// The offsets of `toks` increase strictly, lie below `bound`, and each is the byte offset
/// of a character of `s` (a character boundary).
pub open spec fn offsets_ok(s: Seq<char>, toks: Seq<(nat, Seq<char>)>, bound: nat) -> bool {
    &&& forall|a: int, b: int| 0 <= a < b < toks.len() ==> (#[trigger] toks[a]).0 < (#[trigger] toks[b]).0
    &&& forall|a: int|
        0 <= a < toks.len() ==> (#[trigger] toks[a]).0 < bound && exists|j: int|
            0 <= j < s.len() && toks[a].0 == #[trigger] byte_len(s.take(j))
}

/// Leaving out empty words commutes with adding one at the end.
proof fn lemma_nonempty_push(ws: Seq<Seq<char>>, w: Seq<char>)
    ensures
        nonempty_words(ws.push(w)) == (if w.len() > 0 {
            nonempty_words(ws).push(w)
        } else {
            nonempty_words(ws)
        }),
{
    reveal_with_fuel(Seq::<_>::filter, 1);
    assert(ws.push(w).drop_last() == ws);
}

/// Byte offsets grow with the number of characters.
proof fn lemma_take_bytes_increase(s: Seq<char>, j: int, i: int)
    requires
        0 <= j < i <= s.len(),
    ensures
        byte_len(s.take(j)) < byte_len(s.take(i)),
    decreases i - j,
{
    lemma_byte_len_push(s.take(i - 1), s[i - 1]);
    assert(s.take(i - 1).push(s[i - 1]) == s.take(i));
    vstd::utf8::char_is_scalar(s[i - 1]);
    assert(vstd::utf8::encode_scalar(s[i - 1] as u32).len() >= 1);
    if j < i - 1 {
        lemma_take_bytes_increase(s, j, i - 1);
    }
}

/// The context's words, empty ones left out, are the parser's words.
proof fn lemma_context_words(
    s: Seq<char>,
    i: int,
    args: Seq<(nat, Seq<char>)>,
    cur: Seq<char>,
    start: Option<nat>,
    sq: bool,
    dq: bool,
    pargs: Seq<Seq<char>>,
)
    requires
        start is None ==> cur.len() == 0,
        nonempty_words(token_words(args)) == pargs,
    ensures
        nonempty_words(token_words(context_from(s, i, args, cur, start, sq, dq).0)) == parse_from(
            s,
            i,
            pargs,
            cur,
            sq,
            dq,
        ),
    decreases s.len() - i,
{
    if i < 0 || i >= s.len() {
        if let Some(p) = start {
            assert(token_words(args.push((p, cur))) == token_words(args).push(cur));
            lemma_nonempty_push(token_words(args), cur);
            assert(context_from(s, i, args, cur, start, sq, dq).0 == args.push((p, cur)));
        } else {
            assert(context_from(s, i, args, cur, start, sq, dq).0 == args);
        }
    } else {
        let c = s[i];
        let st = match start {
            Some(p) => Some(p),
            None => Some(byte_len(s.take(i))),
        };
        if c == '\\' && !sq {
            if i + 1 < s.len() {
                lemma_context_words(s, i + 2, args, cur.push(s[i + 1]), st, sq, dq, pargs);
            } else {
                lemma_context_words(s, i + 1, args, cur, st, sq, dq, pargs);
            }
        } else if c == '"' && !sq {
            lemma_context_words(s, i + 1, args, cur, st, sq, !dq, pargs);
        } else if c == '\'' && !dq {
            lemma_context_words(s, i + 1, args, cur, st, !sq, dq, pargs);
        } else if c == ' ' && !sq && !dq {
            match start {
                Some(p) => {
                    assert(token_words(args.push((p, cur))) == token_words(args).push(cur));
                    lemma_nonempty_push(token_words(args), cur);
                    let pargs2 = if cur.len() > 0 {
                        pargs.push(cur)
                    } else {
                        pargs
                    };
                    if cur.len() == 0 {
                        assert(cur == Seq::<char>::empty());
                    }
                    lemma_context_words(
                        s,
                        i + 1,
                        args.push((p, cur)),
                        Seq::empty(),
                        None,
                        sq,
                        dq,
                        pargs2,
                    );
                },
                None => lemma_context_words(s, i + 1, args, cur, None, sq, dq, pargs),
            }
        } else {
            lemma_context_words(s, i + 1, args, cur.push(c), st, sq, dq, pargs);
        }
    }
}

/// The context's word offsets increase strictly and are character boundaries within the text.
proof fn lemma_context_offsets(
    s: Seq<char>,
    i: int,
    args: Seq<(nat, Seq<char>)>,
    cur: Seq<char>,
    start: Option<nat>,
    sq: bool,
    dq: bool,
)
    requires
        0 <= i <= s.len(),
        offsets_ok(s, args, byte_len(s.take(i))),
        start matches Some(p) ==> {
            &&& p < byte_len(s.take(i))
            &&& forall|a: int| 0 <= a < args.len() ==> (#[trigger] args[a]).0 < p
            &&& exists|j: int| 0 <= j < s.len() && p == #[trigger] byte_len(s.take(j))
        },
    ensures
        offsets_ok(s, context_from(s, i, args, cur, start, sq, dq).0, byte_len(s)),
    decreases s.len() - i,
{
    if i == s.len() {
        assert(s.take(i) == s);
        if let Some(p) = start {
            let t = args.push((p, cur));
            assert forall|a: int| 0 <= a < t.len() implies (#[trigger] t[a]).0 < byte_len(s)
                && exists|j: int| 0 <= j < s.len() && t[a].0 == #[trigger] byte_len(s.take(j)) by {
                if a < args.len() {
                    assert(t[a] == args[a]);
                }
            }
            assert forall|a: int, b: int| 0 <= a < b < t.len() implies (#[trigger] t[a]).0 < (
            #[trigger] t[b]).0 by {
                assert(t[a] == args[a]);
                if b < args.len() {
                    assert(t[b] == args[b]);
                }
            }
        }
    } else {
        let c = s[i];
        let here = byte_len(s.take(i));
        let st = match start {
            Some(p) => Some(p),
            None => Some(here),
        };
        let next = if c == '\\' && !sq && i + 1 < s.len() {
            i + 2
        } else {
            i + 1
        };
        lemma_take_bytes_increase(s, i, next);
        let nb = byte_len(s.take(next));
        assert forall|a: int| 0 <= a < args.len() implies (#[trigger] args[a]).0 < nb by {}
        assert(offsets_ok(s, args, nb));
        if c == ' ' && !sq && !dq {
            match start {
                Some(p) => {
                    let t = args.push((p, cur));
                    assert forall|a: int| 0 <= a < t.len() implies (#[trigger] t[a]).0 < nb
                        && exists|j: int| 0 <= j < s.len() && t[a].0 == #[trigger] byte_len(s.take(j)) by {
                        if a < args.len() {
                            assert(t[a] == args[a]);
                        }
                    }
                    assert forall|a: int, b: int| 0 <= a < b < t.len() implies (#[trigger] t[a]).0
                        < (#[trigger] t[b]).0 by {
                        assert(t[a] == args[a]);
                        if b < args.len() {
                            assert(t[b] == args[b]);
                        }
                    }
                    lemma_context_offsets(s, i + 1, t, Seq::empty(), None, sq, dq);
                },
                None => lemma_context_offsets(s, i + 1, args, cur, None, sq, dq),
            }
        } else {
            if start is None {
                assert(forall|a: int| 0 <= a < args.len() ==> (#[trigger] args[a]).0 < here);
            }
            if c == '\\' && !sq {
                if i + 1 < s.len() {
                    lemma_context_offsets(s, i + 2, args, cur.push(s[i + 1]), st, sq, dq);
                } else {
                    lemma_context_offsets(s, i + 1, args, cur, st, sq, dq);
                }
            } else if c == '"' && !sq {
                lemma_context_offsets(s, i + 1, args, cur, st, sq, !dq);
            } else if c == '\'' && !dq {
                lemma_context_offsets(s, i + 1, args, cur, st, !sq, dq);
            } else {
                lemma_context_offsets(s, i + 1, args, cur.push(c), st, sq, dq);
            }
        }
    }
}

/// When a word is being typed, it is the last word, and its offset is the one given.
proof fn lemma_context_current(
    s: Seq<char>,
    i: int,
    args: Seq<(nat, Seq<char>)>,
    cur: Seq<char>,
    start: Option<nat>,
    sq: bool,
    dq: bool,
)
    ensures
        ({
            let r = context_from(s, i, args, cur, start, sq, dq);
            r.1 matches Some(p) ==> r.0.len() > 0 && r.0.last().0 == p
        }),
    decreases s.len() - i,
{
    if 0 <= i < s.len() {
        let c = s[i];
        let st = match start {
            Some(p) => Some(p),
            None => Some(byte_len(s.take(i))),
        };
        if c == '\\' && !sq {
            if i + 1 < s.len() {
                lemma_context_current(s, i + 2, args, cur.push(s[i + 1]), st, sq, dq);
            } else {
                lemma_context_current(s, i + 1, args, cur, st, sq, dq);
            }
        } else if c == '"' && !sq {
            lemma_context_current(s, i + 1, args, cur, st, sq, !dq);
        } else if c == '\'' && !dq {
            lemma_context_current(s, i + 1, args, cur, st, !sq, dq);
        } else if c == ' ' && !sq && !dq {
            match start {
                Some(p) => lemma_context_current(
                    s,
                    i + 1,
                    args.push((p, cur)),
                    Seq::empty(),
                    None,
                    sq,
                    dq,
                ),
                None => lemma_context_current(s, i + 1, args, cur, None, sq, dq),
            }
        } else {
            lemma_context_current(s, i + 1, args, cur.push(c), st, sq, dq);
        }
    }
}

/// The words that completion sees in `s` are the parser's words once the empty ones
/// (from empty quotes) are left out; they start at strictly increasing character
/// boundaries before the end of `s`; and the word being typed, when there is one, is the
/// last of them; no word is being typed exactly when `s` is empty or ends in a space
/// outside quotes that no backslash escapes.
pub proof fn lemma_completion_context_law(s: Seq<char>)
    ensures
        nonempty_words(token_words(context_spec(s).0)) == parse_spec(s),
        offsets_ok(s, context_spec(s).0, byte_len(s)),
        context_spec(s).1 matches Some(p) ==> context_spec(s).0.len() > 0
            && context_spec(s).0.last().0 == p,
        context_spec(s).1 is None <==> (s.len() == 0 || separates(s, s.len() - 1)),
{
    let e = Seq::<(nat, Seq<char>)>::empty();
    reveal_with_fuel(Seq::<_>::filter, 1);
    assert(token_words(e) == Seq::<Seq<char>>::empty());
    assert(nonempty_words(Seq::<Seq<char>>::empty()) == Seq::<Seq<char>>::empty());
    lemma_context_words(s, 0, e, Seq::empty(), None, false, false, Seq::empty());
    lemma_context_offsets(s, 0, e, Seq::empty(), None, false, false);
    lemma_context_current(s, 0, e, Seq::empty(), None, false, false);
    lemma_completion_context_open_word(s);
}

/// Every answer to a tab press is well placed: completing from the command names, from
/// the entries of the directory that the first step asked for, or from the output of the
/// completion script that it asked to run. Unless a script supplied the candidates, the
/// completion offered begins with the word typed (a script may offer any text).
pub proof fn lemma_tab_answer_sound(
    registry: Map<Seq<char>, Seq<char>>,
    words: Set<Seq<char>>,
    first_last: Option<Seq<char>>,
    mid_last: Option<Seq<char>>,
    new_last: Option<Seq<char>>,
    line: Seq<char>,
    pos: nat,
    step: CompletionStep,
    entries: Seq<(Seq<char>, bool)>,
    out: Seq<char>,
    resp: CompletionResponse,
)
    requires
        cursor_index(line, pos) is Some,
        begin_matches(registry, words, first_last, mid_last, line, pos, step),
        match step {
            CompletionStep::Done { response } => resp == response,
            CompletionStep::ListDirectory { file_prefix, replacement_prefix, start, .. } =>
                file_completion_matches(
                mid_last,
                new_last,
                line,
                pos,
                start as nat,
                replacement_prefix@,
                file_prefix@,
                entries,
                resp,
            ),
            CompletionStep::RunScript { replacement_start, word, .. } => script_completion_matches(
                mid_last,
                new_last,
                line,
                pos,
                replacement_start as nat,
                word@,
                out,
                Some(resp),
            ),
        },
    ensures
        well_placed(pos, resp),
        !(step is RunScript) ==> sound_answer(line, pos, resp),
{
    match step {
        CompletionStep::RunScript { .. } => {
            lemma_script_completion_sound(
                registry,
                words,
                first_last,
                mid_last,
                new_last,
                line,
                pos,
                step,
                out,
                Some(resp),
            );
        },
        CompletionStep::Done { response } => {
            lemma_command_completion_sound(words, first_last, mid_last, line, pos, response);
        },
        CompletionStep::ListDirectory { start, .. } => {
            lemma_file_completion_sound(mid_last, new_last, line, pos, start as nat, entries, resp);
        },
    }
}

/// After the first `k` characters of `s`: whether a single quote is open, whether a
/// double quote is open, and whether a backslash (outside single quotes) is waiting to
/// take the next character literally.
pub open spec fn quote_state(s: Seq<char>, k: int) -> (bool, bool, bool)
    decreases k,
{
    if k <= 0 {
        (false, false, false)
    } else {
        let st = quote_state(s, k - 1);
        let c = s[k - 1];
        if st.2 {
            (st.0, st.1, false)
        } else if c == '\\' && !st.0 {
            (st.0, st.1, true)
        } else if c == '"' && !st.0 {
            (st.0, !st.1, false)
        } else if c == '\'' && !st.1 {
            (!st.0, st.1, false)
        } else {
            (st.0, st.1, false)
        }
    }
}

/// The character at `k` is a space outside quotes and not escaped by a backslash.
pub open spec fn separates(s: Seq<char>, k: int) -> bool {
    s[k] == ' ' && quote_state(s, k) == (false, false, false)
}

/// The context scan is at position `i` in the quote state of the first `i` characters,
/// and it has a word open exactly when it is not at the start or just after a separating
/// space.
proof fn lemma_context_open_word(
    s: Seq<char>,
    i: int,
    args: Seq<(nat, Seq<char>)>,
    cur: Seq<char>,
    start: Option<nat>,
    sq: bool,
    dq: bool,
)
    requires
        0 <= i <= s.len(),
        i < s.len() ==> quote_state(s, i) == (sq, dq, false),
        start is None <==> (i == 0 || separates(s, i - 1)),
    ensures
        context_from(s, i, args, cur, start, sq, dq).1 is None <==> (s.len() == 0 || separates(
            s,
            s.len() - 1,
        )),
    decreases s.len() - i,
{
    if i < s.len() {
        let c = s[i];
        let st = match start {
            Some(p) => Some(p),
            None => Some(byte_len(s.take(i))),
        };
        assert(quote_state(s, i + 1) == (if c == '\\' && !sq {
            (sq, dq, true)
        } else if c == '"' && !sq {
            (sq, !dq, false)
        } else if c == '\'' && !dq {
            (!sq, dq, false)
        } else {
            (sq, dq, false)
        }));
        if c == '\\' && !sq {
            if i + 1 < s.len() {
                assert(quote_state(s, i + 2) == (sq, dq, false));
                lemma_context_open_word(s, i + 2, args, cur.push(s[i + 1]), st, sq, dq);
            } else {
                lemma_context_open_word(s, i + 1, args, cur, st, sq, dq);
            }
        } else if c == '"' && !sq {
            lemma_context_open_word(s, i + 1, args, cur, st, sq, !dq);
        } else if c == '\'' && !dq {
            lemma_context_open_word(s, i + 1, args, cur, st, !sq, dq);
        } else if c == ' ' && !sq && !dq {
            match start {
                Some(p) => lemma_context_open_word(
                    s,
                    i + 1,
                    args.push((p, cur)),
                    Seq::empty(),
                    None,
                    sq,
                    dq,
                ),
                None => lemma_context_open_word(s, i + 1, args, cur, None, sq, dq),
            }
        } else {
            lemma_context_open_word(s, i + 1, args, cur.push(c), st, sq, dq);
        }
    }
}

/// No word is being typed exactly when the text is empty or ends in a space outside
/// quotes that no backslash escapes.
pub proof fn lemma_completion_context_open_word(s: Seq<char>)
    ensures
        context_spec(s).1 is None <==> (s.len() == 0 || separates(s, s.len() - 1)),
{
    lemma_context_open_word(s, 0, Seq::empty(), Seq::empty(), None, false, false);
}

/// The position found for `c` holds `c` and no later position does; none is found
/// exactly when `c` does not occur.
pub proof fn lemma_last_index_is_last(s: Seq<char>, c: char)
    ensures
        match last_index_of(s, c) {
            Some(i) => 0 <= i < s.len() && s[i] == c && forall|j: int| i < j < s.len() ==> s[j] != c,
            None => !s.contains(c),
        },
    decreases s.len(),
{
    if s.len() > 0 {
        let t = s.drop_last();
        lemma_last_index_is_last(t, c);
        if s.last() != c {
            match last_index_of(t, c) {
                Some(i) => {
                    assert forall|j: int| i < j < s.len() implies s[j] != c by {
                        if j < t.len() {
                            assert(s[j] == t[j]);
                        }
                    }
                },
                None => {
                    assert forall|j: int| 0 <= j < s.len() implies s[j] != c by {
                        if j < t.len() {
                            assert(s[j] == t[j]);
                            assert(!t.contains(c));
                        }
                    }
                },
            }
        }
    }
}

/// A file name being typed splits at its last `/`: the directory is the text before it,
/// the name typed so far (which holds no `/`) the text after it, and what goes before
/// each completed name is the directory and the `/`. Without a `/`, the current
/// directory is listed and the whole word is the name typed.
pub proof fn lemma_file_parts_split_at_last_slash(word: Seq<char>)
    ensures
        word.contains('/') ==> {
            let (dir, name, before) = file_parts(word);
            &&& !name.contains('/')
            &&& dir + seq!['/'] + name == word
            &&& before == dir + seq!['/']
        },
        !word.contains('/') ==> file_parts(word) == ("."@, word, Seq::<char>::empty()),
{
    lemma_last_index_is_last(word, '/');
    match last_index_of(word, '/') {
        Some(i) => {
            let name = word.skip(i + 1);
            assert forall|j: int| 0 <= j < name.len() implies name[j] != '/' by {
                assert(name[j] == word[i + 1 + j]);
            }
            assert(word.take(i) + seq!['/'] + name =~= word);
            assert(word.take(i + 1) =~= word.take(i) + seq!['/']);
        },
        None => {},
    }
}

/// The word under the cursor starts just after the last space before it: the text from
/// there on holds no space, and the character before it, if any, is a space.
pub proof fn lemma_word_start_after_last_space(b: Seq<char>)
    ensures
        word_start(b) <= b.len(),
        word_start(b) > 0 ==> b[word_start(b) - 1] == ' ',
        forall|j: int| word_start(b) <= j < b.len() ==> b[j] != ' ',
    decreases b.len(),
{
    if b.len() > 0 && b.last() != ' ' {
        let t = b.drop_last();
        lemma_word_start_after_last_space(t);
        assert forall|j: int| word_start(b) <= j < b.len() implies b[j] != ' ' by {
            if j < t.len() {
                assert(b[j] == t[j]);
            }
        }
        if word_start(b) > 0 {
            assert(b[word_start(b) - 1] == t[word_start(t) - 1]);
        }
    }
}

/// The cursor is found exactly at a character boundary: `Some(k)` means the first `k`
/// characters take `pos` bytes, and `None` means no prefix of the line takes `pos` bytes.
pub proof fn lemma_cursor_is_char_boundary(line: Seq<char>, pos: nat)
    ensures
        match cursor_index(line, pos) {
            Some(k) => k <= line.len() && byte_len(line.take(k as int)) == pos,
            None => forall|k: int| 0 <= k <= line.len() ==> #[trigger] byte_len(line.take(k)) != pos,
        },
{
    lemma_cursor_none_from(line, pos, 0);
    if cursor_index(line, pos) is Some {
        lemma_cursor_from(line, pos, 0);
    }
}

/// When the scan from `k` finds nothing, no prefix from `k` characters on takes `pos` bytes.
proof fn lemma_cursor_none_from(line: Seq<char>, pos: nat, k: int)
    requires
        0 <= k,
    ensures
        cursor_from(line, pos, k) is None ==> forall|j: int|
            k <= j <= line.len() ==> #[trigger] byte_len(line.take(j)) != pos,
    decreases line.len() - k,
{
    if k < line.len() && byte_len(line.take(k)) != pos {
        lemma_cursor_none_from(line, pos, k + 1);
    }
}

} // verus!
