//! The command history kept by the `history` builtin.

use vstd::prelude::*;
use crate::text::{
    all_whitespace, decimal, lemma_split_concat, lemma_split_no_sep, lemma_trim_empty, split_spec, pad_left, parse_usize, parse_usize_spec,
    push_decimal, push_padded, push_str_chars, str_chars, str_eq, string_from_chars, string_views,
    trim_chars, trim_spec,
};
use crate::builtins::arg_views;

verus! {

/// The history entries, and how many of them `history -a` has already appended to a file.
pub struct History {
    entries: Vec<String>,
    last_appended: usize,
}

/// What `history` asks the shell to do.
pub enum HistoryCommand {
    /// Read the lines of `file` and add the ones that are not blank (`history -r FILE`).
    Read { file: String },
    /// Write `text` to `file`, replacing its contents (`history -w FILE`).
    Write { file: String, text: String },
    /// Append `text` to `file`, creating it if needed, and then mark every entry as
    /// appended (`history -a FILE`).
    Append { file: String, text: String },
    /// Print `text` (`history` and `history N`).
    Print { text: String },
}

impl View for History {
    type V = (Seq<Seq<char>>, nat);

    closed spec fn view(&self) -> (Seq<Seq<char>>, nat) {
        (string_views(self.entries@), self.last_appended as nat)
    }
}

/// The entries from position `from` on, each followed by a newline.
pub open spec fn lines_text(entries: Seq<Seq<char>>, from: int, k: int) -> Seq<char>
    decreases k - from,
{
    if k <= from {
        Seq::empty()
    } else {
        lines_text(entries, from, k - 1) + entries[k - 1] + "\n"@
    }
}

/// One line of the history listing: the entry's number, right-aligned in five columns,
/// two spaces, and the entry.
pub open spec fn listing_line(entries: Seq<Seq<char>>, i: int) -> Seq<char> {
    pad_left(decimal((i + 1) as nat), 5) + "  "@ + entries[i] + "\n"@
}

/// The listing lines for the entries at positions `from` up to `k`.
pub open spec fn listing_text(entries: Seq<Seq<char>>, from: int, k: int) -> Seq<char>
    decreases k - from,
{
    if k <= from {
        Seq::empty()
    } else {
        listing_text(entries, from, k - 1) + listing_line(entries, k - 1)
    }
}

/// How many entries `history ARGS` lists: the number its first argument gives (all of
/// them when there is none, or when it is not a number).
pub open spec fn listed_count(len: nat, args: Seq<Seq<char>>) -> nat {
    if args.len() > 0 {
        match parse_usize_spec(args[0]) {
            Some(n) => n,
            None => len,
        }
    } else {
        len
    }
}

/// The position of the first listed entry.
pub open spec fn listing_start(len: nat, args: Seq<Seq<char>>) -> nat {
    if listed_count(len, args) >= len {
        0
    } else {
        (len - listed_count(len, args)) as nat
    }
}

/// `history -OPT FILE` with one of the options that touch a file.
pub open spec fn is_file_option(args: Seq<Seq<char>>, opt: Seq<char>) -> bool {
    args.len() >= 2 && args[0] == opt
}

impl History {
    #[verifier::type_invariant]
    spec fn wf(self) -> bool {
        self.last_appended <= self.entries@.len()
    }

    /// No entries.
    pub fn new() -> (h: History)
        ensures
            h@.0 == Seq::<Seq<char>>::empty(),
            h@.1 == 0,
    {
        let h = History { entries: Vec::new(), last_appended: 0 };
        assert(h@.0 =~= Seq::<Seq<char>>::empty());
        h
    }

    /// Adds the lines that are not blank, in order.
    pub fn load(&mut self, lines: &[String])
        ensures
            final(self)@.1 == old(self)@.1,
            final(self)@.0 == old(self)@.0 + string_views(lines@).filter(
                |l: Seq<char>| !all_whitespace(l),
            ),
    {
        proof {
            use_type_invariant(&*self);
        }
        let ghost start = self@.0;
        let ghost ls = string_views(lines@);
        let ghost keep = |l: Seq<char>| !all_whitespace(l);
        let mut this = History::new();
        std::mem::swap(&mut this, self);
        let History { mut entries, last_appended: last } = this;
        let mut i: usize = 0;
        assert(ls.take(0).filter(keep) =~= Seq::<Seq<char>>::empty());
        while i < lines.len()
            invariant
                i <= lines@.len(),
                ls == string_views(lines@),
                keep == (|l: Seq<char>| !all_whitespace(l)),
                last <= entries@.len(),
                string_views(entries@) == start + ls.take(i as int).filter(keep),
            decreases lines@.len() - i,
        {
            let chars = str_chars(lines[i].as_str());
            let trimmed = trim_chars(chars.as_slice());
            proof {
                lemma_trim_empty(chars@);
                reveal_with_fuel(Seq::<_>::filter, 1);
                assert(ls.take(i + 1).drop_last() == ls.take(i as int));
                assert(ls.take(i + 1).last() == lines@[i as int]@);
            }
            let ghost before = entries@;
            if trimmed.len() > 0 {
                entries.push(lines[i].clone());
                assert(string_views(entries@) =~= string_views(before).push(lines@[i as int]@));
            }
            i = i + 1;
        }
        assert(ls.take(lines@.len() as int) == ls);
        *self = History { entries, last_appended: last };
    }

    /// Marks every entry as appended to a file.
    pub fn mark_appended(&mut self)
        ensures
            final(self)@ == (old(self)@.0, old(self)@.0.len()),
    {
        let n = self.entries.len();
        self.last_appended = n;
    }
}

/// Appends each entry from position `from` on, followed by a newline.
fn push_lines(entries: &Vec<String>, from: usize, out: &mut Vec<char>)
    requires
        from <= entries@.len(),
    ensures
        final(out)@ == old(out)@ + lines_text(string_views(entries@), from as int, entries@.len() as int),
{
    let ghost ev = string_views(entries@);
    let ghost start = out@;
    let mut i = from;
    while i < entries.len()
        invariant
            from <= i <= entries@.len(),
            ev == string_views(entries@),
            out@ == start + lines_text(ev, from as int, i as int),
        decreases entries@.len() - i,
    {
        push_str_chars(entries[i].as_str(), out);
        push_str_chars("\n", out);
        i = i + 1;
    }
}

/// `r` is what `history` with arguments `a` asks for, for the history `h`.
pub open spec fn history_command_matches(
    r: HistoryCommand,
    a: Seq<Seq<char>>,
    h: (Seq<Seq<char>>, nat),
) -> bool {
    let entries = h.0;
    match r {
        HistoryCommand::Read { file } => is_file_option(a, "-r"@) && file@ == a[1],
        HistoryCommand::Write { file, text } => !is_file_option(a, "-r"@) && is_file_option(
            a,
            "-w"@,
        ) && file@ == a[1] && text@ == lines_text(entries, 0, entries.len() as int),
        HistoryCommand::Append { file, text } => !is_file_option(a, "-r"@) && !is_file_option(
            a,
            "-w"@,
        ) && is_file_option(a, "-a"@) && file@ == a[1] && text@ == lines_text(
            entries,
            h.1 as int,
            entries.len() as int,
        ),
        HistoryCommand::Print { text } => !is_file_option(a, "-r"@) && !is_file_option(a, "-w"@)
            && !is_file_option(a, "-a"@) && text@ == listing_text(
            entries,
            listing_start(entries.len(), a) as int,
            entries.len() as int,
        ),
    }
}

/// `history`: `-r FILE` reads entries from a file, `-w FILE` writes them all to it,
/// `-a FILE` appends those not appended before; otherwise the last N entries (all of
/// them without a number) are listed.
pub fn history_builtin(args: &[&str], history: &History) -> (r: HistoryCommand)
    ensures
        history_command_matches(r, arg_views(args@), history@),
{
    proof {
        use_type_invariant(history);
    }
    let ghost a = arg_views(args@);
    if args.len() >= 2 && str_eq(args[0], "-r") {
        return HistoryCommand::Read { file: String::from_str(args[1]) };
    }
    if args.len() >= 2 && str_eq(args[0], "-w") {
        let mut out: Vec<char> = Vec::new();
        push_lines(&history.entries, 0, &mut out);
        return HistoryCommand::Write {
            file: String::from_str(args[1]),
            text: string_from_chars(out.as_slice()),
        };
    }
    if args.len() >= 2 && str_eq(args[0], "-a") {
        let mut out: Vec<char> = Vec::new();
        push_lines(&history.entries, history.last_appended, &mut out);
        return HistoryCommand::Append {
            file: String::from_str(args[1]),
            text: string_from_chars(out.as_slice()),
        };
    }
    let len = history.entries.len();
    let n = if args.len() > 0 {
        match parse_usize(args[0]) {
            Some(v) => v,
            None => len,
        }
    } else {
        len
    };
    let start = if n >= len {
        0
    } else {
        len - n
    };
    assert(start == listing_start(len as nat, a));
    let ghost ev = string_views(history.entries@);
    let mut out: Vec<char> = Vec::new();
    let mut i = start;
    while i < len
        invariant
            start <= i <= len,
            len == history.entries@.len(),
            ev == string_views(history.entries@),
            out@ == listing_text(ev, start as int, i as int),
        decreases len - i,
    {
        let mut num: Vec<char> = Vec::new();
        push_decimal(i + 1, &mut num);
        push_padded(num.as_slice(), 5, &mut out);
        push_str_chars("  ", &mut out);
        push_str_chars(history.entries[i].as_str(), &mut out);
        push_str_chars("\n", &mut out);
        i = i + 1;
    }
    HistoryCommand::Print { text: string_from_chars(out.as_slice()) }
}

/// The lines from `from` on do not depend on what comes before `from`.
proof fn lemma_lines_text_shift(e: Seq<Seq<char>>, new: Seq<Seq<char>>, k: int)
    requires
        0 <= k <= new.len(),
    ensures
        lines_text(e + new, e.len() as int, e.len() + k) == lines_text(new, 0, k),
    decreases k,
{
    if k > 0 {
        lemma_lines_text_shift(e, new, k - 1);
        assert((e + new)[e.len() + k - 1] == new[k - 1]);
    }
}

/// After `history -a` has marked every entry as appended, the next `history -a` appends
/// exactly the entries added since, once each.
pub proof fn lemma_append_only_new_entries(e: Seq<Seq<char>>, new: Seq<Seq<char>>)
    ensures
        lines_text(e + new, e.len() as int, (e + new).len() as int) == lines_text(
            new,
            0,
            new.len() as int,
        ),
{
    lemma_lines_text_shift(e, new, new.len() as int);
}

/// The written lines of the first `k` entries, followed by text `y` without a newline,
/// split at the newlines into those entries and `y`.
proof fn lemma_lines_split(e: Seq<Seq<char>>, k: int, y: Seq<char>)
    requires
        0 <= k <= e.len(),
        forall|i: int| 0 <= i < e.len() ==> !(#[trigger] e[i]).contains('\n'),
        !y.contains('\n'),
    ensures
        split_spec(lines_text(e, 0, k) + y, '\n') == e.take(k).push(y),
    decreases k,
{
    reveal_strlit("\n");
    if k == 0 {
        assert(lines_text(e, 0, 0) + y == y);
        lemma_split_no_sep(y, '\n');
        assert(e.take(0).push(y) == seq![y]);
    } else {
        let a = lines_text(e, 0, k - 1) + e[k - 1];
        lemma_lines_split(e, k - 1, e[k - 1]);
        assert(e.take(k - 1).push(e[k - 1]) == e.take(k));
        lemma_split_concat(a, y, '\n');
        assert(lines_text(e, 0, k) + y == a + seq!['\n'] + y);
        lemma_split_no_sep(y, '\n');
        assert(e.take(k) + seq![y] == e.take(k).push(y));
    }
}

/// What `history -w` writes splits back, at its newlines, into the entries followed by
/// the empty text after the last newline, which reading the file line by line leaves
/// out; so `history -r` of that file adds the entries again, blank ones left out (see
/// `History::load`).
pub proof fn lemma_written_history_reads_back(e: Seq<Seq<char>>)
    requires
        forall|i: int| 0 <= i < e.len() ==> !(#[trigger] e[i]).contains('\n'),
    ensures
        split_spec(lines_text(e, 0, e.len() as int), '\n') == e.push(Seq::empty()),
{
    lemma_lines_split(e, e.len() as int, Seq::empty());
    assert(lines_text(e, 0, e.len() as int) + Seq::<char>::empty() == lines_text(e, 0, e.len() as int));
    assert(e.take(e.len() as int) == e);
}

} // verus!
