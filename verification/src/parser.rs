//! Splitting a command line into arguments, with quotes and backslash escapes.

use vstd::prelude::*;
use crate::text::{
    lemma_split_concat, lemma_split_no_sep, seq_join, lemma_seq_join_first, split_spec, str_chars,
    string_from_chars, string_views,
};

verus! {

/// The arguments of `s`, read from position `i` on, given the arguments `args` already
/// finished, the argument `cur` being read, and whether a single or double quote is open.
/// A backslash outside single quotes takes the next character literally (and is dropped
/// when nothing follows it); a double quote outside single quotes, or a single quote
/// outside double quotes, opens or closes a quote and is dropped; a space outside quotes
/// ends the current argument, if it is not empty; every other character is kept.
pub open spec fn parse_from(
    s: Seq<char>,
    i: int,
    args: Seq<Seq<char>>,
    cur: Seq<char>,
    sq: bool,
    dq: bool,
) -> Seq<Seq<char>>
    decreases s.len() - i,
{
    if i >= s.len() || i < 0 {
        if cur.len() > 0 {
            args.push(cur)
        } else {
            args
        }
    } else {
        let c = s[i];
        if c == '\\' && !sq {
            if i + 1 < s.len() {
                parse_from(s, i + 2, args, cur.push(s[i + 1]), sq, dq)
            } else {
                parse_from(s, i + 1, args, cur, sq, dq)
            }
        } else if c == '"' && !sq {
            parse_from(s, i + 1, args, cur, sq, !dq)
        } else if c == '\'' && !dq {
            parse_from(s, i + 1, args, cur, !sq, dq)
        } else if c == ' ' && !sq && !dq {
            if cur.len() > 0 {
                parse_from(s, i + 1, args.push(cur), Seq::empty(), sq, dq)
            } else {
                parse_from(s, i + 1, args, cur, sq, dq)
            }
        } else {
            parse_from(s, i + 1, args, cur.push(c), sq, dq)
        }
    }
}

/// The arguments of the command line `s`.
pub open spec fn parse_spec(s: Seq<char>) -> Seq<Seq<char>> {
    parse_from(s, 0, Seq::empty(), Seq::empty(), false, false)
}

/// Splits a command line into its arguments.
pub fn parse_command(command: &str) -> (args: Vec<String>)
    ensures
        string_views(args@) == parse_spec(command@),
{
    let s = str_chars(command);
    let ghost sv = s@;
    let mut args: Vec<String> = Vec::new();
    let mut current: Vec<char> = Vec::new();
    let mut in_single_quotes = false;
    let mut in_double_quotes = false;
    let mut i: usize = 0;
    assert(string_views(args@) == Seq::<Seq<char>>::empty());
    while i < s.len()
        invariant
            sv == s@,
            sv == command@,
            i <= s@.len(),
            parse_spec(sv) == parse_from(
                sv,
                i as int,
                string_views(args@),
                current@,
                in_single_quotes,
                in_double_quotes,
            ),
        decreases s@.len() - i,
    {
        let c = s[i];
        if c == '\\' && !in_single_quotes {
            if i + 1 < s.len() {
                current.push(s[i + 1]);
                i = i + 2;
            } else {
                i = i + 1;
            }
        } else if c == '"' && !in_single_quotes {
            in_double_quotes = !in_double_quotes;
            i = i + 1;
        } else if c == '\'' && !in_double_quotes {
            in_single_quotes = !in_single_quotes;
            i = i + 1;
        } else if c == ' ' && !in_single_quotes && !in_double_quotes {
            if current.len() > 0 {
                let ghost before = args@;
                args.push(string_from_chars(current.as_slice()));
                assert(string_views(args@) =~= string_views(before).push(current@));
                current = Vec::new();
            }
            i = i + 1;
        } else {
            current.push(c);
            i = i + 1;
        }
    }
    if current.len() > 0 {
        let ghost before = args@;
        args.push(string_from_chars(current.as_slice()));
        assert(string_views(args@) =~= string_views(before).push(current@));
    }
    args
}

/// A character that the parser treats specially outside quotes.
pub open spec fn is_special(c: char) -> bool {
    c == ' ' || c == '"' || c == '\'' || c == '\\'
}

/// A non-empty word with no character that the parser treats specially.
pub open spec fn is_plain_word(w: Seq<char>) -> bool {
    w.len() > 0 && forall|i: int| 0 <= i < w.len() ==> !is_special(#[trigger] w[i])
}

/// Once past `x`, parsing `x + y` goes on as parsing `y`.
proof fn lemma_parse_concat(
    x: Seq<char>,
    y: Seq<char>,
    j: int,
    args: Seq<Seq<char>>,
    cur: Seq<char>,
    sq: bool,
    dq: bool,
)
    requires
        0 <= j,
    ensures
        parse_from(x + y, x.len() + j, args, cur, sq, dq) == parse_from(y, j, args, cur, sq, dq),
    decreases y.len() - j,
{
    let s = x + y;
    let i = x.len() + j;
    if j < y.len() {
        assert(s[i] == y[j]);
        if j + 1 < y.len() {
            assert(s[i + 1] == y[j + 1]);
        }
        lemma_parse_concat(x, y, j + 1, args, cur, sq, dq);
        lemma_parse_concat(x, y, j + 1, args, cur, !sq, dq);
        lemma_parse_concat(x, y, j + 1, args, cur, sq, !dq);
        lemma_parse_concat(x, y, j + 1, args, cur.push(y[j]), sq, dq);
        lemma_parse_concat(x, y, j + 1, args.push(cur), Seq::empty(), sq, dq);
        if j + 1 < y.len() {
            lemma_parse_concat(x, y, j + 2, args, cur.push(y[j + 1]), sq, dq);
        }
    }
}

/// Outside quotes, the characters of a plain word are added to the current argument.
proof fn lemma_parse_plain(w: Seq<char>, y: Seq<char>, j: int, args: Seq<Seq<char>>, cur: Seq<char>)
    requires
        0 <= j <= w.len(),
        forall|i: int| 0 <= i < w.len() ==> !is_special(#[trigger] w[i]),
    ensures
        parse_from(w + y, j, args, cur, false, false) == parse_from(
            w + y,
            w.len() as int,
            args,
            cur + w.skip(j),
            false,
            false,
        ),
    decreases w.len() - j,
{
    if j < w.len() {
        let s = w + y;
        assert(s[j] == w[j]);
        assert(!is_special(w[j]));
        lemma_parse_plain(w, y, j + 1, args, cur.push(w[j]));
        assert(cur.push(w[j]) + w.skip(j + 1) == cur + w.skip(j));
    } else {
        assert(cur + w.skip(j) == cur);
    }
}

/// Parsing the plain words `ws` joined by single spaces adds exactly `ws` to `args`.
proof fn lemma_parse_join(ws: Seq<Seq<char>>, args: Seq<Seq<char>>)
    requires
        forall|i: int| 0 <= i < ws.len() ==> is_plain_word(#[trigger] ws[i]),
    ensures
        parse_from(seq_join(ws, seq![' ']), 0, args, Seq::empty(), false, false) == args + ws,
    decreases ws.len(),
{
    let sp = seq![' '];
    if ws.len() == 0 {
        assert(args + ws == args);
    } else {
        let w = ws[0];
        assert(is_plain_word(w));
        let rest_seq = ws.drop_first();
        let y = if ws.len() == 1 {
            Seq::<char>::empty()
        } else {
            sp + seq_join(rest_seq, sp)
        };
        if ws.len() == 1 {
            assert(seq_join(ws, sp) == w);
            assert(w + y == w);
        } else {
            lemma_seq_join_first(ws, sp);
            assert(seq_join(ws, sp) == w + y);
        }
        let s = w + y;
        lemma_parse_plain(w, y, 0, args, Seq::empty());
        assert(Seq::<char>::empty() + w.skip(0) == w);
        lemma_parse_concat(w, y, 0, args, w, false, false);
        if ws.len() == 1 {
            assert(args.push(w) == args + ws);
        } else {
            let z = seq_join(rest_seq, sp);
            assert(y[0] == ' ');
            assert(parse_from(y, 0, args, w, false, false) == parse_from(
                y,
                1,
                args.push(w),
                Seq::empty(),
                false,
                false,
            ));
            lemma_parse_concat(sp, z, 0, args.push(w), Seq::empty(), false, false);
            assert forall|i: int| 0 <= i < rest_seq.len() implies is_plain_word(
                #[trigger] rest_seq[i],
            ) by {
                assert(rest_seq[i] == ws[i + 1]);
            }
            lemma_parse_join(rest_seq, args.push(w));
            assert(args.push(w) + rest_seq == args + ws);
        }
    }
}

/// Plain words joined by single spaces (as `echo` prints them) parse back to the same words.
pub proof fn lemma_parse_join_round_trip(ws: Seq<Seq<char>>)
    requires
        forall|i: int| 0 <= i < ws.len() ==> is_plain_word(#[trigger] ws[i]),
    ensures
        parse_spec(seq_join(ws, seq![' '])) == ws,
{
    lemma_parse_join(ws, Seq::empty());
    assert(Seq::<Seq<char>>::empty() + ws == ws);
}

/// Parsing from a state whose finished arguments are all non-empty yields only
/// non-empty arguments.
proof fn lemma_parse_from_nonempty(
    s: Seq<char>,
    i: int,
    args: Seq<Seq<char>>,
    cur: Seq<char>,
    sq: bool,
    dq: bool,
)
    requires
        forall|j: int| 0 <= j < args.len() ==> (#[trigger] args[j]).len() > 0,
    ensures
        forall|j: int|
            0 <= j < parse_from(s, i, args, cur, sq, dq).len() ==> (#[trigger] parse_from(
                s,
                i,
                args,
                cur,
                sq,
                dq,
            )[j]).len() > 0,
    decreases s.len() - i,
{
    let pushed = args.push(cur);
    if cur.len() > 0 {
        assert forall|j: int| 0 <= j < pushed.len() implies (#[trigger] pushed[j]).len() > 0 by {
            if j < args.len() {
                assert(pushed[j] == args[j]);
            }
        }
    }
    if 0 <= i < s.len() {
        let c = s[i];
        if c == '\\' && !sq {
            if i + 1 < s.len() {
                lemma_parse_from_nonempty(s, i + 2, args, cur.push(s[i + 1]), sq, dq);
                assert(parse_from(s, i, args, cur, sq, dq) == parse_from(s, i + 2, args, cur.push(s[i + 1]), sq, dq));
            } else {
                lemma_parse_from_nonempty(s, i + 1, args, cur, sq, dq);
                assert(parse_from(s, i, args, cur, sq, dq) == parse_from(s, i + 1, args, cur, sq, dq));
            }
        } else if c == '"' && !sq {
            lemma_parse_from_nonempty(s, i + 1, args, cur, sq, !dq);
                assert(parse_from(s, i, args, cur, sq, dq) == parse_from(s, i + 1, args, cur, sq, !dq));
        } else if c == '\'' && !dq {
            lemma_parse_from_nonempty(s, i + 1, args, cur, !sq, dq);
                assert(parse_from(s, i, args, cur, sq, dq) == parse_from(s, i + 1, args, cur, !sq, dq));
        } else if c == ' ' && !sq && !dq {
            if cur.len() > 0 {
                lemma_parse_from_nonempty(s, i + 1, pushed, Seq::empty(), sq, dq);
                assert(parse_from(s, i, args, cur, sq, dq) == parse_from(s, i + 1, pushed, Seq::empty(), sq, dq));
            } else {
                lemma_parse_from_nonempty(s, i + 1, args, cur, sq, dq);
                assert(parse_from(s, i, args, cur, sq, dq) == parse_from(s, i + 1, args, cur, sq, dq));
            }
        } else {
            lemma_parse_from_nonempty(s, i + 1, args, cur.push(c), sq, dq);
                assert(parse_from(s, i, args, cur, sq, dq) == parse_from(s, i + 1, args, cur.push(c), sq, dq));
        }
    }
}

/// No argument that the parser returns is empty.
pub proof fn lemma_parse_args_nonempty(s: Seq<char>)
    ensures
        forall|j: int| 0 <= j < parse_spec(s).len() ==> (#[trigger] parse_spec(s)[j]).len() > 0,
{
    lemma_parse_from_nonempty(s, 0, Seq::empty(), Seq::empty(), false, false);
}

/// The pieces of `ws` that are not empty, in order.
pub open spec fn nonempty_words(ws: Seq<Seq<char>>) -> Seq<Seq<char>> {
    ws.filter(|w: Seq<char>| w.len() > 0)
}

/// `s` holds no quote and no backslash.
pub open spec fn is_plain_line(s: Seq<char>) -> bool {
    forall|i: int| 0 <= i < s.len() ==> #[trigger] s[i] != '\\' && s[i] != '\'' && s[i] != '"'
}

/// Parsing a plain line from position `i` finishes the arguments with the non-empty
/// pieces between spaces of the rest of the line, the current argument included.
proof fn lemma_parse_plain_from(s: Seq<char>, i: int, args: Seq<Seq<char>>, cur: Seq<char>)
    requires
        is_plain_line(s),
        0 <= i <= s.len(),
        !cur.contains(' '),
    ensures
        parse_from(s, i, args, cur, false, false) == args + nonempty_words(
            split_spec(cur + s.skip(i), ' '),
        ),
    decreases s.len() - i,
{
    broadcast use vstd::seq_lib::group_filter_ensures, vstd::seq::group_seq_axioms;

    reveal_with_fuel(Seq::<_>::filter, 2);
    if i == s.len() {
        assert(cur + s.skip(i) == cur);
        lemma_split_no_sep(cur, ' ');
        assert(seq![cur] == Seq::<Seq<char>>::empty().push(cur));
        assert(nonempty_words(Seq::<Seq<char>>::empty()) == Seq::<Seq<char>>::empty());
        if cur.len() > 0 {
            assert(args.push(cur) == args + seq![cur]);
        } else {
            assert(args + Seq::<Seq<char>>::empty() == args);
        }
    } else {
        let c = s[i];
        assert(c != '\\' && c != '\'' && c != '"');
        let rest = s.skip(i + 1);
        assert(s.skip(i) == seq![c] + rest);
        if c == ' ' {
            let args2 = if cur.len() > 0 {
                args.push(cur)
            } else {
                args
            };
            lemma_parse_plain_from(s, i + 1, args2, Seq::empty());
            assert(Seq::<char>::empty() + rest == rest);
            assert(cur + s.skip(i) == cur + seq![' '] + rest);
            lemma_split_concat(cur, rest, ' ');
            lemma_split_no_sep(cur, ' ');
            Seq::filter_distributes_over_add(
                seq![cur],
                split_spec(rest, ' '),
                |w: Seq<char>| w.len() > 0,
            );
            assert(seq![cur] == Seq::<Seq<char>>::empty().push(cur));
            assert(nonempty_words(Seq::<Seq<char>>::empty()) == Seq::<Seq<char>>::empty());
            if cur.len() > 0 {
                assert(nonempty_words(seq![cur]) == seq![cur]);
                assert(args.push(cur) + nonempty_words(split_spec(rest, ' ')) == args + (seq![cur]
                    + nonempty_words(split_spec(rest, ' '))));
            } else {
                assert(nonempty_words(seq![cur]) == Seq::<Seq<char>>::empty());
                assert(Seq::<Seq<char>>::empty() + nonempty_words(split_spec(rest, ' '))
                    == nonempty_words(split_spec(rest, ' ')));
            }
        } else {
            assert(!cur.push(c).contains(' ')) by {
                if cur.push(c).contains(' ') {
                    let j = choose|j: int| 0 <= j < cur.push(c).len() && cur.push(c)[j] == ' ';
                    if j < cur.len() {
                        assert(cur[j] == ' ');
                    }
                }
            }
            lemma_parse_plain_from(s, i + 1, args, cur.push(c));
            assert(cur.push(c) + rest == cur + s.skip(i));
        }
    }
}

/// A line without quotes or backslashes parses into its non-empty pieces between spaces.
pub proof fn lemma_parse_plain_line(s: Seq<char>)
    requires
        is_plain_line(s),
    ensures
        parse_spec(s) == nonempty_words(split_spec(s, ' ')),
{
    lemma_parse_plain_from(s, 0, Seq::empty(), Seq::empty());
    assert(Seq::<char>::empty() + s.skip(0) == s);
    assert(Seq::<Seq<char>>::empty() + nonempty_words(split_spec(s, ' ')) == nonempty_words(
        split_spec(s, ' '),
    ));
}

} // verus!
