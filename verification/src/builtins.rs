//! The shell's builtin commands, computed from plain values; the shell performs the
//! reading and writing that they ask for.

use vstd::prelude::*;
use crate::text::{
    push_chars, push_str_chars, seq_join, join_strs, str_eq, string_from_chars,
};

pub use crate::history::history_builtin;
pub use crate::jobs::{jobs_builtin, reap_jobs};

verus! {

/// The builtin commands.
#[derive(Clone, Copy, Debug, PartialEq, Eq, Structural)]
pub enum Builtin {
    Exit,
    Echo,
    Pwd,
    Cd,
    Type,
    Complete,
    Jobs,
    History,
}

/// The builtin named `name`, if any.
pub open spec fn builtin_of(name: Seq<char>) -> Option<Builtin> {
    if name == "exit"@ {
        Some(Builtin::Exit)
    } else if name == "echo"@ {
        Some(Builtin::Echo)
    } else if name == "pwd"@ {
        Some(Builtin::Pwd)
    } else if name == "cd"@ {
        Some(Builtin::Cd)
    } else if name == "type"@ {
        Some(Builtin::Type)
    } else if name == "complete"@ {
        Some(Builtin::Complete)
    } else if name == "jobs"@ {
        Some(Builtin::Jobs)
    } else if name == "history"@ {
        Some(Builtin::History)
    } else {
        None
    }
}

/// The builtin named `cmd`, if any.
pub fn builtin_kind(cmd: &str) -> (r: Option<Builtin>)
    ensures
        r == builtin_of(cmd@),
{
    if str_eq(cmd, "exit") {
        Some(Builtin::Exit)
    } else if str_eq(cmd, "echo") {
        Some(Builtin::Echo)
    } else if str_eq(cmd, "pwd") {
        Some(Builtin::Pwd)
    } else if str_eq(cmd, "cd") {
        Some(Builtin::Cd)
    } else if str_eq(cmd, "type") {
        Some(Builtin::Type)
    } else if str_eq(cmd, "complete") {
        Some(Builtin::Complete)
    } else if str_eq(cmd, "jobs") {
        Some(Builtin::Jobs)
    } else if str_eq(cmd, "history") {
        Some(Builtin::History)
    } else {
        None
    }
}

/// Whether `cmd` names a builtin command.
pub fn is_builtin_name(cmd: &str) -> (r: bool)
    ensures
        r == (builtin_of(cmd@) is Some),
{
    builtin_kind(cmd).is_some()
}

/// The names of all builtin commands, each once.
pub fn builtin_names() -> (names: Vec<&'static str>)
    ensures
        names@.map_values(|s: &str| s@) == seq![
            "exit"@,
            "echo"@,
            "pwd"@,
            "cd"@,
            "type"@,
            "complete"@,
            "jobs"@,
            "history"@,
        ],
        forall|i: int| 0 <= i < names@.len() ==> builtin_of(#[trigger] names@[i]@) is Some,
{
    let names = vec!["exit", "echo", "pwd", "cd", "type", "complete", "jobs", "history"];
    assert(names@.map_values(|s: &str| s@) =~= seq![
        "exit"@,
        "echo"@,
        "pwd"@,
        "cd"@,
        "type"@,
        "complete"@,
        "jobs"@,
        "history"@,
    ]);
    names
}

/// The views of a list of arguments.
pub open spec fn arg_views(args: Seq<&str>) -> Seq<Seq<char>> {
    args.map_values(|a: &str| a@)
}

/// `exit`: the shell stops.
pub fn exit_builtin(_args: &[&str]) -> (keep_running: bool)
    ensures
        !keep_running,
{
    false
}

/// What `echo` prints: its arguments separated by single spaces, and a newline.
pub open spec fn echo_spec(args: Seq<Seq<char>>) -> Seq<char> {
    seq_join(args, " "@) + "\n"@
}

/// `echo`: the text it prints.
pub fn echo_builtin(args: &[&str]) -> (output: String)
    ensures
        output@ == echo_spec(arg_views(args@)),
{
    let mut output = join_strs(args, " ");
    output.append("\n");
    output
}

/// What `pwd` prints for the working directory `dir`.
pub open spec fn pwd_spec(dir: Seq<char>) -> Seq<char> {
    dir + "\n"@
}

/// `pwd`: the text it prints for the working directory `dir`.
pub fn pwd_builtin(dir: &str) -> (output: String)
    ensures
        output@ == pwd_spec(dir@),
{
    let mut output = String::from_str(dir);
    output.append("\n");
    output
}

/// The directory that `cd` changes to, and the message it prints when it cannot.
pub struct CdPlan {
    pub target: String,
    pub error_message: String,
}

/// The argument that `cd` was given, `~` when none.
pub open spec fn cd_arg(args: Seq<Seq<char>>) -> Seq<char> {
    if args.len() == 0 {
        "~"@
    } else {
        args[0]
    }
}

/// `cd`: changes to its first argument; `~` (also when no argument is given) stands for
/// the home directory when it is known.
pub fn cd_builtin(args: &[&str], home: Option<&str>) -> (plan: CdPlan)
    ensures
        plan.target@ == (if cd_arg(arg_views(args@)) == "~"@ && home is Some {
            home.unwrap()@
        } else {
            cd_arg(arg_views(args@))
        }),
        plan.error_message@ == "cd: "@ + cd_arg(arg_views(args@))
            + ": No such file or directory\n"@,
{
    let path_str: &str = if args.len() == 0 {
        "~"
    } else {
        args[0]
    };
    assert(path_str@ == cd_arg(arg_views(args@)));
    let target = if str_eq(path_str, "~") {
        match home {
            Some(h) => String::from_str(h),
            None => String::from_str(path_str),
        }
    } else {
        String::from_str(path_str)
    };
    let mut error_message = String::from_str("cd: ");
    error_message.append(path_str);
    error_message.append(": No such file or directory\n");
    CdPlan { target, error_message }
}

/// What `type NAME` prints, given where a search of `PATH` found `NAME` (if it is not a builtin).
pub open spec fn type_spec(cmd: Seq<char>, found: Option<Seq<char>>) -> Seq<char> {
    if builtin_of(cmd) is Some {
        cmd + " is a shell builtin\n"@
    } else {
        match found {
            Some(path) => cmd + " is "@ + path + "\n"@,
            None => cmd + ": not found\n"@,
        }
    }
}

/// The command that `type` needs looked up in `PATH`: its first argument, unless it
/// is a builtin.
pub fn type_lookup<'a>(args: &[&'a str]) -> (r: Option<&'a str>)
    ensures
        match r {
            Some(cmd) => args@.len() > 0 && cmd@ == args@[0]@ && builtin_of(cmd@) is None,
            None => args@.len() == 0 || builtin_of(args@[0]@) is Some,
        },
{
    if args.len() == 0 || is_builtin_name(args[0]) {
        None
    } else {
        Some(args[0])
    }
}

/// `type`: what it prints (nothing without arguments), given the result of the `PATH`
/// search for its first argument.
pub fn type_builtin(args: &[&str], found: Option<&str>) -> (output: Option<String>)
    ensures
        args@.len() == 0 ==> output is None,
        args@.len() > 0 ==> (output matches Some(o) && o@ == type_spec(
            args@[0]@,
            match found {
                Some(p) => Some(p@),
                None => None,
            },
        )),
{
    if args.len() == 0 {
        return None;
    }
    let cmd = args[0];
    let mut out = String::from_str(cmd);
    if is_builtin_name(cmd) {
        out.append(" is a shell builtin\n");
    } else {
        match found {
            Some(path) => {
                out.append(" is ");
                out.append(path);
                out.append("\n");
            },
            None => {
                out.append(": not found\n");
            },
        }
    }
    Some(out)
}

/// The completion scripts registered with `complete -C`, by command name.
pub struct CompletionRegistry {
    entries: Vec<(String, String)>,
    scripts: Ghost<Map<Seq<char>, Seq<char>>>,
}

impl View for CompletionRegistry {
    type V = Map<Seq<char>, Seq<char>>;

    closed spec fn view(&self) -> Map<Seq<char>, Seq<char>> {
        self.scripts@
    }
}

/// The entries have distinct commands, and they are exactly the registrations in `m`.
spec fn entries_match(e: Seq<(String, String)>, m: Map<Seq<char>, Seq<char>>) -> bool {
    &&& forall|i: int, j: int|
        0 <= i < j < e.len() ==> (#[trigger] e[i]).0@ != (#[trigger] e[j]).0@
    &&& forall|i: int|
        0 <= i < e.len() ==> m.contains_key((#[trigger] e[i]).0@) && m[e[i].0@] == e[i].1@
    &&& forall|k: Seq<char>| #[trigger]
        m.contains_key(k) ==> exists|i: int| 0 <= i < e.len() && (#[trigger] e[i]).0@ == k
}

impl CompletionRegistry {
    #[verifier::type_invariant]
    spec fn wf(self) -> bool {
        entries_match(self.entries@, self.scripts@)
    }

    /// An empty registry.
    pub fn new() -> (r: CompletionRegistry)
        ensures
            r@ == Map::<Seq<char>, Seq<char>>::empty(),
    {
        CompletionRegistry { entries: Vec::new(), scripts: Ghost(Map::empty()) }
    }

    /// The position of the entry for `cmd`, if there is one.
    fn find(&self, cmd: &str) -> (r: Option<usize>)
        ensures
            match r {
                Some(i) => i < self.entries@.len() && self.entries@[i as int].0@ == cmd@,
                None => !self@.contains_key(cmd@),
            },
    {
        proof {
            use_type_invariant(self);
        }
        let mut i: usize = 0;
        while i < self.entries.len()
            invariant
                i <= self.entries@.len(),
                forall|j: int| 0 <= j < i ==> (#[trigger] self.entries@[j]).0@ != cmd@,
            decreases self.entries@.len() - i,
        {
            if str_eq(self.entries[i].0.as_str(), cmd) {
                return Some(i);
            }
            i = i + 1;
        }
        None
    }

    /// The script registered for `cmd`, if any.
    pub fn lookup(&self, cmd: &str) -> (r: Option<&String>)
        ensures
            match r {
                Some(script) => self@.contains_key(cmd@) && script@ == self@[cmd@],
                None => !self@.contains_key(cmd@),
            },
    {
        proof {
            use_type_invariant(self);
        }
        match self.find(cmd) {
            Some(i) => Some(&self.entries[i].1),
            None => None,
        }
    }

    /// Registers `script` for `cmd`, replacing any earlier one.
    pub fn register(&mut self, cmd: &str, script: &str)
        ensures
            final(self)@ == old(self)@.insert(cmd@, script@),
    {
        proof {
            use_type_invariant(&*self);
        }
        let ghost old_map = self.scripts@;
        let ghost new_map = self.scripts@.insert(cmd@, script@);
        match self.find(cmd) {
            Some(i) => {
                let ghost old_entries = self.entries@;
                let mut this = CompletionRegistry::new();
                std::mem::swap(&mut this, self);
                let CompletionRegistry { mut entries, scripts: _ } = this;
                entries.set(i, (String::from_str(cmd), String::from_str(script)));
                let ghost e = entries@;
                proof {
                    assert forall|a: int, b: int| 0 <= a < b < e.len() implies (#[trigger] e[a]).0@
                        != (#[trigger] e[b]).0@ by {
                        if a != i && b != i {
                            assert(e[a] == old_entries[a] && e[b] == old_entries[b]);
                        } else if a == i {
                            assert(old_entries[a].0@ == cmd@);
                            assert(e[b] == old_entries[b]);
                        } else {
                            assert(old_entries[b].0@ == cmd@);
                            assert(e[a] == old_entries[a]);
                        }
                    }
                    assert forall|k: Seq<char>| #[trigger] new_map.contains_key(k) implies exists|
                        j: int,
                    | 0 <= j < e.len() && (#[trigger] e[j]).0@ == k by {
                        if k == cmd@ {
                            assert(e[i as int].0@ == k);
                        } else {
                            assert(old_map.contains_key(k));
                            let j = choose|j: int|
                                0 <= j < old_entries.len() && (#[trigger] old_entries[j]).0@ == k;
                            assert(e[j] == old_entries[j]);
                        }
                    }
                    assert forall|j: int| 0 <= j < e.len() implies new_map.contains_key(
                        (#[trigger] e[j]).0@,
                    ) && new_map[e[j].0@] == e[j].1@ by {
                        if j != i {
                            assert(e[j] == old_entries[j]);
                            assert(old_entries[j].0@ != old_entries[i as int].0@);
                        }
                    }
                }
                assert(entries_match(e, new_map));
                *self = CompletionRegistry { entries, scripts: Ghost(new_map) };
            },
            None => {
                let ghost old_entries = self.entries@;
                let mut this = CompletionRegistry::new();
                std::mem::swap(&mut this, self);
                let CompletionRegistry { mut entries, scripts: _ } = this;
                entries.push((String::from_str(cmd), String::from_str(script)));
                let ghost e = entries@;
                proof {
                    let n = old_entries.len() as int;
                    assert forall|a: int, b: int| 0 <= a < b < e.len() implies (#[trigger] e[a]).0@
                        != (#[trigger] e[b]).0@ by {
                        assert(e[a] == old_entries[a]);
                        if b < n {
                            assert(e[b] == old_entries[b]);
                        } else {
                            assert(old_map.contains_key(old_entries[a].0@));
                        }
                    }
                    assert forall|k: Seq<char>| #[trigger] new_map.contains_key(k) implies exists|
                        j: int,
                    | 0 <= j < e.len() && (#[trigger] e[j]).0@ == k by {
                        if k == cmd@ {
                            assert(e[n].0@ == k);
                        } else {
                            assert(old_map.contains_key(k));
                            let j = choose|j: int|
                                0 <= j < old_entries.len() && (#[trigger] old_entries[j]).0@ == k;
                            assert(e[j] == old_entries[j]);
                        }
                    }
                    assert forall|j: int| 0 <= j < e.len() implies new_map.contains_key(
                        (#[trigger] e[j]).0@,
                    ) && new_map[e[j].0@] == e[j].1@ by {
                        if j < n {
                            assert(e[j] == old_entries[j]);
                            assert(old_map.contains_key(old_entries[j].0@));
                        }
                    }
                }
                assert(entries_match(e, new_map));
                *self = CompletionRegistry { entries, scripts: Ghost(new_map) };
            },
        }
    }

    /// Removes the script registered for `cmd`, if any.
    pub fn unregister(&mut self, cmd: &str)
        ensures
            final(self)@ == old(self)@.remove(cmd@),
    {
        proof {
            use_type_invariant(&*self);
        }
        let ghost old_map = self.scripts@;
        let ghost new_map = self.scripts@.remove(cmd@);
        match self.find(cmd) {
            Some(i) => {
                let ghost old_entries = self.entries@;
                let mut this = CompletionRegistry::new();
                std::mem::swap(&mut this, self);
                let CompletionRegistry { mut entries, scripts: _ } = this;
                entries.remove(i);
                let ghost e = entries@;
                proof {
                    assert forall|a: int, b: int| 0 <= a < b < e.len() implies (#[trigger] e[a]).0@
                        != (#[trigger] e[b]).0@ by {
                        let a2 = if a < i { a } else { a + 1 };
                        let b2 = if b < i { b } else { b + 1 };
                        assert(e[a] == old_entries[a2]);
                        assert(e[b] == old_entries[b2]);
                    }
                    assert forall|k: Seq<char>| #[trigger] new_map.contains_key(k) implies exists|
                        j: int,
                    | 0 <= j < e.len() && (#[trigger] e[j]).0@ == k by {
                        assert(old_map.contains_key(k));
                        let j = choose|j: int|
                            0 <= j < old_entries.len() && (#[trigger] old_entries[j]).0@ == k;
                        assert(j != i);
                        if j < i {
                            assert(e[j] == old_entries[j]);
                        } else {
                            assert(e[j - 1] == old_entries[j]);
                        }
                    }
                    assert forall|j: int| 0 <= j < e.len() implies new_map.contains_key(
                        (#[trigger] e[j]).0@,
                    ) && new_map[e[j].0@] == e[j].1@ by {
                        let j2 = if j < i { j } else { j + 1 };
                        assert(e[j] == old_entries[j2]);
                        assert(old_entries[j2].0@ != old_entries[i as int].0@);
                    }
                }
                assert(entries_match(e, new_map));
                *self = CompletionRegistry { entries, scripts: Ghost(new_map) };
            },
            None => {
                assert(new_map =~= old_map);
            },
        }
    }
}

/// What `complete ARGS` does to the registered scripts, and what it prints.
pub open spec fn complete_effect(reg: Map<Seq<char>, Seq<char>>, args: Seq<Seq<char>>) -> (
    Map<Seq<char>, Seq<char>>,
    Option<Seq<char>>,
) {
    if args.len() >= 3 && args[0] == "-C"@ {
        (reg.insert(args[2], args[1]), None)
    } else if args.len() >= 2 && args[0] == "-r"@ {
        (reg.remove(args[1]), None)
    } else if args.len() >= 2 && args[0] == "-p"@ {
        (
            reg,
            Some(
                if reg.contains_key(args[1]) {
                    "complete -C '"@ + reg[args[1]] + "' "@ + args[1] + "\n"@
                } else {
                    "complete: "@ + args[1] + ": no completion specification\n"@
                },
            ),
        )
    } else {
        (reg, None)
    }
}

/// `complete -C SCRIPT CMD` registers a completion script, `complete -r CMD` removes it,
/// and `complete -p CMD` prints it; the text printed, if any, is returned.
pub fn complete_builtin(args: &[&str], registry: &mut CompletionRegistry) -> (output: Option<
    String,
>)
    ensures
        (final(registry)@, match output {
            Some(o) => Some(o@),
            None => None,
        }) == complete_effect(old(registry)@, arg_views(args@)),
{
    if args.len() >= 3 && str_eq(args[0], "-C") {
        registry.register(args[2], args[1]);
        return None;
    }
    if args.len() >= 2 && str_eq(args[0], "-r") {
        registry.unregister(args[1]);
        return None;
    }
    if args.len() >= 2 && str_eq(args[0], "-p") {
        let command = args[1];
        let output = match registry.lookup(command) {
            Some(script) => {
                let mut o = String::from_str("complete -C '");
                o.append(script.as_str());
                o.append("' ");
                o.append(command);
                o.append("\n");
                o
            },
            None => {
                let mut o = String::from_str("complete: ");
                o.append(command);
                o.append(": no completion specification\n");
                o
            },
        };
        return Some(output);
    }
    None
}

/// After `complete -C SCRIPT CMD`, `complete -p CMD` prints the registration back.
pub proof fn lemma_register_then_print(
    reg: Map<Seq<char>, Seq<char>>,
    script: Seq<char>,
    cmd: Seq<char>,
)
    ensures
        ({
            let after = complete_effect(reg, seq!["-C"@, script, cmd]).0;
            complete_effect(after, seq!["-p"@, cmd]).1 == Some(
                "complete -C '"@ + script + "' "@ + cmd + "\n"@,
            )
        }),
{
    reveal_strlit("-C");
    reveal_strlit("-r");
    reveal_strlit("-p");
    assert("-p"@[1] != "-C"@[1]);
    assert("-p"@[1] != "-r"@[1]);
    assert("-r"@[1] != "-C"@[1]);
}

/// After `complete -r CMD`, `complete -p CMD` reports that nothing is registered.
pub proof fn lemma_unregister_then_print(reg: Map<Seq<char>, Seq<char>>, cmd: Seq<char>)
    ensures
        ({
            let after = complete_effect(reg, seq!["-r"@, cmd]).0;
            complete_effect(after, seq!["-p"@, cmd]).1 == Some(
                "complete: "@ + cmd + ": no completion specification\n"@,
            )
        }),
{
    reveal_strlit("-C");
    reveal_strlit("-r");
    reveal_strlit("-p");
    assert("-p"@[1] != "-C"@[1]);
    assert("-p"@[1] != "-r"@[1]);
    assert("-r"@[1] != "-C"@[1]);
}

} // verus!
