//! Where the output of a command goes when the command line redirects it.

use vstd::prelude::*;
use crate::text::str_eq;

verus! {

/// What is done to the redirection's file when a builtin's output is written.
#[derive(Clone, Copy, Debug, PartialEq, Eq, Structural)]
pub enum FileAction {
    /// The file is not touched.
    Nothing,
    /// The file's contents are replaced by the output (`>`, `1>`).
    Write,
    /// The file is created empty, or emptied (`2>`).
    Create,
    /// The output is appended to the file, which is created if needed (`>>`, `1>>`).
    Append,
    /// The file is created if needed and left as it is (`2>>`).
    Touch,
}

/// How a builtin's output is written under a redirection: what is done to the file,
/// and whether the output is also printed.
pub struct StdoutPlan {
    pub file_action: FileAction,
    pub print: bool,
}

/// The redirection operators.
pub open spec fn is_redirect_op(s: Seq<char>) -> bool {
    s == ">"@ || s == "1>"@ || s == "2>"@ || s == ">>"@ || s == "1>>"@ || s == "2>>"@
}

/// What writing a builtin's output does under the operator `op`, given whether a file was
/// named: standard output goes to the file (nothing is printed, and nothing is written
/// without a file); standard error goes to the file, so the file is created and the
/// output printed; without a recognised operator the output is printed.
pub open spec fn redirect_spec(op: Option<Seq<char>>, has_file: bool) -> (FileAction, bool) {
    match op {
        Some(o) => if o == ">"@ || o == "1>"@ {
            (if has_file { FileAction::Write } else { FileAction::Nothing }, false)
        } else if o == "2>"@ {
            (if has_file { FileAction::Create } else { FileAction::Nothing }, true)
        } else if o == ">>"@ || o == "1>>"@ {
            (if has_file { FileAction::Append } else { FileAction::Nothing }, false)
        } else if o == "2>>"@ {
            (if has_file { FileAction::Touch } else { FileAction::Nothing }, true)
        } else {
            (FileAction::Nothing, true)
        },
        None => (FileAction::Nothing, true),
    }
}

/// The view of an optional string.
pub open spec fn opt_view(o: Option<&str>) -> Option<Seq<char>> {
    match o {
        Some(s) => Some(s@),
        None => None,
    }
}

/// How a builtin's output is written under the operator `op` and the file `file`.
pub fn redirect_plan(op: Option<&str>, file: Option<&str>) -> (plan: StdoutPlan)
    ensures
        (plan.file_action, plan.print) == redirect_spec(opt_view(op), file is Some),
{
    let has_file = file.is_some();
    match op {
        Some(o) => {
            if str_eq(o, ">") || str_eq(o, "1>") {
                StdoutPlan {
                    file_action: if has_file {
                        FileAction::Write
                    } else {
                        FileAction::Nothing
                    },
                    print: false,
                }
            } else if str_eq(o, "2>") {
                StdoutPlan {
                    file_action: if has_file {
                        FileAction::Create
                    } else {
                        FileAction::Nothing
                    },
                    print: true,
                }
            } else if str_eq(o, ">>") || str_eq(o, "1>>") {
                StdoutPlan {
                    file_action: if has_file {
                        FileAction::Append
                    } else {
                        FileAction::Nothing
                    },
                    print: false,
                }
            } else if str_eq(o, "2>>") {
                StdoutPlan {
                    file_action: if has_file {
                        FileAction::Touch
                    } else {
                        FileAction::Nothing
                    },
                    print: true,
                }
            } else {
                StdoutPlan { file_action: FileAction::Nothing, print: true }
            }
        },
        None => StdoutPlan { file_action: FileAction::Nothing, print: true },
    }
}

/// Where a builtin's output goes: to the command's own output when no operator was
/// given, otherwise as the redirection says.
pub enum OutputRoute {
    ToOutput,
    Redirected { plan: StdoutPlan },
}

/// The route of a builtin's output.
pub fn output_route(op: Option<&str>, file: Option<&str>) -> (r: OutputRoute)
    ensures
        op is None ==> r is ToOutput,
        op is Some ==> (r matches OutputRoute::Redirected { plan } && (plan.file_action, plan.print)
            == redirect_spec(opt_view(op), file is Some)),
{
    if op.is_some() {
        OutputRoute::Redirected { plan: redirect_plan(op, file) }
    } else {
        OutputRoute::ToOutput
    }
}

/// How an external command's output is redirected to a file.
pub struct ExternalRedirect {
    /// Whether the file is appended to, rather than emptied first.
    pub append: bool,
    /// Whether standard error, rather than standard output, goes to the file.
    pub stderr: bool,
}

/// An external command's redirection: when a file is named, it is appended to for `>>`,
/// `1>>` and `2>>` (emptied first otherwise), and it receives standard error for `2>`
/// and `2>>` (standard output otherwise).
pub fn external_redirect(op: Option<&str>, file: Option<&str>) -> (r: Option<ExternalRedirect>)
    ensures
        file is None ==> r is None,
        file is Some ==> (r matches Some(red) && red.append == (opt_view(op) == Some(">>"@)
            || opt_view(op) == Some("1>>"@) || opt_view(op) == Some("2>>"@)) && red.stderr == (
        opt_view(op) == Some("2>"@) || opt_view(op) == Some("2>>"@))),
{
    if file.is_none() {
        return None;
    }
    let (append, stderr) = match op {
        Some(o) => (
            str_eq(o, ">>") || str_eq(o, "1>>") || str_eq(o, "2>>"),
            str_eq(o, "2>") || str_eq(o, "2>>"),
        ),
        None => (false, false),
    };
    Some(ExternalRedirect { append, stderr })
}

} // verus!
