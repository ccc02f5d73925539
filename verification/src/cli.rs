//! The decisions of the command line.
use crate::text::{
    contains, contains_text, is_blank, is_blank_text, is_space, lemma_contains_is_between,
    lemma_trim_takes_white_space, str_text,
};
use vstd::prelude::*;
use vstd::string::*;

verus! {

/// Why an input holds no pass dumps that can be compared.
#[derive(Debug)]
pub enum InputError {
    /// There is no dump before a pass.
    NoDumpBefore,
    /// There is no dump after a pass.
    NoDumpAfter,
}

/// The message for the user.
pub open spec fn input_message(error: InputError) -> Seq<char> {
    match error {
        InputError::NoDumpBefore => "Did you forget to add `-mllvm -print-before-all`?"@,
        InputError::NoDumpAfter => "Did you forget to add `-mllvm -print-after-all`?"@,
    }
}

impl InputError {
    /// The message for the user.
    pub fn message(&self) -> (res: String)
        ensures
            res@ == input_message(*self),
    {
        match self {
            InputError::NoDumpBefore => {
                "Did you forget to add `-mllvm -print-before-all`?".to_string()
            },
            InputError::NoDumpAfter => {
                "Did you forget to add `-mllvm -print-after-all`?".to_string()
            },
        }
    }
}

/// What is wrong with an input: it must hold dumps from before passes and from after passes.
pub open spec fn input_error(dump: Seq<char>) -> Option<InputError> {
    if !contains(dump, "IR Dump Before"@) {
        Some(InputError::NoDumpBefore)
    } else if !contains(dump, "IR Dump After"@) {
        Some(InputError::NoDumpAfter)
    } else {
        None
    }
}

/// Checks that an input holds dumps from before and from after passes.
pub fn check_input(dump: &str) -> (res: Result<(), InputError>)
    ensures
        match res {
            Ok(()) => input_error(dump@) is None,
            Err(error) => input_error(dump@) == Some(error),
        },
{
    if !contains_text(dump, "IR Dump Before") {
        return Err(InputError::NoDumpBefore);
    }
    if !contains_text(dump, "IR Dump After") {
        return Err(InputError::NoDumpAfter);
    }
    Ok(())
}

/// The pager to run among those that are installed: `delta`, else `riff`, else `less`.
pub open spec fn installed_pager(delta: bool, riff: bool, less: bool) -> Option<Seq<char>> {
    if delta {
        Some("delta"@)
    } else if riff {
        Some("riff"@)
    } else if less {
        Some("less -R"@)
    } else {
        None
    }
}

/// Picks the pager to run among those that are installed.
pub fn auto_select_pager(delta: bool, riff: bool, less: bool) -> (res: Option<&'static str>)
    ensures
        str_text(res) == installed_pager(delta, riff, less),
{
    if delta {
        Some("delta")
    } else if riff {
        Some("riff")
    } else if less {
        Some("less -R")
    } else {
        None
    }
}

/// The pager to run: none where the output goes to no terminal; else the one that the user asks
/// for, where a blank command asks for none; else the one that is installed.
pub open spec fn pager_to_run(
    is_terminal: bool,
    pager: Option<Seq<char>>,
    installed: Option<Seq<char>>,
) -> Option<Seq<char>> {
    if !is_terminal {
        None
    } else {
        match pager {
            None => installed,
            Some(pager) => if is_blank(pager) {
                None
            } else {
                Some(pager)
            },
        }
    }
}

/// Picks the pager to run.
pub fn enter_pager<'a>(
    is_terminal: bool,
    pager: Option<&'a str>,
    installed: Option<&'a str>,
) -> (res: Option<&'a str>)
    ensures
        str_text(res) == pager_to_run(
            is_terminal,
            str_text(pager),
            str_text(installed),
        ),
{
    if !is_terminal {
        return None;
    }
    match pager {
        None => installed,
        Some(pager) => if is_blank_text(pager) {
            None
        } else {
            Some(pager)
        },
    }
}

/// An input is accepted if and only if it speaks somewhere of a dump before a pass and somewhere
/// of a dump after a pass. The first of the two that is missing is reported.
pub proof fn lemma_input_speaks_of_dumps(dump: Seq<char>)
    ensures
        input_error(dump) is None <==> {
            &&& exists|a: Seq<char>, b: Seq<char>| #[trigger] (a + "IR Dump Before"@ + b) == dump
            &&& exists|a: Seq<char>, b: Seq<char>| #[trigger] (a + "IR Dump After"@ + b) == dump
        },
        input_error(dump) == Some(InputError::NoDumpBefore) <==> !exists|a: Seq<char>, b: Seq<char>|
            #[trigger] (a + "IR Dump Before"@ + b) == dump,
{
    lemma_contains_is_between(dump, "IR Dump Before"@);
    lemma_contains_is_between(dump, "IR Dump After"@);
}

/// The first pager that is installed is run, whatever others are.
pub proof fn lemma_installed_pagers(delta: bool, riff: bool, less: bool)
    ensures
        installed_pager(true, riff, less) == Some("delta"@),
        installed_pager(false, true, less) == Some("riff"@),
        installed_pager(false, false, true) == Some("less -R"@),
        installed_pager(delta, riff, less) is None <==> !delta && !riff && !less,
{
}

/// No pager is run without a terminal. With one, a command that is not blank is run as it is, a
/// blank one keeps any pager from being run, and without a command the installed one is run.
pub proof fn lemma_pager_of_user(command: Seq<char>, installed: Option<Seq<char>>)
    ensures
        forall|pager: Option<Seq<char>>| #[trigger] pager_to_run(false, pager, installed) is None,
        pager_to_run(true, None, installed) == installed,
        pager_to_run(true, Some(command), installed) is None <==> forall|i: int|
            0 <= i < command.len() ==> is_space(#[trigger] command[i]),
        pager_to_run(true, Some(command), installed) is Some ==> pager_to_run(
            true,
            Some(command),
            installed,
        ) == Some(command),
{
    lemma_trim_takes_white_space(command);
}

} // verus!
