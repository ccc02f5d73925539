//! Picks the functions to show.
use crate::demangle::{decoded, demangle_text, demangled_text, written_at};
use crate::group::entry_names;
use crate::order::{ascending, lemma_one_ascending_order, lemma_same_names, sort_names};
use crate::passes::{OptPipelineResults, Pass};
use crate::pattern::{
    compile_pattern, is_error_of, is_match, regex_compiles, regex_matches, regex_source,
    PatternError,
};
use crate::table::{distinct_names, entry_position, lemma_entry_position};
use crate::text::{same_text, string_texts};
use vstd::prelude::*;
use vstd::string::*;

verus! {

/// Why no function can be shown.
#[derive(Debug)]
pub enum SelectionError {
    /// What should match the function is no regular expression.
    InvalidPattern(PatternError),
    /// No function matches the regular expression.
    NoMatch { expected: String },
    /// No function has the name.
    NotFound { expected: String },
}

/// The message for the user.
pub open spec fn selection_message(error: SelectionError) -> Seq<char> {
    match error {
        SelectionError::InvalidPattern(error) => "Invalid regex pattern: "@ + error.pattern@,
        SelectionError::NoMatch { expected } => "No function matching regex '"@ + expected@
            + "' was found in the input, use option `--list/-l` to find out all available functions"@,
        SelectionError::NotFound { expected } => "Function '"@ + expected@
            + "' was not found in the input, use option `--list/-l` to find out all available functions"@,
    }
}

impl SelectionError {
    /// The message for the user.
    pub fn message(&self) -> (res: String)
        ensures
            res@ == selection_message(*self),
    {
        match self {
            SelectionError::InvalidPattern(error) => error.message(),
            SelectionError::NoMatch { expected } => {
                let mut res = "No function matching regex '".to_string();
                res.append(expected.as_str());
                res.append(
                    "' was found in the input, use option `--list/-l` to find out all available functions",
                );
                res
            },
            SelectionError::NotFound { expected } => {
                let mut res = "Function '".to_string();
                res.append(expected.as_str());
                res.append(
                    "' was not found in the input, use option `--list/-l` to find out all available functions",
                );
                res
            },
        }
    }
}

/// The name of the function at a position as it is shown.
pub open spec fn shown_function(
    entries: Seq<(Seq<char>, Vec<Pass>)>,
    should_demangle: bool,
    outcomes: Seq<Option<Vec<u8>>>,
    i: int,
) -> Seq<char> {
    demangled_text(entries[i].0, should_demangle, written_at(outcomes, i))
}

/// A function is one that the user asks for: by a regular expression or by its name.
pub open spec fn is_wanted(shown: Seq<char>, expected: Seq<char>, extended_regex: bool) -> bool {
    if extended_regex {
        regex_matches(expected, shown)
    } else {
        shown == expected
    }
}

/// Picks the first function that the user asks for: its position, and its name as it is shown.
/// `outcomes` is what the demangler has written for the name of each function, where it was run.
pub fn select_function(
    results: &OptPipelineResults,
    expected: &str,
    extended_regex: bool,
    should_demangle: bool,
    outcomes: &Vec<Option<Vec<u8>>>,
) -> (res: Result<(usize, String), SelectionError>)
    ensures
        match res {
            Ok((i, name)) => {
                &&& extended_regex ==> regex_compiles(expected@)
                &&& i < results@.len()
                &&& name@ == shown_function(results@, should_demangle, outcomes@, i as int)
                &&& is_wanted(name@, expected@, extended_regex)
                &&& forall|j: int|
                    0 <= j < i ==> !is_wanted(
                        #[trigger] shown_function(results@, should_demangle, outcomes@, j),
                        expected@,
                        extended_regex,
                    )
            },
            Err(SelectionError::InvalidPattern(error)) => {
                &&& extended_regex
                &&& !regex_compiles(expected@)
                &&& is_error_of(error, expected@)
            },
            Err(SelectionError::NoMatch { expected: pattern }) => {
                &&& extended_regex
                &&& regex_compiles(expected@)
                &&& pattern@ == expected@
                &&& forall|j: int|
                    0 <= j < results@.len() ==> !is_wanted(
                        #[trigger] shown_function(results@, should_demangle, outcomes@, j),
                        expected@,
                        extended_regex,
                    )
            },
            Err(SelectionError::NotFound { expected: name }) => {
                &&& !extended_regex
                &&& name@ == expected@
                &&& forall|j: int|
                    0 <= j < results@.len() ==> !is_wanted(
                        #[trigger] shown_function(results@, should_demangle, outcomes@, j),
                        expected@,
                        extended_regex,
                    )
            },
        },
{
    let regex = if extended_regex {
        match compile_pattern(expected) {
            Ok(regex) => Some(regex),
            Err(error) => {
                return Err(SelectionError::InvalidPattern(error));
            },
        }
    } else {
        None
    };
    let len: usize = results.len();
    let mut i: usize = 0;
    while i < len
        invariant
            len == results@.len(),
            i <= len,
            extended_regex ==> regex_compiles(expected@),
            match regex {
                Some(regex) => extended_regex && regex_source(regex) == expected@,
                None => !extended_regex,
            },
            forall|j: int|
                0 <= j < i ==> !is_wanted(
                    #[trigger] shown_function(results@, should_demangle, outcomes@, j),
                    expected@,
                    extended_regex,
                ),
        decreases len - i,
    {
        let name = if i < outcomes.len() {
            demangle_text(results.name(i), should_demangle, &outcomes[i])
        } else {
            demangle_text(results.name(i), should_demangle, &None)
        };
        assert(name@ == shown_function(results@, should_demangle, outcomes@, i as int));
        let found = match &regex {
            Some(regex) => is_match(regex, name.as_str()),
            None => same_text(name.as_str(), expected),
        };
        if found {
            return Ok((i, name));
        }
        i += 1;
    }
    if extended_regex {
        Err(SelectionError::NoMatch { expected: expected.to_string() })
    } else {
        Err(SelectionError::NotFound { expected: expected.to_string() })
    }
}

/// The names at some positions.
pub open spec fn names_at<A>(entries: Seq<(Seq<char>, A)>, order: Seq<usize>) -> Seq<Seq<char>> {
    order.map_values(|i: usize| entries[i as int].0)
}

/// All positions, each of them once, in the ascending order of the names that stand there.
pub open spec fn is_name_order<A>(entries: Seq<(Seq<char>, A)>, order: Seq<usize>) -> bool {
    &&& order.len() == entries.len()
    &&& order.no_duplicates()
    &&& forall|i: usize| #[trigger] order.contains(i) <==> i < entries.len()
    &&& ascending(names_at(entries, order))
}

/// The positions of all entries in the ascending order of their names.
pub open spec fn name_order<A>(entries: Seq<(Seq<char>, A)>) -> Seq<usize> {
    choose|order: Seq<usize>| is_name_order(entries, order)
}

/// Puts the functions in the order of their names.
pub fn function_order(results: &OptPipelineResults) -> (res: Vec<usize>)
    ensures
        res@ == name_order(results@),
        is_name_order(results@, res@),
        distinct_names(results@),
{
    let len: usize = results.len();
    let mut names: Vec<String> = Vec::new();
    let mut i: usize = 0;
    while i < len
        invariant
            len == results@.len(),
            i <= len,
            names@.len() == i,
            forall|j: int| 0 <= j < i ==> (#[trigger] names@[j])@ == results@[j].0,
        decreases len - i,
    {
        names.push(results.name(i).to_string());
        i += 1;
    }
    let ghost unsorted = string_texts(names@);
    let sorted = sort_names(names);
    let ghost texts = string_texts(sorted@);
    proof {
        assert forall|j: int, k: int| 0 <= j < unsorted.len() && 0 <= k < unsorted.len() && j
            != k implies unsorted[j] != unsorted[k] by {
            assert(unsorted[j] == results@[j].0);
            assert(unsorted[k] == results@[k].0);
            assert(results@[j].0 != results@[k].0);
        }
        lemma_same_names(texts, unsorted);
    }
    let mut res: Vec<usize> = Vec::new();
    let mut i: usize = 0;
    while i < len
        invariant
            len == results@.len(),
            distinct_names(results@),
            i <= len,
            texts == string_texts(sorted@),
            sorted@.len() == len,
            unsorted.len() == len,
            forall|j: int| 0 <= j < len ==> (#[trigger] unsorted[j]) == results@[j].0,
            forall|name: Seq<char>| #[trigger] texts.contains(name) <==> unsorted.contains(name),
            res@.len() == i,
            forall|j: int|
                0 <= j < i ==> (#[trigger] res@[j]) < results@.len() && results@[res@[j] as int].0
                    == texts[j],
        decreases len - i,
    {
        let name = sorted[i].as_str();
        proof {
            assert(texts[i as int] == name@);
            assert(texts.contains(name@));
            assert(unsorted.contains(name@));
            let k = choose|k: int| 0 <= k < unsorted.len() && unsorted[k] == name@;
            assert(results@[k].0 == name@);
            lemma_entry_position(results@, k);
        }
        let at = results.position(name).unwrap();
        res.push(at);
        i += 1;
    }
    proof {
        assert(names_at(results@, res@) =~= texts);
        assert forall|j: int, k: int| 0 <= j < res@.len() && 0 <= k < res@.len() && j
            != k implies res@[j] != res@[k] by {
            assert(texts[j] != texts[k]);
        }
        assert forall|k: usize| k < results@.len() implies #[trigger] res@.contains(k) by {
            let name = results@[k as int].0;
            assert(unsorted[k as int] == name);
            assert(unsorted.contains(name));
            assert(texts.contains(name));
            let j = choose|j: int| 0 <= j < texts.len() && texts[j] == name;
            assert(results@[res@[j] as int].0 == name);
            lemma_entry_position(results@, k as int);
            lemma_entry_position(results@, res@[j] as int);
        }
        assert(is_name_order(results@, res@));
        lemma_one_name_order(results@, res@, name_order(results@));
    }
    res
}

/// The names at all positions are all names.
proof fn lemma_all_names<A>(entries: Seq<(Seq<char>, A)>, order: Seq<usize>)
    requires
        distinct_names(entries),
        is_name_order(entries, order),
        entries.len() <= usize::MAX,
    ensures
        names_at(entries, order).no_duplicates(),
        forall|name: Seq<char>| #[trigger]
            names_at(entries, order).contains(name) <==> entry_names(entries).contains(name),
{
    let names = names_at(entries, order);
    assert forall|i: int| 0 <= i < order.len() implies (#[trigger] order[i]) < entries.len() by {
        assert(order.contains(order[i]));
    }
    assert forall|i: int, j: int| 0 <= i < names.len() && 0 <= j < names.len() && i
        != j implies names[i] != names[j] by {
        assert(order[i] != order[j]);
        lemma_entry_position(entries, order[i] as int);
        lemma_entry_position(entries, order[j] as int);
    }
    assert forall|name: Seq<char>| #[trigger] names.contains(name) <==> entry_names(
        entries,
    ).contains(name) by {
        if names.contains(name) {
            let i = choose|i: int| 0 <= i < names.len() && names[i] == name;
            assert(entry_names(entries)[order[i] as int] == name);
        }
        if entry_names(entries).contains(name) {
            let k = choose|k: int| 0 <= k < entries.len() && entry_names(entries)[k] == name;
            assert(order.contains(k as usize));
            let i = choose|i: int| 0 <= i < order.len() && order[i] == k as usize;
            assert(names[i] == name);
        }
    }
}

/// There is one order of the functions by their names.
pub proof fn lemma_one_name_order<A>(
    entries: Seq<(Seq<char>, A)>,
    first: Seq<usize>,
    second: Seq<usize>,
)
    requires
        distinct_names(entries),
        is_name_order(entries, first),
        is_name_order(entries, second),
        entries.len() <= usize::MAX,
    ensures
        first == second,
{
    let a = names_at(entries, first);
    let b = names_at(entries, second);
    lemma_all_names(entries, first);
    lemma_all_names(entries, second);
    lemma_one_ascending_order(a, b);
    assert(first.len() == a.len() && second.len() == b.len());
    assert forall|i: int| 0 <= i < first.len() implies first[i] == second[i] by {
        assert(first.contains(first[i]));
        assert(second.contains(second[i]));
        assert(a[i] == entries[first[i] as int].0);
        assert(b[i] == entries[second[i] as int].0);
        lemma_entry_position(entries, first[i] as int);
        lemma_entry_position(entries, second[i] as int);
    }
    assert(first =~= second);
}

/// Without demangling and regular expressions the one function that is wanted is the one of that
/// name.
pub proof fn lemma_wanted_by_name(
    entries: Seq<(Seq<char>, Vec<Pass>)>,
    outcomes: Seq<Option<Vec<u8>>>,
    expected: Seq<char>,
    i: int,
)
    requires
        distinct_names(entries),
        0 <= i < entries.len(),
    ensures
        is_wanted(shown_function(entries, false, outcomes, i), expected, false)
            <==> entry_position(entries, expected) == Some(i),
{
    lemma_entry_position(entries, i);
    if entry_position(entries, expected) == Some(i) {
        assert(entries[i].0 == expected);
    }
}

/// A function is wanted by its name as it is shown: where this is the one that the user gives, or
/// where the regular expression that the user gives matches it. It is shown as it is, unless it is
/// to be demangled and the demangler has written another name for it.
pub proof fn lemma_wanted_as_shown(
    entries: Seq<(Seq<char>, Vec<Pass>)>,
    should_demangle: bool,
    outcomes: Seq<Option<Vec<u8>>>,
    expected: Seq<char>,
    i: int,
)
    requires
        0 <= i < entries.len(),
    ensures
        ({
            let shown = shown_function(entries, should_demangle, outcomes, i);
            &&& is_wanted(shown, expected, false) <==> shown == expected
            &&& is_wanted(shown, expected, true) <==> regex_matches(expected, shown)
            &&& !should_demangle || i >= outcomes.len() || outcomes[i] is None ==> shown
                == entries[i].0
            &&& should_demangle && i < outcomes.len() && outcomes[i] is Some ==> shown == decoded(
                outcomes[i]->0@,
            )
        }),
{
}

/// A message tells what the user has asked for, whatever it is, between two texts that are the
/// same for all requests of that kind.
pub proof fn lemma_selection_messages() -> (parts: Seq<Seq<char>>)
    ensures
        parts.len() == 5,
        forall|error: PatternError| #[trigger]
            selection_message(SelectionError::InvalidPattern(error)) == parts[0] + error.pattern@,
        forall|expected: String| #[trigger]
            selection_message(SelectionError::NoMatch { expected }) == parts[1] + expected@
                + parts[2],
        forall|expected: String| #[trigger]
            selection_message(SelectionError::NotFound { expected }) == parts[3] + expected@
                + parts[4],
{
    seq![
        "Invalid regex pattern: "@,
        "No function matching regex '"@,
        "' was found in the input, use option `--list/-l` to find out all available functions"@,
        "Function '"@,
        "' was not found in the input, use option `--list/-l` to find out all available functions"@,
    ]
}

} // verus!
