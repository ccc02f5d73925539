//! Cuts the dump of a pass into the functions that it shows.
use crate::dump::PassDump;
use crate::pattern::{is_machine_end, is_match, regex_source, FUNCTION_END, MACHINE_FUNCTION_END};
use crate::table::{
    distinct_names, entry_position, lemma_mapped_with_entry, lemma_with_entry_distinct,
    mapped_entries, with_entry, FunctionTable,
};
use crate::text::{
    find, lines, lines_of, split_first, starts_with, string_texts, strip_prefix, trim, trim_text,
};
use regex::Regex;
use vstd::prelude::*;
use vstd::string::*;

verus! {

/// The dump of a pass, cut into functions.
pub struct SplitPassDump {
    pub header: String,
    pub machine: bool,
    pub functions: FunctionTable<Vec<String>>,
}

/// What a `SplitPassDump` holds.
#[verifier::ext_equal]
pub struct SplitModel {
    pub header: Seq<char>,
    pub machine: bool,
    pub functions: Seq<(Seq<char>, Seq<Seq<char>>)>,
}

/// The lines of each function in a table.
pub open spec fn function_lines(
    entries: Seq<(Seq<char>, Vec<String>)>,
) -> Seq<(Seq<char>, Seq<Seq<char>>)> {
    mapped_entries(entries, |lines: Vec<String>| string_texts(lines@))
}

impl View for SplitPassDump {
    type V = SplitModel;

    open spec fn view(&self) -> SplitModel {
        SplitModel {
            header: self.header@,
            machine: self.machine,
            functions: function_lines(self.functions@),
        }
    }
}

/// The name under which the lines of a loop stand until its function is known.
pub open spec fn loop_name() -> Seq<char> {
    "<loop>"@
}

/// A line that opens a function in IR.
pub open spec fn is_ir_function(line: Seq<char>) -> bool {
    ||| "define "@.is_prefix_of(line)
    ||| "func.func "@.is_prefix_of(trim(line))
    ||| "tt.func"@.is_prefix_of(trim(line))
}

/// A line that opens a function in IR, but not by `define`.
pub open spec fn is_dialect_function(line: Seq<char>) -> bool {
    is_ir_function(line) && !"define "@.is_prefix_of(line)
}

/// A line that opens a function in machine code.
pub open spec fn is_machine_function(line: Seq<char>) -> bool {
    "# Machine code for function "@.is_prefix_of(line)
}

/// A line that opens a loop.
pub open spec fn is_preheader(line: Seq<char>) -> bool {
    "; Preheader:"@.is_prefix_of(line)
}

/// The name in a line that opens a function in IR: from the first `@` to the next bracket.
pub open spec fn ir_function_name(line: Seq<char>) -> Option<Seq<char>> {
    match find(line, "@"@) {
        Some(at) => {
            let rest = line.skip(at + 1);
            match find(rest, "("@) {
                Some(end) => Some(rest.take(end)),
                None => None,
            }
        },
        None => None,
    }
}

/// The name in a line that opens a function in machine code: up to the first colon.
pub open spec fn machine_function_name(line: Seq<char>) -> Option<Seq<char>> {
    let rest = line.skip("# Machine code for function "@.len() as int);
    match find(rest, ":"@) {
        Some(end) => Some(rest.take(end)),
        None => None,
    }
}

/// A line that ends the open function.
pub open spec fn ends_function(line: Seq<char>, machine: bool) -> bool {
    if machine {
        is_machine_end(trim(line))
    } else {
        trim(line) == "}"@
    }
}

/// How far a dump has been cut: the finished functions, the open one, and whether the function
/// that was opened last is one in machine code.
#[verifier::ext_equal]
pub struct SplitState {
    pub done: Seq<(Seq<char>, Seq<Seq<char>>)>,
    pub open: Option<(Seq<char>, Seq<Seq<char>>)>,
    pub machine: bool,
}

/// Before the first line.
pub open spec fn split_start() -> SplitState {
    SplitState { done: Seq::empty(), open: None, machine: false }
}

/// The finished functions and the open one. A function that comes again replaces the earlier one.
pub open spec fn with_open(
    done: Seq<(Seq<char>, Seq<Seq<char>>)>,
    open: Option<(Seq<char>, Seq<Seq<char>>)>,
) -> Seq<(Seq<char>, Seq<Seq<char>>)> {
    match open {
        Some((name, lines)) => with_entry(done, name, lines),
        None => done,
    }
}

/// The functions when no more lines come.
pub open spec fn all_done(state: SplitState) -> Seq<(Seq<char>, Seq<Seq<char>>)> {
    with_open(state.done, state.open)
}

/// The state after one more line. It is `None` where the name of a function cannot be read.
pub open spec fn split_step(state: SplitState, line: Seq<char>) -> Option<SplitState> {
    if is_ir_function(line) {
        match ir_function_name(line) {
            Some(name) => Some(
                SplitState {
                    done: all_done(state),
                    open: Some((name, seq![line])),
                    machine: false,
                },
            ),
            None => None,
        }
    } else if is_machine_function(line) {
        match machine_function_name(line) {
            Some(name) => Some(
                SplitState { done: all_done(state), open: Some((name, seq![line])), machine: true },
            ),
            None => None,
        }
    } else if is_preheader(line) {
        match state.open {
            Some(_) => Some(state),
            None => Some(SplitState { open: Some((loop_name(), seq![line])), ..state }),
        }
    } else {
        match state.open {
            Some((name, lines)) => {
                let with_line = SplitState { open: Some((name, lines.push(line))), ..state };
                if ends_function(line, state.machine) {
                    Some(SplitState { done: all_done(with_line), open: None, ..state })
                } else {
                    Some(with_line)
                }
            },
            None => Some(state),
        }
    }
}

/// The functions that come out of `state` when `rest` is still to be read.
pub open spec fn split_from(
    state: SplitState,
    rest: Seq<Seq<char>>,
) -> Option<Seq<(Seq<char>, Seq<Seq<char>>)>>
    decreases rest.len(),
{
    if rest.len() == 0 {
        Some(all_done(state))
    } else {
        match split_step(state, rest[0]) {
            Some(next) => split_from(next, rest.drop_first()),
            None => None,
        }
    }
}

/// The functions that the text of a dump shows, with their lines.
/// It is `None` where the name of a function cannot be read.
pub open spec fn split_functions(dump: Seq<char>) -> Option<Seq<(Seq<char>, Seq<Seq<char>>)>> {
    split_from(split_start(), lines(dump))
}

/// What an open function holds.
spec fn open_model(open: Option<(String, Vec<String>)>) -> Option<(Seq<char>, Seq<Seq<char>>)> {
    match open {
        Some((name, lines)) => Some((name@, string_texts(lines@))),
        None => None,
    }
}

/// Adds the open function to the finished ones.
fn finish_function(
    functions: &mut FunctionTable<Vec<String>>,
    open: Option<(String, Vec<String>)>,
)
    requires
        distinct_names(old(functions)@),
    ensures
        distinct_names(final(functions)@),
        function_lines(final(functions)@) == with_open(
            function_lines(old(functions)@),
            open_model(open),
        ),
{
    if let Some((name, lines)) = open {
        proof {
            lemma_mapped_with_entry(
                functions@,
                |lines: Vec<String>| string_texts(lines@),
                name@,
                lines,
            );
        }
        functions.insert(name, lines);
    }
}

/// Whether a line opens a function in IR.
pub(crate) fn is_ir_function_line(line: &str) -> (res: bool)
    ensures
        res == is_ir_function(line@),
{
    let trimmed = trim_text(line);
    starts_with(line, "define ") || starts_with(trimmed, "func.func ") || starts_with(
        trimmed,
        "tt.func",
    )
}

/// Reads the name in a line that opens a function in IR.
pub(crate) fn read_ir_function_name(line: &str) -> (res: Option<&str>)
    ensures
        match res {
            Some(name) => ir_function_name(line@) == Some(name@),
            None => ir_function_name(line@) is None,
        },
{
    proof {
        reveal_strlit("@");
        reveal_strlit("(");
    }
    match split_first(line, "@") {
        Some((_, rest)) => match split_first(rest, "(") {
            Some((name, _)) => Some(name),
            None => None,
        },
        None => None,
    }
}

/// Reads the name in a line that opens a function in machine code.
fn read_machine_function_name(line: &str) -> (res: Option<&str>)
    requires
        is_machine_function(line@),
    ensures
        match res {
            Some(name) => machine_function_name(line@) == Some(name@),
            None => machine_function_name(line@) is None,
        },
{
    proof {
        reveal_strlit(":");
    }
    match strip_prefix(line, "# Machine code for function ") {
        Some(rest) => match split_first(rest, ":") {
            Some((name, _)) => Some(name),
            None => None,
        },
        None => None,
    }
}

/// A list with a single line.
fn first_line(line: &str) -> (res: Vec<String>)
    ensures
        string_texts(res@) == seq![line@],
{
    let mut res: Vec<String> = Vec::new();
    res.push(line.to_string());
    assert(string_texts(res@) =~= seq![line@]);
    res
}

/// Cuts the dump of a pass into functions.
/// It is `None` where the name of a function cannot be read.
pub(crate) fn read_functions(
    dump: &PassDump,
    function_end: &Regex,
    machine_function_end: &Regex,
) -> (res: Option<SplitPassDump>)
    requires
        regex_source(*function_end) == FUNCTION_END@,
        regex_source(*machine_function_end) == MACHINE_FUNCTION_END@,
    ensures
        match res {
            Some(split) => {
                &&& split_functions(dump.lines@) == Some(split@.functions)
                &&& split.header@ == dump.header@
                &&& split.machine == dump.machine
                &&& distinct_names(split.functions@)
            },
            None => split_functions(dump.lines@) is None,
        },
{
    let all = lines_of(dump.lines.as_str());
    let ghost texts = lines(dump.lines@);
    let mut functions: FunctionTable<Vec<String>> = FunctionTable::new();
    let mut func: Option<(String, Vec<String>)> = None;
    let mut is_machine_function_open = false;
    let mut i: usize = 0;
    proof {
        assert(texts.skip(0) =~= texts);
        assert(function_lines(functions@) =~= split_start().done);
    }
    while i < all.len()
        invariant
            regex_source(*function_end) == FUNCTION_END@,
            regex_source(*machine_function_end) == MACHINE_FUNCTION_END@,
            texts == lines(dump.lines@),
            all@.len() == texts.len(),
            forall|j: int| 0 <= j < all@.len() ==> (#[trigger] all@[j])@ == texts[j],
            i <= all@.len(),
            distinct_names(functions@),
            split_from(
                SplitState {
                    done: function_lines(functions@),
                    open: open_model(func),
                    machine: is_machine_function_open,
                },
                texts.skip(i as int),
            ) == split_functions(dump.lines@),
        decreases all@.len() - i,
    {
        let line = all[i];
        let ghost state = SplitState {
            done: function_lines(functions@),
            open: open_model(func),
            machine: is_machine_function_open,
        };
        proof {
            let rest = texts.skip(i as int);
            assert(rest[0] == line@);
            assert(rest.drop_first() =~= texts.skip(i + 1));
        }
        if is_ir_function_line(line) {
            finish_function(&mut functions, func);
            match read_ir_function_name(line) {
                Some(name) => {
                    func = Some((name.to_string(), first_line(line)));
                },
                None => {
                    return None;
                },
            }
            is_machine_function_open = false;
        } else if starts_with(line, "# Machine code for function ") {
            finish_function(&mut functions, func);
            match read_machine_function_name(line) {
                Some(name) => {
                    func = Some((name.to_string(), first_line(line)));
                },
                None => {
                    return None;
                },
            }
            is_machine_function_open = true;
        } else if starts_with(line, "; Preheader:") {
            if func.is_none() {
                func = Some(("<loop>".to_string(), first_line(line)));
            }
        } else if let Some((name, mut lines)) = func {
            let ghost before = string_texts(lines@);
            lines.push(line.to_string());
            proof {
                assert(string_texts(lines@) =~= before.push(line@));
            }
            let trimmed = trim_text(line);
            let ends = if is_machine_function_open {
                is_match(machine_function_end, trimmed)
            } else {
                is_match(function_end, trimmed)
            };
            if ends {
                finish_function(&mut functions, Some((name, lines)));
                func = None;
            } else {
                func = Some((name, lines));
            }
        } else {
            func = None;
        }
        i += 1;
    }
    proof {
        assert(texts.skip(i as int) =~= Seq::<Seq<char>>::empty());
    }
    finish_function(&mut functions, func);
    Some(SplitPassDump { header: dump.header.clone(), machine: dump.machine, functions })
}

/// A line that opens a function or a loop, under the name of it.
pub open spec fn opens(line: Seq<char>, name: Seq<char>) -> bool {
    if is_ir_function(line) {
        ir_function_name(line) == Some(name)
    } else if is_machine_function(line) {
        machine_function_name(line) == Some(name)
    } else {
        is_preheader(line) && name == loop_name()
    }
}

/// A line that opens a function.
pub open spec fn opens_function(line: Seq<char>) -> bool {
    is_ir_function(line) || is_machine_function(line)
}

/// The lines from `start` to `end`, without the lines behind the first one that open a loop.
pub open spec fn lines_between(all: Seq<Seq<char>>, start: int, end: int) -> Seq<Seq<char>>
    decreases end - start,
{
    if end <= start + 1 {
        seq![all[start]]
    } else {
        let before = lines_between(all, start, end - 1);
        if is_preheader(all[end - 1]) {
            before
        } else {
            before.push(all[end - 1])
        }
    }
}

/// The line at `start` opens the function or loop, and none behind it, up to `end`, opens another
/// function. A function in IR is cut as IR, one in machine code as machine code.
pub open spec fn is_span(
    all: Seq<Seq<char>>,
    start: int,
    end: int,
    name: Seq<char>,
    machine: bool,
) -> bool {
    &&& 0 <= start < end <= all.len()
    &&& opens(all[start], name)
    &&& opens_function(all[start]) ==> machine == !is_ir_function(all[start])
    &&& forall|j: int| start < j < end ==> !opens_function(#[trigger] all[j])
}

/// The line at `j` ends the function that the line at `start` opens.
pub open spec fn ends_at(all: Seq<Seq<char>>, start: int, j: int, machine: bool) -> bool {
    start < j && !is_preheader(all[j]) && ends_function(all[j], machine)
}

/// A function as it is cut out of the lines of a dump: from the line that opens it to the first
/// line that ends it, or to the next line that opens a function, or to the last line.
pub open spec fn is_cut(
    all: Seq<Seq<char>>,
    function: (Seq<char>, Seq<Seq<char>>),
    start: int,
    end: int,
    machine: bool,
) -> bool {
    &&& is_span(all, start, end, function.0, machine)
    &&& function.1 == lines_between(all, start, end)
    &&& forall|j: int| j < end - 1 ==> !#[trigger] ends_at(all, start, j, machine)
    &&& end == all.len() || opens_function(all[end]) || ends_at(all, start, end - 1, machine)
}

/// A function that is cut out of the lines of a dump.
pub open spec fn is_function(function: (Seq<char>, Seq<Seq<char>>), all: Seq<Seq<char>>) -> bool {
    exists|start: int, end: int, machine: bool| is_cut(all, function, start, end, machine)
}

/// Functions without repeated names, each cut out of the lines of a dump.
pub open spec fn are_functions(
    functions: Seq<(Seq<char>, Seq<Seq<char>>)>,
    all: Seq<Seq<char>>,
) -> bool {
    &&& distinct_names(functions)
    &&& forall|i: int| 0 <= i < functions.len() ==> is_function(#[trigger] functions[i], all)
}

/// A function that is still open before the line at `at`.
spec fn is_open(
    all: Seq<Seq<char>>,
    function: (Seq<char>, Seq<Seq<char>>),
    start: int,
    at: int,
    machine: bool,
) -> bool {
    &&& is_span(all, start, at, function.0, machine)
    &&& function.1 == lines_between(all, start, at)
    &&& forall|j: int| j < at ==> !#[trigger] ends_at(all, start, j, machine)
}

spec fn is_split_state(state: SplitState, all: Seq<Seq<char>>, at: int) -> bool {
    &&& are_functions(state.done, all)
    &&& state.open is Some ==> exists|start: int| is_open(all, state.open->0, start, at, state.machine)
}

/// The open function can be finished where it can be cut.
proof fn lemma_all_done(state: SplitState, all: Seq<Seq<char>>)
    requires
        are_functions(state.done, all),
        state.open is Some ==> is_function(state.open->0, all),
    ensures
        are_functions(all_done(state), all),
{
    if let Some((name, lines)) = state.open {
        lemma_with_entry_distinct(state.done, name, lines);
        let after = with_entry(state.done, name, lines);
        assert forall|i: int| 0 <= i < after.len() implies is_function(
            #[trigger] after[i],
            all,
        ) by {
            if i < state.done.len() {
                assert(is_function(state.done[i], all));
            }
        }
    }
}

proof fn lemma_split_step(state: SplitState, all: Seq<Seq<char>>, at: int)
    requires
        is_split_state(state, all, at),
        0 <= at < all.len(),
    ensures
        split_step(state, all[at]) is Some ==> is_split_state(
            split_step(state, all[at])->0,
            all,
            at + 1,
        ),
{
    let line = all[at];
    if let Some(next) = split_step(state, line) {
        if opens_function(line) {
            if state.open is Some {
                let start = choose|start: int|
                    is_open(all, state.open->0, start, at, state.machine);
                assert(is_cut(all, state.open->0, start, at, state.machine));
            }
            lemma_all_done(state, all);
            assert(is_open(all, next.open->0, at, at + 1, next.machine));
        } else if state.open is None {
            if is_preheader(line) {
                assert(is_open(all, next.open->0, at, at + 1, next.machine));
            }
        } else {
            let (name, lines) = state.open->0;
            let start = choose|start: int| is_open(all, state.open->0, start, at, state.machine);
            if is_preheader(line) {
                assert(is_open(all, next.open->0, start, at + 1, state.machine));
            } else {
                let more = (name, lines.push(line));
                let with_line = SplitState { open: Some(more), ..state };
                if ends_function(line, state.machine) {
                    assert(ends_at(all, start, at, state.machine));
                    assert(is_cut(all, more, start, at + 1, state.machine));
                    lemma_all_done(with_line, all);
                } else {
                    assert(next == with_line);
                    assert(is_open(all, next.open->0, start, at + 1, next.machine));
                }
            }
        }
    }
}

proof fn lemma_split_from(state: SplitState, all: Seq<Seq<char>>, at: int)
    requires
        is_split_state(state, all, at),
        0 <= at <= all.len(),
    ensures
        split_from(state, all.skip(at)) is Some ==> are_functions(
            split_from(state, all.skip(at))->0,
            all,
        ),
    decreases all.len() - at,
{
    let rest = all.skip(at);
    if at == all.len() {
        if state.open is Some {
            let start = choose|start: int| is_open(all, state.open->0, start, at, state.machine);
            assert(is_cut(all, state.open->0, start, at, state.machine));
        }
        lemma_all_done(state, all);
    } else if let Some(next) = split_step(state, rest[0]) {
        assert(rest.drop_first() =~= all.skip(at + 1));
        lemma_split_step(state, all, at);
        lemma_split_from(next, all, at + 1);
    }
}

/// The functions of a dump are cut out of its lines, and no two have the same name.
pub proof fn lemma_functions_of_dump(dump: Seq<char>, functions: Seq<(Seq<char>, Seq<Seq<char>>)>)
    requires
        split_functions(dump) == Some(functions),
    ensures
        are_functions(functions, lines(dump)),
{
    let all = lines(dump);
    assert(all.skip(0) =~= all);
    lemma_split_from(split_start(), all, 0);
}

/// A function begins with the line that opens it.
pub proof fn lemma_lines_between(all: Seq<Seq<char>>, start: int, end: int)
    ensures
        lines_between(all, start, end).len() > 0,
        lines_between(all, start, end)[0] == all[start],
    decreases end - start,
{
    if end > start + 1 {
        lemma_lines_between(all, start, end - 1);
    }
}

proof fn lemma_with_entry_names<T>(
    entries: Seq<(Seq<char>, T)>,
    name: Seq<char>,
    value: T,
    other: Seq<char>,
)
    requires
        other == name || entry_position(entries, other) is Some,
    ensures
        entry_position(with_entry(entries, name, value), other) is Some,
{
    let after = with_entry(entries, name, value);
    if other == name {
        let at = match entry_position(entries, name) {
            Some(i) => i,
            None => entries.len() as int,
        };
        assert(after[at].0 == name);
    } else {
        let i = entry_position(entries, other)->0;
        assert(after[i].0 == other);
    }
}

proof fn lemma_name_kept(state: SplitState, line: Seq<char>, name: Seq<char>)
    requires
        split_step(state, line) is Some,
        entry_position(all_done(state), name) is Some || opens_function(line) && opens(line, name),
    ensures
        entry_position(all_done(split_step(state, line)->0), name) is Some,
{
    let next = split_step(state, line)->0;
    if opens_function(line) {
        let (own, lines) = next.open->0;
        lemma_with_entry_names(all_done(state), own, lines, name);
    } else {
        match (state.open, next.open) {
            (None, Some((own, lines))) => {
                lemma_with_entry_names(state.done, own, lines, name);
            },
            (Some((own, lines)), _) => {
                let before = with_entry(state.done, own, lines);
                let k = entry_position(before, name)->0;
                assert(before[k].0 == name);
                if name != own {
                    assert(state.done[k].0 == name);
                }
                lemma_with_entry_names(state.done, own, lines.push(line), name);
            },
            _ => {},
        }
    }
}

proof fn lemma_name_reached(state: SplitState, rest: Seq<Seq<char>>, i: int, name: Seq<char>)
    requires
        split_from(state, rest) is Some,
        entry_position(all_done(state), name) is Some || 0 <= i < rest.len() && opens_function(
            rest[i],
        ) && opens(rest[i], name),
    ensures
        entry_position(split_from(state, rest)->0, name) is Some,
    decreases rest.len(),
{
    if rest.len() > 0 {
        let next = split_step(state, rest[0])->0;
        let tail = rest.drop_first();
        if entry_position(all_done(state), name) is Some || i == 0 {
            lemma_name_kept(state, rest[0], name);
        } else {
            assert(tail[i - 1] == rest[i]);
        }
        lemma_name_reached(next, tail, i - 1, name);
    }
}

/// Every function that a line of a dump opens is among the functions of the dump.
pub proof fn lemma_no_function_lost(
    dump: Seq<char>,
    functions: Seq<(Seq<char>, Seq<Seq<char>>)>,
    i: int,
    name: Seq<char>,
)
    requires
        split_functions(dump) == Some(functions),
        0 <= i < lines(dump).len(),
        opens_function(lines(dump)[i]),
        opens(lines(dump)[i], name),
    ensures
        entry_position(functions, name) is Some,
{
    lemma_name_reached(split_start(), lines(dump), i, name);
}

/// A line that opens a function whose name cannot be read.
pub open spec fn is_nameless(line: Seq<char>) -> bool {
    if is_ir_function(line) {
        ir_function_name(line) is None
    } else {
        is_machine_function(line) && machine_function_name(line) is None
    }
}

proof fn lemma_split_from_readable(state: SplitState, rest: Seq<Seq<char>>)
    ensures
        split_from(state, rest) is Some <==> forall|i: int|
            0 <= i < rest.len() ==> !is_nameless(#[trigger] rest[i]),
    decreases rest.len(),
{
    if rest.len() > 0 {
        let tail = rest.drop_first();
        assert(split_step(state, rest[0]) is None <==> is_nameless(rest[0]));
        if let Some(next) = split_step(state, rest[0]) {
            lemma_split_from_readable(next, tail);
            if split_from(next, tail) is Some {
                assert forall|i: int| 0 <= i < rest.len() implies !is_nameless(
                    #[trigger] rest[i],
                ) by {
                    if i > 0 {
                        assert(tail[i - 1] == rest[i]);
                    }
                }
            } else {
                let i = choose|i: int| 0 <= i < tail.len() && is_nameless(#[trigger] tail[i]);
                assert(rest[i + 1] == tail[i]);
            }
        }
    }
}

/// The functions of a dump can be read if and only if each line that opens one names it.
pub proof fn lemma_functions_readable(dump: Seq<char>)
    ensures
        split_functions(dump) is Some <==> forall|i: int|
            0 <= i < lines(dump).len() ==> !is_nameless(#[trigger] lines(dump)[i]),
{
    lemma_split_from_readable(split_start(), lines(dump));
}

} // verus!
