//! How the functions of a dump depend on its lines.
use crate::pattern::{is_ascii_machine_end, is_ascii_name};
use crate::split::{
    all_done, ends_function, ir_function_name, is_ir_function, is_machine_function, is_preheader,
    loop_name, machine_function_name, opens, opens_function, split_from, split_start, split_step,
    SplitState,
};
use crate::table::{
    distinct_names, entry_position, lemma_with_entry_distinct, lemma_with_entry_found, with_entry,
};
use crate::text::{
    find, first_at, is_blank, is_space, lemma_find_at, lemma_trim_end, lemma_trim_end_parts,
    lemma_trim_start, lemma_trim_takes_white_space, occurs_at, trim,
};
use vstd::prelude::*;
use vstd::string::*;
use vstd::utf8::is_ascii_chars;

verus! {

/// The functions in the lines of a dump. It is `None` where the name of one cannot be read.
pub open spec fn functions_in(all: Seq<Seq<char>>) -> Option<Seq<(Seq<char>, Seq<Seq<char>>)>> {
    split_from(split_start(), all)
}

/// The lines of the function of a name, if there is one.
pub open spec fn lines_under(
    functions: Seq<(Seq<char>, Seq<Seq<char>>)>,
    name: Seq<char>,
) -> Option<Seq<Seq<char>>> {
    match entry_position(functions, name) {
        Some(i) => Some(functions[i].1),
        None => None,
    }
}

/// What stands under a name in the first list, or else in the second.
pub open spec fn either_lines(
    first: Option<Seq<Seq<char>>>,
    second: Option<Seq<Seq<char>>>,
) -> Option<Seq<Seq<char>>> {
    if first is Some {
        first
    } else {
        second
    }
}

/// The state behind some lines.
spec fn run(state: SplitState, all: Seq<Seq<char>>) -> Option<SplitState>
    decreases all.len(),
{
    if all.len() == 0 {
        Some(state)
    } else {
        match split_step(state, all[0]) {
            Some(next) => run(next, all.drop_first()),
            None => None,
        }
    }
}

proof fn lemma_run(state: SplitState, first: Seq<Seq<char>>, second: Seq<Seq<char>>)
    ensures
        split_from(state, first + second) == match run(state, first) {
            Some(next) => split_from(next, second),
            None => None,
        },
        run(state, first + second) == match run(state, first) {
            Some(next) => run(next, second),
            None => None,
        },
        split_from(state, first) == match run(state, first) {
            Some(next) => Some(all_done(next)),
            None => None,
        },
    decreases first.len(),
{
    if first.len() == 0 {
        assert(first + second =~= second);
    } else {
        assert((first + second).drop_first() =~= first.drop_first() + second);
        if let Some(next) = split_step(state, first[0]) {
            lemma_run(next, first.drop_first(), second);
        }
    }
}

/// One state is another one with more finished functions below it.
spec fn is_above(
    upper: SplitState,
    lower: SplitState,
    below: Seq<(Seq<char>, Seq<Seq<char>>)>,
) -> bool {
    &&& upper.open == lower.open
    &&& upper.machine == lower.machine
    &&& distinct_names(upper.done)
    &&& distinct_names(lower.done)
    &&& forall|name: Seq<char>| #[trigger]
        lines_under(upper.done, name) == either_lines(
            lines_under(lower.done, name),
            lines_under(below, name),
        )
}

proof fn lemma_entry_lines(
    functions: Seq<(Seq<char>, Seq<Seq<char>>)>,
    name: Seq<char>,
    lines: Seq<Seq<char>>,
    other: Seq<char>,
)
    requires
        distinct_names(functions),
    ensures
        distinct_names(with_entry(functions, name, lines)),
        lines_under(with_entry(functions, name, lines), other) == if other == name {
            Some(lines)
        } else {
            lines_under(functions, other)
        },
{
    lemma_with_entry_distinct(functions, name, lines);
    lemma_with_entry_found(functions, name, lines);
    let after = with_entry(functions, name, lines);
    if other != name {
        assert(entry_position(after, other) == entry_position(functions, other));
        if let Some(i) = entry_position(functions, other) {
            assert(functions[i].0 == other);
            assert(after[i] == functions[i]);
        }
    }
}

proof fn lemma_above_done(
    upper: SplitState,
    lower: SplitState,
    below: Seq<(Seq<char>, Seq<Seq<char>>)>,
)
    requires
        is_above(upper, lower, below),
    ensures
        distinct_names(all_done(upper)),
        distinct_names(all_done(lower)),
        forall|name: Seq<char>| #[trigger]
            lines_under(all_done(upper), name) == either_lines(
                lines_under(all_done(lower), name),
                lines_under(below, name),
            ),
{
    if let Some((own, lines)) = upper.open {
        lemma_with_entry_distinct(upper.done, own, lines);
        lemma_with_entry_distinct(lower.done, own, lines);
        assert forall|name: Seq<char>| #[trigger]
            lines_under(all_done(upper), name) == either_lines(
            lines_under(all_done(lower), name),
            lines_under(below, name),
        ) by {
            lemma_entry_lines(upper.done, own, lines, name);
            lemma_entry_lines(lower.done, own, lines, name);
            assert(lines_under(upper.done, name) == either_lines(
                lines_under(lower.done, name),
                lines_under(below, name),
            ));
        }
    }
}

proof fn lemma_above_from(
    upper: SplitState,
    lower: SplitState,
    below: Seq<(Seq<char>, Seq<Seq<char>>)>,
    rest: Seq<Seq<char>>,
)
    requires
        is_above(upper, lower, below),
    ensures
        split_from(upper, rest) is Some <==> split_from(lower, rest) is Some,
        split_from(upper, rest) is Some ==> forall|name: Seq<char>| #[trigger]
            lines_under(split_from(upper, rest)->0, name) == either_lines(
                lines_under(split_from(lower, rest)->0, name),
                lines_under(below, name),
            ),
    decreases rest.len(),
{
    lemma_above_done(upper, lower, below);
    if rest.len() > 0 {
        let line = rest[0];
        if let Some(next) = split_step(upper, line) {
            let other = split_step(lower, line)->0;
            if !opens_function(line) && !is_preheader(line) && upper.open is Some {
                let (own, lines) = upper.open->0;
                let more = Some((own, lines.push(line)));
                let first = SplitState { open: more, ..upper };
                let second = SplitState { open: more, ..lower };
                assert(is_above(first, second, below));
                lemma_above_done(first, second, below);
            }
            assert(is_above(next, other, below));
            lemma_above_from(next, other, below, rest.drop_first());
        }
    }
}

proof fn lemma_run_distinct(state: SplitState, all: Seq<Seq<char>>)
    requires
        distinct_names(state.done),
    ensures
        run(state, all) is Some ==> distinct_names(run(state, all)->0.done),
    decreases all.len(),
{
    if all.len() > 0 {
        if let Some(next) = split_step(state, all[0]) {
            if let Some((own, lines)) = state.open {
                lemma_with_entry_distinct(state.done, own, lines);
                lemma_with_entry_distinct(state.done, own, lines.push(all[0]));
            }
            lemma_run_distinct(next, all.drop_first());
        }
    }
}

/// A dump can be cut before any line that opens a function. The functions of both parts are the
/// functions of the whole, and where both parts show a function, the second one counts.
pub proof fn lemma_cut_before_function(first: Seq<Seq<char>>, second: Seq<Seq<char>>)
    requires
        second.len() > 0,
        opens_function(second[0]),
    ensures
        functions_in(first + second) is Some <==> functions_in(first) is Some && functions_in(
            second,
        ) is Some,
        functions_in(first + second) is Some ==> forall|name: Seq<char>| #[trigger]
            lines_under(functions_in(first + second)->0, name) == either_lines(
                lines_under(functions_in(second)->0, name),
                lines_under(functions_in(first)->0, name),
            ),
{
    lemma_run(split_start(), first, second);
    lemma_run_distinct(split_start(), first);
    if let Some(state) = run(split_start(), first) {
        let below = all_done(state);
        if let Some((own, lines)) = state.open {
            lemma_with_entry_distinct(state.done, own, lines);
        }
        if let Some(next) = split_step(state, second[0]) {
            let other = split_step(split_start(), second[0])->0;
            assert(is_above(next, other, below)) by {
                assert(other.done =~= Seq::empty());
            }
            lemma_above_from(next, other, below, second.drop_first());
        }
    }
}

/// Lines behind the first one of a function: none opens a function or a loop, or ends the function.
pub open spec fn are_inner_lines(body: Seq<Seq<char>>, machine: bool) -> bool {
    forall|i: int|
        0 <= i < body.len() ==> !opens_function(#[trigger] body[i]) && !is_preheader(body[i])
            && !ends_function(body[i], machine)
}

proof fn lemma_run_inner(state: SplitState, body: Seq<Seq<char>>)
    requires
        state.open is Some,
        are_inner_lines(body, state.machine),
    ensures
        ({
            let (name, lines) = state.open->0;
            run(state, body) == Some(SplitState { open: Some((name, lines + body)), ..state })
        }),
    decreases body.len(),
{
    let (name, lines) = state.open->0;
    if body.len() == 0 {
        assert(lines + body =~= lines);
    } else {
        let rest = body.drop_first();
        let next = SplitState { open: Some((name, lines.push(body[0]))), ..state };
        assert(split_step(state, body[0]) == Some(next));
        assert(are_inner_lines(rest, state.machine)) by {
            assert forall|i: int| 0 <= i < rest.len() implies !opens_function(#[trigger] rest[i])
                && !is_preheader(rest[i]) && !ends_function(rest[i], state.machine) by {
                assert(rest[i] == body[i + 1]);
            }
        }
        lemma_run_inner(next, rest);
        assert(lines.push(body[0]) + rest =~= lines + body);
    }
}

/// The first line of a function or a loop, cut as machine code or not.
pub open spec fn is_first_line(line: Seq<char>, name: Seq<char>, machine: bool) -> bool {
    opens(line, name) && machine == (is_machine_function(line) && !is_ir_function(line))
}

proof fn lemma_first_step(line: Seq<char>, name: Seq<char>, machine: bool)
    requires
        is_first_line(line, name, machine),
    ensures
        split_step(split_start(), line) == Some(
            SplitState { done: Seq::empty(), open: Some((name, seq![line])), machine },
        ),
{
}

/// A function that no line ends goes on to the last line.
pub proof fn lemma_unended_function(
    line: Seq<char>,
    name: Seq<char>,
    machine: bool,
    body: Seq<Seq<char>>,
)
    requires
        is_first_line(line, name, machine),
        are_inner_lines(body, machine),
    ensures
        functions_in(seq![line] + body) == Some(seq![(name, seq![line] + body)]),
{
    let all = seq![line] + body;
    let state = SplitState { done: Seq::empty(), open: Some((name, seq![line])), machine };
    lemma_first_step(line, name, machine);
    assert(all.drop_first() =~= body);
    lemma_run_inner(state, body);
    lemma_run(state, body, Seq::empty());
    assert(body + Seq::<Seq<char>>::empty() =~= body);
    let last = SplitState { open: Some((name, seq![line] + body)), ..state };
    assert(all_done(last) =~= seq![(name, seq![line] + body)]);
}

/// A function ends with the first line that ends it, which is its last one. What comes behind that
/// line is read as if the function were not there, and counts where it shows the function again.
/// Behind a function in machine code this is stated for a line that opens a function.
pub proof fn lemma_ended_function(
    line: Seq<char>,
    name: Seq<char>,
    machine: bool,
    body: Seq<Seq<char>>,
    end: Seq<char>,
    rest: Seq<Seq<char>>,
)
    requires
        is_first_line(line, name, machine),
        are_inner_lines(body, machine),
        ends_function(end, machine),
        !opens_function(end),
        !is_preheader(end),
        machine ==> rest.len() == 0 || opens_function(rest[0]),
    ensures
        ({
            let own = (seq![line] + body).push(end);
            &&& functions_in(own + rest) is Some <==> functions_in(rest) is Some
            &&& functions_in(own + rest) is Some ==> forall|other: Seq<char>| #[trigger]
                lines_under(functions_in(own + rest)->0, other) == either_lines(
                    lines_under(functions_in(rest)->0, other),
                    if other == name {
                        Some(own)
                    } else {
                        None
                    },
                )
        }),
{
    let own = (seq![line] + body).push(end);
    let state = SplitState { done: Seq::empty(), open: Some((name, seq![line])), machine };
    lemma_first_step(line, name, machine);
    let after = body.push(end) + rest;
    assert((own + rest).drop_first() =~= after);
    assert((own + rest)[0] == line);
    assert(after =~= body + (seq![end] + rest));
    lemma_run_inner(state, body);
    lemma_run(state, body, seq![end] + rest);
    let open = SplitState { open: Some((name, seq![line] + body)), ..state };
    let closed = split_step(open, end)->0;
    assert((seq![line] + body).push(end) == own);
    assert(closed.done =~= seq![(name, own)]) by {
        assert(with_entry(Seq::<(Seq<char>, Seq<Seq<char>>)>::empty(), name, own) =~= seq![
            (name, own),
        ]);
    }
    assert(closed == SplitState { done: seq![(name, own)], open: None, machine });
    assert((seq![end] + rest).drop_first() =~= rest);
    let below = seq![(name, own)];
    assert forall|other: Seq<char>| lines_under(below, other) == if other == name {
        Some(own)
    } else {
        None
    } by {
        if other == name {
            assert(below[0].0 == name);
        }
    }
    if !machine {
        assert(is_above(closed, split_start(), below));
        lemma_above_from(closed, split_start(), below, rest);
    } else if rest.len() == 0 {
        assert(functions_in(rest) == Some(Seq::<(Seq<char>, Seq<Seq<char>>)>::empty()));
        assert(split_from(closed, rest) == Some(below));
    } else if let Some(next) = split_step(closed, rest[0]) {
        let fresh = split_step(split_start(), rest[0])->0;
        assert(all_done(split_start()) =~= Seq::empty());
        assert(is_above(next, fresh, below));
        lemma_above_from(next, fresh, below, rest.drop_first());
    }
}

/// Lines before the first function or loop belong to none.
pub proof fn lemma_outer_lines(outer: Seq<Seq<char>>, rest: Seq<Seq<char>>)
    requires
        forall|i: int|
            0 <= i < outer.len() ==> !opens_function(#[trigger] outer[i]) && !is_preheader(
                outer[i],
            ),
    ensures
        functions_in(outer + rest) == functions_in(rest),
    decreases outer.len(),
{
    if outer.len() == 0 {
        assert(outer + rest =~= rest);
    } else {
        let less = outer.drop_first();
        assert forall|i: int| 0 <= i < less.len() implies !opens_function(#[trigger] less[i])
            && !is_preheader(less[i]) by {
            assert(less[i] == outer[i + 1]);
        }
        assert((outer + rest).drop_first() =~= less + rest);
        lemma_outer_lines(less, rest);
    }
}

/// A line that opens a loop inside a function is left out.
pub proof fn lemma_loop_inside_function(
    line: Seq<char>,
    name: Seq<char>,
    machine: bool,
    body: Seq<Seq<char>>,
    inner: Seq<char>,
    rest: Seq<Seq<char>>,
)
    requires
        is_first_line(line, name, machine),
        are_inner_lines(body, machine),
        is_preheader(inner),
        !opens_function(inner),
    ensures
        functions_in((seq![line] + body).push(inner) + rest) == functions_in(
            seq![line] + body + rest,
        ),
{
    let state = SplitState { done: Seq::empty(), open: Some((name, seq![line])), machine };
    lemma_first_step(line, name, machine);
    lemma_run_inner(state, body);
    let long = (seq![line] + body).push(inner) + rest;
    let short = seq![line] + body + rest;
    assert(long.drop_first() =~= body + (seq![inner] + rest));
    assert(short.drop_first() =~= body + rest);
    assert(long[0] == line && short[0] == line);
    lemma_run(state, body, seq![inner] + rest);
    lemma_run(state, body, rest);
    assert((seq![inner] + rest).drop_first() =~= rest);
}

/// A loop behind a function ends as that function does: behind one in machine code it goes on over
/// lines that end a function in IR.
pub proof fn lemma_loop_behind_function(
    line: Seq<char>,
    name: Seq<char>,
    machine: bool,
    body: Seq<Seq<char>>,
    end: Seq<char>,
    first: Seq<char>,
    inner: Seq<Seq<char>>,
)
    requires
        is_first_line(line, name, machine),
        name != "<loop>"@,
        are_inner_lines(body, machine),
        ends_function(end, machine),
        !opens_function(end),
        !is_preheader(end),
        is_preheader(first),
        !opens_function(first),
        are_inner_lines(inner, machine),
    ensures
        ({
            let own = (seq![line] + body).push(end);
            functions_in(own + (seq![first] + inner)) == Some(
                seq![(name, own), ("<loop>"@, seq![first] + inner)],
            )
        }),
{
    let own = (seq![line] + body).push(end);
    let rest = seq![first] + inner;
    let state = SplitState { done: Seq::empty(), open: Some((name, seq![line])), machine };
    lemma_first_step(line, name, machine);
    assert((own + rest).drop_first() =~= body + (seq![end] + rest));
    assert((own + rest)[0] == line);
    lemma_run_inner(state, body);
    lemma_run(state, body, seq![end] + rest);
    let done = seq![(name, own)];
    let closed = SplitState { done, open: None, machine };
    assert(with_entry(Seq::<(Seq<char>, Seq<Seq<char>>)>::empty(), name, own) =~= done);
    assert(split_step(SplitState { open: Some((name, seq![line] + body)), ..state }, end) == Some(
        closed,
    ));
    assert((seq![end] + rest).drop_first() =~= rest);
    let looping = SplitState { open: Some(("<loop>"@, seq![first])), ..closed };
    assert(split_step(closed, first) == Some(looping));
    assert(rest.drop_first() =~= inner);
    lemma_run_inner(looping, inner);
    lemma_run(looping, inner, Seq::empty());
    assert(inner + Seq::<Seq<char>>::empty() =~= inner);
    assert(entry_position(done, "<loop>"@) is None);
    let last = SplitState { open: Some(("<loop>"@, rest)), ..looping };
    assert(with_entry(done, "<loop>"@, rest) =~= seq![(name, own), ("<loop>"@, rest)]);
    assert(split_from(last, Seq::empty()) == Some(all_done(last)));
    assert(split_from(closed, rest) == split_from(looping, inner));
    assert(split_from(state, body + (seq![end] + rest)) == split_from(closed, rest));
}

/// A line opens a function in IR if and only if it begins with `define`, or, behind white space,
/// with `func.func` and something more, or with `tt.func`.
pub proof fn lemma_ir_function_lines(line: Seq<char>)
    ensures
        is_ir_function(line) <==> {
            ||| "define "@.is_prefix_of(line)
            ||| exists|indent: Seq<char>, rest: Seq<char>|
                is_blank(indent) && !is_blank(rest) && line == #[trigger] (indent + "func.func "@
                    + rest)
            ||| exists|indent: Seq<char>, rest: Seq<char>|
                is_blank(indent) && line == #[trigger] (indent + "tt.func"@ + rest)
        },
{
    reveal_strlit("func.func ");
    reveal_strlit("tt.func");
    lemma_trim_takes_white_space(line);
    let (before, after) = choose|before: Seq<char>, after: Seq<char>|
        is_blank(before) && is_blank(after) && #[trigger] (before + trim(line) + after) == line;
    let inner = trim(line);
    if "func.func "@.is_prefix_of(inner) {
        let tail = inner.skip(10);
        let rest = tail + after;
        assert(inner =~= "func.func "@ + tail);
        if tail.len() == 0 {
            assert(inner.last() == "func.func "@[9]);
        } else {
            assert(rest[tail.len() - 1] == inner.last());
        }
        assert(before + "func.func "@ + rest =~= line);
    }
    if "tt.func"@.is_prefix_of(inner) {
        let rest = inner.skip(7) + after;
        assert(inner =~= "tt.func"@ + inner.skip(7));
        assert(before + "tt.func"@ + rest =~= line);
    }
    if exists|indent: Seq<char>, rest: Seq<char>|
        is_blank(indent) && !is_blank(rest) && line == #[trigger] (indent + "func.func "@ + rest) {
        let (indent, rest) = choose|indent: Seq<char>, rest: Seq<char>|
            is_blank(indent) && !is_blank(rest) && line == #[trigger] (indent + "func.func "@
                + rest);
        let k = choose|k: int| 0 <= k < rest.len() && !is_space(#[trigger] rest[k]);
        lemma_trimmed_prefix(indent, "func.func "@ + rest, "func.func "@, 10 + k);
        assert(line =~= indent + ("func.func "@ + rest));
    }
    if exists|indent: Seq<char>, rest: Seq<char>|
        is_blank(indent) && line == #[trigger] (indent + "tt.func"@ + rest) {
        let (indent, rest) = choose|indent: Seq<char>, rest: Seq<char>|
            is_blank(indent) && line == #[trigger] (indent + "tt.func"@ + rest);
        lemma_trimmed_prefix(indent, "tt.func"@ + rest, "tt.func"@, 6);
        assert(line =~= indent + ("tt.func"@ + rest));
    }
}

/// What a text begins with behind white space, the trimmed text begins with.
proof fn lemma_trimmed_prefix(indent: Seq<char>, text: Seq<char>, prefix: Seq<char>, k: int)
    requires
        is_blank(indent),
        text.len() > 0,
        !is_space(text[0]),
        prefix.is_prefix_of(text),
        prefix.len() - 1 <= k < text.len(),
        !is_space(text[k]),
    ensures
        prefix.is_prefix_of(trim(indent + text)),
{
    let line = indent + text;
    assert forall|i: int| 0 <= i < indent.len() implies is_space(#[trigger] line[i]) by {
        assert(line[i] == indent[i]);
    }
    lemma_trim_start(line, indent.len() as int);
    assert(line.skip(indent.len() as int) =~= text);
    let end = lemma_trim_end_parts(text);
    assert(end > k) by {
        if end <= k {
            assert(is_space(text[k]));
        }
    }
    assert(prefix =~= text.take(end).take(prefix.len() as int)) by {
        assert(prefix =~= text.take(prefix.len() as int));
    }
}

/// The trimmed text is what stands between white space.
proof fn lemma_trimmed(before: Seq<char>, inner: Seq<char>, after: Seq<char>)
    requires
        is_blank(before),
        is_blank(after),
        inner.len() > 0,
        !is_space(inner[0]),
        !is_space(inner.last()),
    ensures
        trim(before + inner + after) == inner,
{
    let line = before + inner + after;
    assert forall|i: int| 0 <= i < before.len() implies is_space(#[trigger] line[i]) by {
        assert(line[i] == before[i]);
    }
    assert(line[before.len() as int] == inner[0]);
    lemma_trim_start(line, before.len() as int);
    let rest = inner + after;
    assert(line.skip(before.len() as int) =~= rest);
    let end = inner.len() as int;
    assert forall|i: int| end <= i < rest.len() implies is_space(#[trigger] rest[i]) by {
        assert(rest[i] == after[i - end]);
    }
    assert(rest[end - 1] == inner.last());
    lemma_trim_end(rest, end);
    assert(rest.take(end) =~= inner);
}

/// A function in IR ends at a line with a closing bracket and nothing else but white space.
pub proof fn lemma_ir_function_end(line: Seq<char>)
    ensures
        ends_function(line, false) <==> exists|before: Seq<char>, after: Seq<char>|
            is_blank(before) && is_blank(after) && line == #[trigger] (before + seq!['}'] + after),
{
    reveal_strlit("}");
    assert("}"@ =~= seq!['}']);
    if ends_function(line, false) {
        lemma_trim_takes_white_space(line);
    }
    if exists|before: Seq<char>, after: Seq<char>|
        is_blank(before) && is_blank(after) && line == #[trigger] (before + seq!['}'] + after) {
        let (before, after) = choose|before: Seq<char>, after: Seq<char>|
            is_blank(before) && is_blank(after) && line == #[trigger] (before + seq!['}'] + after);
        lemma_trimmed(before, seq!['}'], after);
    }
}

/// A function in machine code ends at a line that says so, with the name of a function and one
/// more character behind it, and white space around that.
pub proof fn lemma_machine_function_end(
    before: Seq<char>,
    name: Seq<char>,
    last: char,
    after: Seq<char>,
)
    requires
        is_blank(before),
        is_blank(after),
        is_ascii_name(name),
        last <= '\u{7f}',
        !is_space(last),
    ensures
        ends_function(
            before + ("# End machine code for function "@ + name).push(last) + after,
            true,
        ),
{
    let mark = "# End machine code for function "@;
    let inner = (mark + name).push(last);
    reveal_strlit("# End machine code for function ");
    assert(inner[0] == '#');
    assert(inner.last() == last);
    lemma_trimmed(before, inner, after);
    assert forall|i: int| 0 <= i < inner.len() implies '\0' <= #[trigger] inner[i] <= '\u{7f}' by {
        if i < mark.len() {
            assert(inner[i] == mark[i]);
        } else if i < mark.len() + name.len() {
            assert(inner[i] == name[i - mark.len()]);
        }
    }
    assert(is_ascii_chars(inner));
    assert(is_ascii_machine_end(inner));
}

proof fn lemma_find_char(before: Seq<char>, mark: Seq<char>, after: Seq<char>)
    requires
        mark.len() == 1,
        !before.contains(mark[0]),
    ensures
        find(before + mark + after, mark) == Some(before.len() as int),
        find(before, mark) is None,
{
    let text = before + mark + after;
    let at = before.len() as int;
    assert(text.subrange(at, at + 1) =~= mark);
    assert forall|i: int| 0 <= i < at implies !occurs_at(text, mark, i) by {
        if occurs_at(text, mark, i) {
            assert(text.subrange(i, i + 1)[0] == before[i]);
        }
    }
    assert(first_at(text, mark, at));
    lemma_find_at(text, mark, at);
    assert forall|i: int| !occurs_at(before, mark, i) by {
        if occurs_at(before, mark, i) {
            assert(before.subrange(i, i + 1)[0] == before[i]);
            assert(before.contains(mark[0]));
        }
    }
}

/// The name of a function in IR stands between the first `@` of its line and the next bracket. A
/// line without the one or the other names none.
pub proof fn lemma_ir_function_names(before: Seq<char>, name: Seq<char>, after: Seq<char>)
    requires
        !before.contains('@'),
        !name.contains('('),
    ensures
        ir_function_name(before + "@"@ + name + "("@ + after) == Some(name),
        ir_function_name(before + "@"@ + name) is None,
        ir_function_name(before) is None,
{
    reveal_strlit("@");
    reveal_strlit("(");
    let rest = name + "("@ + after;
    lemma_find_char(before, "@"@, rest);
    lemma_find_char(name, "("@, after);
    let line = before + "@"@ + name + "("@ + after;
    assert(line =~= before + "@"@ + rest);
    assert(line.skip(before.len() as int + 1) =~= rest);
    assert(rest.take(name.len() as int) =~= name);
    lemma_find_char(before, "@"@, name);
    assert((before + "@"@ + name).skip(before.len() as int + 1) =~= name);
}

/// The name of a function in machine code stands between the mark of its line and the next colon.
/// A line without a colon names none.
pub proof fn lemma_machine_function_names(name: Seq<char>, after: Seq<char>)
    requires
        !name.contains(':'),
    ensures
        is_machine_function("# Machine code for function "@ + name + ":"@ + after),
        machine_function_name("# Machine code for function "@ + name + ":"@ + after) == Some(name),
        machine_function_name("# Machine code for function "@ + name) is None,
{
    reveal_strlit(":");
    let mark = "# Machine code for function "@;
    let rest = name + ":"@ + after;
    let line = mark + name + ":"@ + after;
    lemma_find_char(name, ":"@, after);
    assert(line.skip(mark.len() as int) =~= rest);
    assert((mark + name).skip(mark.len() as int) =~= name);
    assert(rest.take(name.len() as int) =~= name);
    assert(mark =~= line.take(mark.len() as int));
}

/// The marks of the lines that open a function in machine code and a loop.
pub proof fn lemma_other_openings(line: Seq<char>)
    ensures
        is_machine_function(line) <==> exists|rest: Seq<char>|
            line == #[trigger] ("# Machine code for function "@ + rest),
        is_preheader(line) <==> exists|rest: Seq<char>| line == #[trigger] ("; Preheader:"@ + rest),
        loop_name() == "<loop>"@,
{
    let first = "# Machine code for function "@;
    let second = "; Preheader:"@;
    if is_machine_function(line) {
        assert(first + line.skip(first.len() as int) =~= line);
    }
    if is_preheader(line) {
        assert(second + line.skip(second.len() as int) =~= line);
    }
    if exists|rest: Seq<char>| line == #[trigger] (first + rest) {
        assert(first =~= line.take(first.len() as int));
    }
    if exists|rest: Seq<char>| line == #[trigger] (second + rest) {
        assert(second =~= line.take(second.len() as int));
    }
}

} // verus!
