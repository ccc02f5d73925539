//! The functions that can be shown are among those that are listed.
use crate::dump::{
    body_text, is_header, lemma_lines_before_header, lines_before_header, pass_dumps, PassDumpModel,
};
use crate::filter::OptPipelineBackendOptions;
use crate::functions::{
    define_mark, is_ir_name, is_listed, is_machine_name, lemma_listed_in_whole, machine_mark,
    mentions, names_dialect,
};
use crate::group::{
    dumps_by_function, grouped, lemma_grouped_by_name, lemma_named_item, lemma_owner_shown,
    lemma_owners, owned, shown, shown_by,
};
use crate::parser::{
    dumps_in, gathered, lemma_preamble_has_no_header, preamble, processed, split_dump, split_dumps,
};
use crate::passes::{lemma_functions_are_independent, MismatchModel, PassModel};
use crate::search::{bytes_at, is_next};
use crate::split::{
    ir_function_name, is_cut, is_dialect_function, is_function, is_ir_function, is_machine_function,
    lemma_functions_of_dump, machine_function_name, opens, opens_function, SplitModel,
};
use crate::table::lemma_entry_position;
use crate::text::{
    contains, find, first_at, is_blank, is_space, lemma_contains_part, lemma_encode_concat,
    lemma_find_at, lemma_find_is_first, lemma_first_byte, lemma_line_in_text, lemma_lines_first,
    lemma_occurrence_bytes, lines, newline, occurs_at, trim, without_carriage_return,
};
use vstd::prelude::*;
use vstd::string::*;
use vstd::utf8::*;

verus! {

/// A line is one of the lines of a text, without a carriage return at its end.
spec fn in_lines(all: Seq<Seq<char>>, line: Seq<char>) -> bool {
    exists|j: int| 0 <= j < all.len() && without_carriage_return(#[trigger] all[j]) == line
}

spec fn without_line_feeds(all: Seq<Seq<char>>) -> bool {
    forall|j: int| 0 <= j < all.len() ==> !(#[trigger] all[j]).contains('\n')
}

/// Some of the lines are lines of all.
proof fn lemma_some_lines(all: Seq<Seq<char>>, start: int, end: int, line: Seq<char>)
    requires
        0 <= start <= end <= all.len(),
    ensures
        without_line_feeds(all) ==> without_line_feeds(all.subrange(start, end)),
        in_lines(all.subrange(start, end), line) ==> in_lines(all, line),
{
    let some = all.subrange(start, end);
    if without_line_feeds(all) {
        assert forall|j: int| 0 <= j < some.len() implies !(#[trigger] some[j]).contains('\n') by {
            assert(some[j] == all[j + start]);
        }
    }
    if in_lines(some, line) {
        let j = choose|j: int|
            0 <= j < some.len() && without_carriage_return(#[trigger] some[j]) == line;
        assert(all[j + start] == some[j]);
    }
}

/// The lines of the text of a dump are lines below its header.
proof fn lemma_body_lines(body: Seq<Seq<char>>, after_blank: bool, k: int)
    requires
        without_line_feeds(body),
        0 <= k < lines(body_text(body, after_blank)).len(),
    ensures
        in_lines(body, lines(body_text(body, after_blank))[k]),
    decreases body.len(),
{
    let text = body_text(body, after_blank);
    if body.len() > 0 {
        reveal_strlit("\n");
        assert("\n"@ =~= newline());
        let tail = body.drop_first();
        let blank = is_blank(body[0]);
        let rest = body_text(tail, blank);
        let line = lines(text)[k];
        assert(tail =~= body.subrange(1, body.len() as int));
        lemma_some_lines(body, 1, body.len() as int, line);
        if blank && after_blank {
            assert(text =~= rest);
            lemma_body_lines(tail, blank, k);
        } else {
            assert(text =~= body[0] + newline() + rest);
            assert(!body[0].contains('\n'));
            lemma_lines_first(body[0], rest);
            if k > 0 {
                assert(line == lines(rest)[k - 1]);
                lemma_body_lines(tail, blank, k - 1);
            }
        }
    }
}

/// The lines of each dump are among the lines that are read.
proof fn lemma_dump_lines(all: Seq<Seq<char>>, dumps: Seq<PassDumpModel>, d: int, k: int)
    requires
        without_line_feeds(all),
        pass_dumps(all) == Some(dumps),
        0 <= d < dumps.len(),
        0 <= k < lines(dumps[d].lines).len(),
    ensures
        in_lines(all, lines(dumps[d].lines)[k]),
    decreases all.len(),
{
    let line = lines(dumps[d].lines)[k];
    let rest = all.drop_first();
    let len = all.len() as int;
    if !is_header(all[0]) {
        assert(rest =~= all.subrange(1, len));
        lemma_some_lines(all, 1, len, line);
        lemma_dump_lines(rest, dumps, d, k);
    } else {
        lemma_lines_before_header(rest);
        let count = lines_before_header(rest) as int;
        if d == 0 {
            let body = rest.take(count);
            assert(body =~= all.subrange(1, count + 1));
            lemma_some_lines(all, 1, count + 1, line);
            lemma_body_lines(body, true, k);
        } else {
            let tail = rest.skip(count);
            assert(tail =~= all.subrange(count + 1, len));
            lemma_some_lines(all, count + 1, len, line);
            let more = pass_dumps(tail)->0;
            assert(dumps[d] == more[d - 1]);
            lemma_dump_lines(tail, more, d - 1, k);
        }
    }
}

/// Each dump is split on its own.
proof fn lemma_split_each(dumps: Seq<PassDumpModel>, splits: Seq<SplitModel>, s: int)
    requires
        split_dumps(dumps) == Some(splits),
        0 <= s < splits.len(),
    ensures
        splits.len() == dumps.len(),
        split_dump(dumps[s]) == Some(splits[s]),
    decreases dumps.len(),
{
    lemma_split_len(dumps, splits);
    let less = dumps.drop_last();
    let before = split_dumps(less)->0;
    lemma_split_len(less, before);
    if s < before.len() {
        lemma_split_each(less, before, s);
    }
}

proof fn lemma_split_len(dumps: Seq<PassDumpModel>, splits: Seq<SplitModel>)
    requires
        split_dumps(dumps) == Some(splits),
    ensures
        splits.len() == dumps.len(),
    decreases dumps.len(),
{
    if dumps.len() > 0 {
        lemma_split_len(dumps.drop_last(), split_dumps(dumps.drop_last())->0);
    }
}

/// Whatever is shown is shown by one of the passes.
proof fn lemma_shown_by_pass(splits: Seq<SplitModel>, j: int) -> (found: (int, int))
    requires
        0 <= j < shown(splits).len(),
    ensures
        0 <= found.0 < splits.len(),
        0 <= found.1 < splits[found.0].functions.len(),
        splits[found.0].functions[found.1].0 == shown(splits)[j].0,
    decreases splits.len(),
{
    let less = splits.drop_last();
    let before = shown(less);
    if j < before.len() {
        lemma_shown_by_pass(less, j)
    } else {
        assert(shown(splits)[j] == shown_by(splits.last())[j - before.len()]);
        (splits.len() - 1, j - before.len())
    }
}

/// What comes next in a part of some bytes comes next in the bytes.
proof fn lemma_next_in_part(bytes: Seq<u8>, part: Seq<u8>, start: int, byte: u8, at: int)
    requires
        0 <= start,
        start + part.len() <= bytes.len(),
        bytes.subrange(start, start + part.len()) == part,
        is_next(part, byte, 0, at),
    ensures
        is_next(bytes, byte, start, start + at),
{
    assert(part[at] == bytes[start + at]);
    assert forall|i: int| start <= i < start + at implies bytes[i] != byte by {
        assert(part[i - start] == bytes[i]);
    }
}

/// A name that stands between two marks in a line stands between their bytes in the text.
proof fn lemma_named_bytes(bytes: Seq<u8>, start: int, rest: Seq<char>, mark: Seq<char>, end: int)
    requires
        0 <= start,
        start + encode_utf8(rest).len() <= bytes.len(),
        bytes.subrange(start, start + encode_utf8(rest).len()) == encode_utf8(rest),
        mark.len() == 1,
        is_ascii_chars(mark),
        find(rest, mark) == Some(end),
    ensures
        is_next(
            bytes,
            mark[0] as u8,
            start,
            start + encode_utf8(rest.take(end)).len(),
        ),
        encode_utf8(rest.take(end)) == bytes.subrange(
            start,
            start + encode_utf8(rest.take(end)).len(),
        ),
{
    let part = encode_utf8(rest);
    let name = rest.take(end);
    lemma_find_is_first(rest, mark);
    lemma_first_byte(rest, mark, end);
    lemma_next_in_part(bytes, part, start, mark[0] as u8, encode_utf8(name).len() as int);
    assert(rest =~= name + rest.skip(end));
    lemma_encode_concat(name, rest.skip(end));
    let len = encode_utf8(name).len() as int;
    assert(encode_utf8(name) =~= part.subrange(0, len));
    assert(part.subrange(0, len) =~= bytes.subrange(start, start + len));
}

/// A line in a text that defines a function in IR mentions it.
proof fn lemma_define_mentions(text: Seq<char>, line: Seq<char>, name: Seq<char>)
    requires
        contains(text, line),
        "define "@.is_prefix_of(line),
        ir_function_name(line) == Some(name),
    ensures
        mentions(encode_utf8(text), name),
{
    let bytes = encode_utf8(text);
    let at = choose|at: int| occurs_at(text, line, at);
    let start = encode_utf8(text.take(at)).len() as int;
    let mark = "define "@;
    reveal_strlit("define ");
    reveal_strlit("@");
    reveal_strlit("(");
    assert(text.subrange(at, at + mark.len()) =~= line.take(mark.len() as int));
    assert(occurs_at(text, mark, at));
    lemma_occurrence_bytes(text, mark, at);
    assert(bytes_at(bytes, define_mark(), start));
    lemma_occurrence_bytes(text, line, at);
    let sign = find(line, "@"@)->0;
    lemma_find_is_first(line, "@"@);
    lemma_named_bytes(bytes, start, line, "@"@, sign);
    let head = line.take(sign);
    let next = start + encode_utf8(head).len();
    assert(is_next(bytes, 0x40, start, next));
    let rest = line.skip(sign + 1);
    let end = find(rest, "("@)->0;
    assert("@"@ =~= line.subrange(sign, sign + 1));
    assert(line =~= head + "@"@ + rest);
    lemma_encode_concat(head + "@"@, rest);
    lemma_encode_concat(head, "@"@);
    is_ascii_chars_encode_utf8("@"@);
    let whole = encode_utf8(line);
    let tail = encode_utf8(rest);
    assert(bytes.subrange(next + 1, next + 1 + tail.len()) =~= tail) by {
        assert forall|i: int| 0 <= i < tail.len() implies bytes[next + 1 + i] == tail[i] by {
            assert(whole[encode_utf8(head).len() + 1 + i] == tail[i]);
            assert(bytes.subrange(start, start + whole.len())[encode_utf8(head).len() + 1 + i]
                == bytes[next + 1 + i]);
        }
    }
    lemma_named_bytes(bytes, next + 1, rest, "("@, end);
    assert(is_next(bytes, 0x28, next + 1, next + 1 + encode_utf8(name).len()));
    assert(is_ir_name(bytes, start, name));
}

/// A line in a text that opens a function in machine code mentions it.
proof fn lemma_machine_mentions(text: Seq<char>, line: Seq<char>, name: Seq<char>)
    requires
        contains(text, line),
        is_machine_function(line),
        machine_function_name(line) == Some(name),
    ensures
        mentions(encode_utf8(text), name),
{
    let bytes = encode_utf8(text);
    let at = choose|at: int| occurs_at(text, line, at);
    let start = encode_utf8(text.take(at)).len() as int;
    let mark = "# Machine code for function "@;
    reveal_strlit(":");
    assert(mark.len() <= line.len());
    assert(text.subrange(at, at + mark.len()) =~= line.take(mark.len() as int));
    assert(occurs_at(text, mark, at));
    lemma_occurrence_bytes(text, mark, at);
    assert(bytes_at(bytes, machine_mark(), start));
    lemma_occurrence_bytes(text, line, at);
    let rest = line.skip(mark.len() as int);
    let end = find(rest, ":"@)->0;
    assert(line =~= mark + rest);
    lemma_encode_concat(mark, rest);
    let whole = encode_utf8(line);
    let tail = encode_utf8(rest);
    let next = start + encode_utf8(mark).len();
    assert(bytes.subrange(next, next + tail.len()) =~= tail) by {
        assert forall|i: int| 0 <= i < tail.len() implies bytes[next + i] == tail[i] by {
            assert(whole[encode_utf8(mark).len() + i] == tail[i]);
            assert(bytes.subrange(start, start + whole.len())[encode_utf8(mark).len() + i]
                == bytes[next + i]);
        }
    }
    lemma_named_bytes(bytes, next, rest, ":"@, end);
    assert(is_machine_name(bytes, start, name));
}

/// White space at the end of a text has no part in what is left when it is trimmed.
proof fn lemma_trim_last(text: Seq<char>)
    requires
        text.len() > 0,
        is_space(text.last()),
    ensures
        trim(text.drop_last()) == trim(text),
    decreases text.len(),
{
    if text.len() > 1 && is_space(text[0]) {
        lemma_trim_last(text.drop_first());
        assert(text.drop_last().drop_first() =~= text.drop_first().drop_last());
    } else if text.len() == 1 {
        assert(text.drop_first() =~= text.drop_last());
    }
}

/// A carriage return at the end of a line has no part in the function that the line opens.
proof fn lemma_dialect_carriage_return(line: Seq<char>, name: Seq<char>)
    requires
        names_dialect(without_carriage_return(line), name),
    ensures
        names_dialect(line, name),
{
    let bare = without_carriage_return(line);
    if bare != line {
        reveal_strlit("define ");
        reveal_strlit("@");
        reveal_strlit("(");
        lemma_trim_last(line);
        if "define "@.is_prefix_of(line) {
            assert("define "@[6] == line[6]);
            assert("define "@ =~= bare.take(7));
        }
        let at = find(bare, "@"@)->0;
        lemma_find_longer(bare, line, "@"@);
        let rest = bare.skip(at + 1);
        lemma_find_is_first(bare, "@"@);
        lemma_find_longer(rest, line.skip(at + 1), "("@);
        lemma_find_is_first(rest, "("@);
        let end = find(rest, "("@)->0;
        assert(line.skip(at + 1).take(end) =~= rest.take(end));
    }
}

/// What is found in the first part of a text is found at the same place in the text.
proof fn lemma_find_longer(part: Seq<char>, whole: Seq<char>, pattern: Seq<char>)
    requires
        part.is_prefix_of(whole),
        find(part, pattern) is Some,
    ensures
        find(whole, pattern) == find(part, pattern),
{
    let at = find(part, pattern)->0;
    lemma_find_is_first(part, pattern);
    assert(whole.subrange(at, at + pattern.len()) =~= part.subrange(at, at + pattern.len()));
    assert forall|i: int| 0 <= i < at implies !occurs_at(whole, pattern, i) by {
        if occurs_at(whole, pattern, i) {
            assert(part.subrange(i, i + pattern.len()) =~= whole.subrange(i, i + pattern.len()));
            assert(occurs_at(part, pattern, i));
        }
    }
    assert(first_at(whole, pattern, at));
    lemma_find_at(whole, pattern, at);
}

/// Every name under which dumps are gathered stands in a line of a dump that opens a function.
proof fn lemma_opening_line(
    dumps: Seq<PassDumpModel>,
    splits: Seq<SplitModel>,
    entries: Seq<(Seq<char>, Seq<PassDumpModel>)>,
    i: int,
) -> (found: (int, int))
    requires
        split_dumps(dumps) == Some(splits),
        dumps_by_function(splits) == Some(entries),
        0 <= i < entries.len(),
    ensures
        0 <= found.0 < dumps.len(),
        0 <= found.1 < lines(dumps[found.0].lines).len(),
        opens(lines(dumps[found.0].lines)[found.1], entries[i].0),
        opens_function(lines(dumps[found.0].lines)[found.1]),
{
    let items = owned(shown(splits));
    lemma_grouped_by_name(items);
    lemma_entry_position(grouped(items), i);
    let j = lemma_named_item(items, entries[i].0);
    lemma_owners(shown(splits), 0);
    let owner = lemma_owner_shown(shown(splits), j);
    let (s, f) = lemma_shown_by_pass(splits, owner);
    lemma_split_each(dumps, splits, s);
    let functions = splits[s].functions;
    lemma_functions_of_dump(dumps[s].lines, functions);
    let own = lines(dumps[s].lines);
    assert(is_function(functions[f], own));
    let (k, end, machine) = choose|k: int, end: int, machine: bool|
        is_cut(own, functions[f], k, end, machine);
    (s, k)
}

/// A line of a dump that opens a function lists it for the text that the dump is read from.
proof fn lemma_line_lists(
    ir: Seq<char>,
    dumps: Seq<PassDumpModel>,
    d: int,
    k: int,
    name: Seq<char>,
)
    requires
        pass_dumps(lines(ir)) == Some(dumps),
        0 <= d < dumps.len(),
        0 <= k < lines(dumps[d].lines).len(),
        opens(lines(dumps[d].lines)[k], name),
        opens_function(lines(dumps[d].lines)[k]),
    ensures
        is_listed(ir, name),
{
    let all = lines(ir);
    let line = lines(dumps[d].lines)[k];
    assert(without_line_feeds(all)) by {
        assert forall|j: int| 0 <= j < all.len() implies !(#[trigger] all[j]).contains('\n') by {
            lemma_line_in_text(ir, j);
        }
    }
    lemma_dump_lines(all, dumps, d, k);
    let m = choose|m: int|
        0 <= m < all.len() && without_carriage_return(#[trigger] all[m]) == line;
    lemma_line_in_text(ir, m);
    assert(all[m].subrange(0, line.len() as int) =~= line);
    assert(occurs_at(all[m], line, 0));
    lemma_contains_part(ir, all[m], line);
    if is_dialect_function(line) {
        lemma_dialect_carriage_return(all[m], name);
    } else if is_ir_function(line) {
        lemma_define_mentions(ir, line, name);
    } else {
        lemma_machine_mentions(ir, line, name);
    }
}

/// Every function that the dumps in an output show is listed for these dumps, as they are read:
/// without what is taken out of them where the options ask for it.
pub proof fn lemma_shown_functions_in_dumps(
    output: Seq<char>,
    options: OptPipelineBackendOptions,
    results: Seq<(Seq<char>, Seq<PassModel>)>,
    i: int,
)
    requires
        !options.full_module,
        processed(output, options) == Some(Ok::<_, MismatchModel>(results)),
        0 <= i < results.len(),
    ensures
        is_listed(dumps_in(output, options), results[i].0),
{
    let ir = dumps_in(output, options);
    let dumps = pass_dumps(lines(ir))->0;
    let splits = split_dumps(dumps)->0;
    let entries = gathered(ir, false)->0;
    lemma_functions_are_independent(entries);
    assert(entries[i].0 == results[i].0);
    let (d, k) = lemma_opening_line(dumps, splits, entries, i);
    lemma_line_lists(ir, dumps, d, k, results[i].0);
}

/// Every function that the dumps in an output show is listed for the output, where nothing is
/// taken out of the dumps: the options do not ask for it, or there is nothing to take out.
pub proof fn lemma_shown_functions_are_listed(
    output: Seq<char>,
    options: OptPipelineBackendOptions,
    results: Seq<(Seq<char>, Seq<PassModel>)>,
    i: int,
)
    requires
        !options.full_module,
        dumps_in(output, options) == output.skip(preamble(output) as int),
        processed(output, options) == Some(Ok::<_, MismatchModel>(results)),
        0 <= i < results.len(),
    ensures
        is_listed(output, results[i].0),
{
    let offset = preamble(output) as int;
    lemma_shown_functions_in_dumps(output, options, results, i);
    lemma_preamble_has_no_header(output);
    lemma_listed_in_whole(output.take(offset), output.skip(offset), results[i].0);
    assert(output.take(offset) + output.skip(offset) =~= output);
}

} // verus!
