//! Cuts the output of the compiler into the dumps of single passes.
use vstd::prelude::*;
use vstd::string::*;
use crate::text::{
    contains, find, first_at, is_blank, is_blank_text, lemma_find_at, lemma_find_is_first,
    lemma_line_in_text, lemma_lines_first, lines, lines_of, newline, occurs_at, split_first,
    starts_with, strip_prefix, without_carriage_return,
};

verus! {

/// The dump that was printed before or after one pass.
#[derive(Debug)]
pub struct PassDump {
    pub header: String,
    pub affected_function: Option<String>,
    pub machine: bool,
    pub lines: String,
}

/// What a `PassDump` holds.
#[verifier::ext_equal]
pub struct PassDumpModel {
    pub header: Seq<char>,
    pub affected_function: Option<Seq<char>>,
    pub machine: bool,
    pub lines: Seq<char>,
}

/// The text of an optional string.
pub open spec fn optional_text(text: Option<String>) -> Option<Seq<char>> {
    match text {
        Some(text) => Some(text@),
        None => None,
    }
}

impl View for PassDump {
    type V = PassDumpModel;

    open spec fn view(&self) -> PassDumpModel {
        PassDumpModel {
            header: self.header@,
            affected_function: optional_text(self.affected_function),
            machine: self.machine,
            lines: self.lines@,
        }
    }
}

/// What a sequence of dumps holds.
pub open spec fn dump_models(dumps: Seq<PassDump>) -> Seq<PassDumpModel> {
    dumps.map_values(|dump: PassDump| dump@)
}

/// What follows the opening mark of a header line, and the mark that closes the header.
/// A line with no opening mark is no header.
pub open spec fn header_rest(line: Seq<char>) -> Option<(Seq<char>, Seq<char>)> {
    if "; *** "@.is_prefix_of(line) {
        Some((line.skip("; *** "@.len() as int), " ***"@))
    } else if "*** "@.is_prefix_of(line) {
        Some((line.skip("*** "@.len() as int), " ***"@))
    } else if "// -----// "@.is_prefix_of(line) {
        Some((line.skip("// -----// "@.len() as int), " //----- //"@))
    } else if "# *** "@.is_prefix_of(line) {
        Some((line.skip("# *** "@.len() as int), " ***"@))
    } else {
        None
    }
}

/// A line that opens the dump of a pass.
pub open spec fn is_header(line: Seq<char>) -> bool {
    header_rest(line) is Some
}

/// What follows the word that introduces the affected function: `function` or else `loop`.
pub open spec fn affected_rest(line: Seq<char>) -> Option<Seq<char>> {
    match find(line, "(function: "@) {
        Some(at) => Some(line.skip(at + "(function: "@.len())),
        None => match find(line, "(loop: "@) {
            Some(at) => Some(line.skip(at + "(loop: "@.len())),
            None => None,
        },
    }
}

/// The function that a header line names, if it names one.
/// The outer option is `None` where the name has no end.
pub open spec fn affected_function(line: Seq<char>) -> Option<Option<Seq<char>>> {
    match affected_rest(line) {
        Some(rest) => match find(rest, ")"@) {
            Some(end) => Some(Some(rest.take(end))),
            None => None,
        },
        None => Some(None),
    }
}

/// The dump that a header line opens, still without lines.
/// It is `None` where the closing mark of the header or of the function's name is missing.
pub open spec fn opened_dump(line: Seq<char>) -> Option<PassDumpModel> {
    match (header_rest(line), affected_function(line)) {
        (Some((rest, mark)), Some(function)) => match find(rest, mark) {
            Some(end) => Some(
                PassDumpModel {
                    header: rest.take(end),
                    affected_function: function,
                    machine: "#"@.is_prefix_of(line),
                    lines: Seq::empty(),
                },
            ),
            None => None,
        },
        _ => None,
    }
}

/// The text of the lines below a header: each line with a line feed behind it, except that a
/// blank line is left out where the line before it is blank. `after_blank` says whether the
/// first line counts as one that follows a blank line.
pub open spec fn body_text(body: Seq<Seq<char>>, after_blank: bool) -> Seq<char>
    decreases body.len(),
{
    if body.len() == 0 {
        Seq::empty()
    } else {
        let blank = is_blank(body[0]);
        let shown = if blank && after_blank {
            Seq::empty()
        } else {
            body[0] + "\n"@
        };
        shown + body_text(body.drop_first(), blank)
    }
}

/// How many lines stand before the first header.
pub open spec fn lines_before_header(all: Seq<Seq<char>>) -> nat
    decreases all.len(),
{
    if all.len() == 0 || is_header(all[0]) {
        0
    } else {
        1 + lines_before_header(all.drop_first())
    }
}

/// Bounds on the number of lines before the first header.
pub proof fn lemma_lines_before_header(all: Seq<Seq<char>>)
    ensures
        lines_before_header(all) <= all.len(),
        lines_before_header(all) < all.len() ==> is_header(all[lines_before_header(all) as int]),
        forall|i: int| 0 <= i < lines_before_header(all) ==> !is_header(#[trigger] all[i]),
    decreases all.len(),
{
    if all.len() > 0 && !is_header(all[0]) {
        let rest = all.drop_first();
        lemma_lines_before_header(rest);
        assert forall|i: int| 0 <= i < lines_before_header(all) implies !is_header(
            #[trigger] all[i],
        ) by {
            if i > 0 {
                assert(!is_header(rest[i - 1]));
            }
        }
    }
}

/// The dumps of the passes: each header opens one, which takes the lines up to the next header.
/// Lines before the first header belong to no dump.
/// The result is `None` where some header cannot be read.
pub open spec fn pass_dumps(all: Seq<Seq<char>>) -> Option<Seq<PassDumpModel>>
    decreases all.len(),
{
    if all.len() == 0 {
        Some(Seq::empty())
    } else if !is_header(all[0]) {
        pass_dumps(all.drop_first())
    } else {
        proof {
            lemma_lines_before_header(all.drop_first());
        }
        let rest = all.drop_first();
        let count = lines_before_header(rest) as int;
        match (opened_dump(all[0]), pass_dumps(rest.skip(count))) {
            (Some(dump), Some(more)) => Some(
                seq![PassDumpModel { lines: body_text(rest.take(count), true), ..dump }] + more,
            ),
            _ => None,
        }
    }
}

/// `done` and what follows it, where that can be read.
pub open spec fn prepended<A>(done: Seq<A>, more: Option<Seq<A>>) -> Option<Seq<A>> {
    match more {
        Some(more) => Some(done + more),
        None => None,
    }
}

/// The dumps that come out when `done` are finished, `open` is being filled and the lines `rest`
/// are still to be read.
spec fn resumed(
    done: Seq<PassDumpModel>,
    open: Option<PassDumpModel>,
    after_blank: bool,
    rest: Seq<Seq<char>>,
) -> Option<Seq<PassDumpModel>> {
    match open {
        None => prepended(done, pass_dumps(rest)),
        Some(dump) => {
            let count = lines_before_header(rest) as int;
            let full = PassDumpModel {
                lines: dump.lines + body_text(rest.take(count), after_blank),
                ..dump
            };
            prepended(done.push(full), pass_dumps(rest.skip(count)))
        },
    }
}

proof fn lemma_resumed_header(
    done: Seq<PassDumpModel>,
    open: Option<PassDumpModel>,
    after_blank: bool,
    rest: Seq<Seq<char>>,
)
    requires
        rest.len() > 0,
        is_header(rest[0]),
    ensures
        resumed(done, open, after_blank, rest) == match opened_dump(rest[0]) {
            Some(dump) => resumed(
                match open {
                    Some(finished) => done.push(finished),
                    None => done,
                },
                Some(dump),
                true,
                rest.drop_first(),
            ),
            None => None,
        },
{
    let tail = rest.drop_first();
    let flushed = match open {
        Some(finished) => done.push(finished),
        None => done,
    };
    lemma_lines_before_header(tail);
    if open is Some {
        let finished = open->0;
        assert(rest.take(0) =~= Seq::<Seq<char>>::empty());
        assert(rest.skip(0) =~= rest);
        assert(finished.lines + Seq::<char>::empty() =~= finished.lines);
    }
    assert(resumed(done, open, after_blank, rest) == prepended(flushed, pass_dumps(rest)));
    if opened_dump(rest[0]) is Some {
        let dump = opened_dump(rest[0])->0;
        let count = lines_before_header(tail) as int;
        let body = body_text(tail.take(count), true);
        assert(dump.lines + body =~= body);
        if pass_dumps(tail.skip(count)) is Some {
            let full = PassDumpModel { lines: body, ..dump };
            let more = pass_dumps(tail.skip(count))->0;
            assert(flushed + (seq![full] + more) =~= flushed.push(full) + more);
        }
    }
}

proof fn lemma_resumed_body(
    done: Seq<PassDumpModel>,
    open: Option<PassDumpModel>,
    after_blank: bool,
    rest: Seq<Seq<char>>,
)
    requires
        rest.len() > 0,
        !is_header(rest[0]),
    ensures
        resumed(done, open, after_blank, rest) == resumed(
            done,
            match open {
                Some(dump) => Some(
                    PassDumpModel {
                        lines: if is_blank(rest[0]) && after_blank {
                            dump.lines
                        } else {
                            dump.lines + rest[0] + "\n"@
                        },
                        ..dump
                    },
                ),
                None => None,
            },
            is_blank(rest[0]),
            rest.drop_first(),
        ),
{
    if open is Some {
        let dump = open->0;
        let tail = rest.drop_first();
        lemma_lines_before_header(tail);
        let count = lines_before_header(tail) as int;
        let body = rest.take(count + 1);
        assert(body.drop_first() =~= tail.take(count));
        assert(rest.skip(count + 1) =~= tail.skip(count));
        let blank = is_blank(rest[0]);
        let more = body_text(tail.take(count), blank);
        if blank && after_blank {
            assert(dump.lines + (Seq::<char>::empty() + more) =~= dump.lines + more);
        } else {
            assert(dump.lines + (rest[0] + "\n"@ + more) =~= dump.lines + rest[0] + "\n"@ + more);
        }
    }
}

spec fn optional_model(dump: Option<PassDump>) -> Option<PassDumpModel> {
    match dump {
        Some(dump) => Some(dump@),
        None => None,
    }
}

/// Reads a header line. It is `None` where the header or the function's name has no end.
pub fn open_dump(line: &str) -> (res: Option<PassDump>)
    requires
        is_header(line@),
    ensures
        match res {
            Some(dump) => opened_dump(line@) == Some(dump@),
            None => opened_dump(line@) is None,
        },
{
    let (rest, mark) = if let Some(rest) = strip_prefix(line, "; *** ") {
        (rest, " ***")
    } else if let Some(rest) = strip_prefix(line, "*** ") {
        (rest, " ***")
    } else if let Some(rest) = strip_prefix(line, "// -----// ") {
        (rest, " //----- //")
    } else if let Some(rest) = strip_prefix(line, "# *** ") {
        (rest, " ***")
    } else {
        return None;
    };
    proof {
        reveal_strlit(" ***");
        reveal_strlit(" //----- //");
        reveal_strlit("(function: ");
        reveal_strlit("(loop: ");
        reveal_strlit(")");
    }
    let header = match split_first(rest, mark) {
        Some((header, _)) => header,
        None => {
            return None;
        },
    };
    let named = match split_first(line, "(function: ") {
        Some((_, named)) => Some(named),
        None => match split_first(line, "(loop: ") {
            Some((_, named)) => Some(named),
            None => None,
        },
    };
    let affected_function = match named {
        Some(named) => match split_first(named, ")") {
            Some((name, _)) => Some(name.to_string()),
            None => {
                return None;
            },
        },
        None => None,
    };
    let dump = PassDump {
        header: header.to_string(),
        affected_function,
        machine: starts_with(line, "#"),
        lines: String::new(),
    };
    assert(dump@ =~= opened_dump(line@)->0);
    Some(dump)
}

/// Whether a line opens the dump of a pass.
pub fn is_header_line(line: &str) -> (res: bool)
    ensures
        res == is_header(line@),
{
    starts_with(line, "; *** ") || starts_with(line, "*** ") || starts_with(line, "// -----// ")
        || starts_with(line, "# *** ")
}

/// Cuts the output of the compiler into the dumps of its passes.
/// It is `None` where some header cannot be read.
pub fn read_pass_dumps(ir: &str) -> (res: Option<Vec<PassDump>>)
    ensures
        match res {
            Some(dumps) => pass_dumps(lines(ir@)) == Some(dump_models(dumps@)),
            None => pass_dumps(lines(ir@)) is None,
        },
{
    let all = lines_of(ir);
    let ghost texts = lines(ir@);
    let mut raw_passes: Vec<PassDump> = Vec::new();
    let mut pass: Option<PassDump> = None;
    let mut last_was_blank = false;
    let mut i: usize = 0;
    proof {
        assert(texts.skip(0) =~= texts);
        assert(dump_models(raw_passes@) =~= Seq::<PassDumpModel>::empty());
        assert(resumed(Seq::empty(), None, false, texts) == pass_dumps(texts)) by {
            if pass_dumps(texts) is Some {
                assert(Seq::<PassDumpModel>::empty() + pass_dumps(texts)->0 =~= pass_dumps(
                    texts,
                )->0);
            }
        }
    }
    while i < all.len()
        invariant
            texts == lines(ir@),
            all@.len() == texts.len(),
            forall|j: int| 0 <= j < all@.len() ==> (#[trigger] all@[j])@ == texts[j],
            i <= all@.len(),
            resumed(
                dump_models(raw_passes@),
                optional_model(pass),
                last_was_blank,
                texts.skip(i as int),
            ) == pass_dumps(texts),
        decreases all@.len() - i,
    {
        let line = all[i];
        let ghost rest = texts.skip(i as int);
        let ghost done = dump_models(raw_passes@);
        let ghost open = optional_model(pass);
        proof {
            assert(rest[0] == line@);
            assert(rest.drop_first() =~= texts.skip(i + 1));
        }
        if is_header_line(line) {
            proof {
                lemma_resumed_header(done, open, last_was_blank, rest);
            }
            if let Some(current_pass) = pass.take() {
                raw_passes.push(current_pass);
                assert(dump_models(raw_passes@) =~= done.push(current_pass@));
            }
            match open_dump(line) {
                Some(opened) => {
                    pass = Some(opened);
                },
                None => {
                    return None;
                },
            }
            last_was_blank = true;
        } else {
            proof {
                lemma_resumed_body(done, open, last_was_blank, rest);
            }
            let blank = is_blank_text(line);
            if let Some(mut current_pass) = pass.take() {
                let ghost before = current_pass@;
                if !(blank && last_was_blank) {
                    current_pass.lines.append(line);
                    current_pass.lines.append("\n");
                }
                assert(current_pass@ =~= PassDumpModel { lines: current_pass.lines@, ..before });
                pass = Some(current_pass);
            }
            last_was_blank = blank;
        }
        i += 1;
    }
    proof {
        let rest = texts.skip(i as int);
        assert(rest =~= Seq::<Seq<char>>::empty());
        assert(rest.take(0) =~= Seq::<Seq<char>>::empty());
        assert(rest.skip(0) =~= rest);
        let done = dump_models(raw_passes@);
        if pass is Some {
            let last = pass->0@;
            assert(last.lines + Seq::<char>::empty() =~= last.lines);
            assert(done.push(last) + Seq::<PassDumpModel>::empty() =~= done.push(last));
        } else {
            assert(done + Seq::<PassDumpModel>::empty() =~= done);
        }
    }
    if let Some(current_pass) = pass {
        let ghost done = dump_models(raw_passes@);
        raw_passes.push(current_pass);
        assert(dump_models(raw_passes@) =~= done.push(current_pass@));
    }
    Some(raw_passes)
}

/// The lines that open a dump.
pub open spec fn headers(all: Seq<Seq<char>>) -> Seq<Seq<char>>
    decreases all.len(),
{
    if all.len() == 0 {
        Seq::empty()
    } else if is_header(all[0]) {
        seq![all[0]] + headers(all.drop_first())
    } else {
        headers(all.drop_first())
    }
}

/// Lines before the first header open no dump.
proof fn lemma_no_header(all: Seq<Seq<char>>, n: int)
    requires
        0 <= n <= lines_before_header(all),
    ensures
        n <= all.len(),
        headers(all.skip(n)) == headers(all),
    decreases n,
{
    lemma_lines_before_header(all);
    if n > 0 {
        lemma_no_header(all.drop_first(), n - 1);
        assert(all.drop_first().skip(n - 1) =~= all.skip(n));
    } else {
        assert(all.skip(0) =~= all);
    }
}

/// The dumps can be read if and only if each header can. There are as many dumps as headers; a
/// text without headers has none.
pub proof fn lemma_one_dump_per_header(all: Seq<Seq<char>>)
    ensures
        pass_dumps(all) is Some <==> forall|i: int|
            0 <= i < all.len() && is_header(#[trigger] all[i]) ==> opened_dump(all[i]) is Some,
        pass_dumps(all) is Some ==> pass_dumps(all)->0.len() == headers(all).len(),
    decreases all.len(),
{
    if all.len() == 0 {
    } else if !is_header(all[0]) {
        let rest = all.drop_first();
        lemma_one_dump_per_header(rest);
        if pass_dumps(all) is Some {
            assert forall|i: int| 0 <= i < all.len() && is_header(
                #[trigger] all[i],
            ) implies opened_dump(all[i]) is Some by {
                assert(rest[i - 1] == all[i]);
            }
        } else {
            let i = choose|i: int|
                0 <= i < rest.len() && is_header(#[trigger] rest[i]) && opened_dump(rest[i])
                    is None;
            assert(all[i + 1] == rest[i]);
        }
    } else {
        let rest = all.drop_first();
        lemma_lines_before_header(rest);
        let count = lines_before_header(rest) as int;
        let tail = rest.skip(count);
        lemma_one_dump_per_header(tail);
        lemma_no_header(rest, count);
        if pass_dumps(all) is Some {
            assert forall|i: int| 0 <= i < all.len() && is_header(
                #[trigger] all[i],
            ) implies opened_dump(all[i]) is Some by {
                if i > 0 {
                    assert(rest[i - 1] == all[i]);
                    assert(tail[i - 1 - count] == all[i]);
                }
            }
        } else if opened_dump(all[0]) is Some {
            let i = choose|i: int|
                0 <= i < tail.len() && is_header(#[trigger] tail[i]) && opened_dump(tail[i])
                    is None;
            assert(all[i + 1 + count] == tail[i]);
        }
    }
}

/// Where the first lines end before a header, they hold the same number of lines before it alone.
proof fn lemma_lines_before_header_concat(first: Seq<Seq<char>>, second: Seq<Seq<char>>)
    requires
        second.len() == 0 || is_header(second[0]),
    ensures
        lines_before_header(first + second) == lines_before_header(first),
    decreases first.len(),
{
    if first.len() == 0 {
        assert(first + second =~= second);
    } else {
        assert((first + second).drop_first() =~= first.drop_first() + second);
        lemma_lines_before_header_concat(first.drop_first(), second);
    }
}

/// What comes of two parts.
pub open spec fn concatenated<A>(first: Option<Seq<A>>, second: Option<Seq<A>>) -> Option<Seq<A>> {
    match (first, second) {
        (Some(first), Some(second)) => Some(first + second),
        _ => None,
    }
}

/// A text can be cut at any header: the dumps of the two parts are the dumps of the whole.
pub proof fn lemma_cut_at_header(first: Seq<Seq<char>>, second: Seq<Seq<char>>)
    requires
        second.len() == 0 || is_header(second[0]),
    ensures
        pass_dumps(first + second) == concatenated(pass_dumps(first), pass_dumps(second)),
    decreases first.len(),
{
    let whole = first + second;
    if first.len() == 0 {
        assert(whole =~= second);
        if pass_dumps(second) is Some {
            assert(Seq::<PassDumpModel>::empty() + pass_dumps(second)->0 =~= pass_dumps(second)->0);
        }
    } else {
        let rest = first.drop_first();
        assert(whole.drop_first() =~= rest + second);
        if !is_header(first[0]) {
            lemma_cut_at_header(rest, second);
        } else {
            lemma_lines_before_header_concat(rest, second);
            lemma_lines_before_header(rest);
            let count = lines_before_header(rest) as int;
            assert((rest + second).take(count) =~= rest.take(count));
            assert((rest + second).skip(count) =~= rest.skip(count) + second);
            lemma_cut_at_header(rest.skip(count), second);
            if opened_dump(first[0]) is Some && pass_dumps(rest.skip(count)) is Some && pass_dumps(
                second,
            ) is Some {
                let dump = PassDumpModel {
                    lines: body_text(rest.take(count), true),
                    ..opened_dump(first[0])->0
                };
                let more = pass_dumps(rest.skip(count))->0;
                let last = pass_dumps(second)->0;
                assert(seq![dump] + (more + last) =~= seq![dump] + more + last);
            }
        }
    }
}

/// The lines below a header that are kept.
pub open spec fn kept_lines(body: Seq<Seq<char>>, after_blank: bool) -> Seq<Seq<char>>
    decreases body.len(),
{
    if body.len() == 0 {
        Seq::empty()
    } else {
        let rest = kept_lines(body.drop_first(), is_blank(body[0]));
        if is_blank(body[0]) && after_blank {
            rest
        } else {
            seq![body[0]] + rest
        }
    }
}

/// The lines that are not blank.
pub open spec fn lines_with_text(body: Seq<Seq<char>>) -> Seq<Seq<char>>
    decreases body.len(),
{
    if body.len() == 0 {
        Seq::empty()
    } else {
        let rest = lines_with_text(body.drop_first());
        if is_blank(body[0]) {
            rest
        } else {
            seq![body[0]] + rest
        }
    }
}

/// Lines as a text, each with a line feed behind it.
pub open spec fn text_of_lines(body: Seq<Seq<char>>) -> Seq<char>
    decreases body.len(),
{
    if body.len() == 0 {
        Seq::empty()
    } else {
        body[0] + "\n"@ + text_of_lines(body.drop_first())
    }
}

/// The text of a dump is made of the kept lines. All lines with text are kept, in their order; no
/// two kept lines in a row are blank, and the first one is not where it follows a header.
pub proof fn lemma_blank_lines_collapse(body: Seq<Seq<char>>, after_blank: bool)
    ensures
        ({
            let kept = kept_lines(body, after_blank);
            &&& body_text(body, after_blank) == text_of_lines(kept)
            &&& lines_with_text(kept) == lines_with_text(body)
            &&& after_blank && kept.len() > 0 ==> !is_blank(kept[0])
            &&& forall|i: int, j: int|
                0 <= i && j == i + 1 && j < kept.len() && is_blank(#[trigger] kept[i])
                    ==> !is_blank(#[trigger] kept[j])
        }),
    decreases body.len(),
{
    if body.len() > 0 {
        let blank = is_blank(body[0]);
        let rest = kept_lines(body.drop_first(), blank);
        lemma_blank_lines_collapse(body.drop_first(), blank);
        let kept = kept_lines(body, after_blank);
        if blank && after_blank {
            assert(Seq::<char>::empty() + body_text(body.drop_first(), blank) =~= body_text(
                body.drop_first(),
                blank,
            ));
        } else {
            assert(kept.drop_first() =~= rest);
            assert forall|i: int, j: int|
                0 <= i && j == i + 1 && j < kept.len() && is_blank(
                    #[trigger] kept[i],
                ) implies !is_blank(#[trigger] kept[j]) by {
                if i > 0 {
                    assert(kept[i] == rest[i - 1]);
                    assert(kept[j] == rest[j - 1]);
                } else {
                    assert(kept[j] == rest[0]);
                }
            }
        }
    }
}

/// Lines without line feeds and carriage returns in them.
pub open spec fn are_plain(all: Seq<Seq<char>>) -> bool {
    forall|i: int|
        0 <= i < all.len() ==> !(#[trigger] all[i]).contains('\n') && !all[i].contains('\r')
}

/// A text that is made of plain lines has these lines.
proof fn lemma_lines_of_lines(all: Seq<Seq<char>>)
    requires
        are_plain(all),
    ensures
        lines(text_of_lines(all)) == all,
    decreases all.len(),
{
    if all.len() == 0 {
        assert(lines(text_of_lines(all)) =~= all);
    } else {
        reveal_strlit("\n");
        assert("\n"@ =~= newline());
        let rest = all.drop_first();
        assert forall|i: int| 0 <= i < rest.len() implies !(#[trigger] rest[i]).contains('\n')
            && !rest[i].contains('\r') by {
            assert(rest[i] == all[i + 1]);
        }
        lemma_lines_of_lines(rest);
        let line = all[0];
        assert(!line.contains('\n') && !line.contains('\r'));
        lemma_lines_first(line, text_of_lines(rest));
        if line.len() > 0 {
            assert(line.last() == line[line.len() - 1]);
        }
        assert(without_carriage_return(line) == line);
        assert(seq![line] + rest =~= all);
    }
}

/// Every line that is kept is a line below the header.
proof fn lemma_kept_from_body(body: Seq<Seq<char>>, after_blank: bool, i: int)
    requires
        0 <= i < kept_lines(body, after_blank).len(),
    ensures
        body.contains(kept_lines(body, after_blank)[i]),
    decreases body.len(),
{
    let tail = body.drop_first();
    let rest = kept_lines(tail, is_blank(body[0]));
    let kept = kept_lines(body, after_blank);
    let skipped = if is_blank(body[0]) && after_blank {
        0int
    } else {
        1int
    };
    if i < skipped {
        assert(body[0] == kept[i]);
    } else {
        lemma_kept_from_body(tail, is_blank(body[0]), i - skipped);
        let j = choose|j: int| 0 <= j < tail.len() && tail[j] == rest[i - skipped];
        assert(body[j + 1] == kept[i]);
    }
}

/// Lines without runs of blank lines are all kept.
proof fn lemma_all_kept(body: Seq<Seq<char>>, after_blank: bool)
    requires
        after_blank && body.len() > 0 ==> !is_blank(body[0]),
        forall|i: int, j: int|
            0 <= i && j == i + 1 && j < body.len() && is_blank(#[trigger] body[i]) ==> !is_blank(
                #[trigger] body[j],
            ),
    ensures
        kept_lines(body, after_blank) == body,
    decreases body.len(),
{
    if body.len() > 0 {
        let tail = body.drop_first();
        if tail.len() > 0 && is_blank(body[0]) {
            assert(!is_blank(body[1]));
        }
        assert forall|i: int, j: int|
            0 <= i && j == i + 1 && j < tail.len() && is_blank(
                #[trigger] tail[i],
            ) implies !is_blank(#[trigger] tail[j]) by {
            assert(tail[i] == body[i + 1]);
            assert(tail[j] == body[j + 1]);
        }
        lemma_all_kept(tail, is_blank(body[0]));
        assert(seq![body[0]] + tail =~= body);
    } else {
        assert(kept_lines(body, after_blank) =~= body);
    }
}

/// A header and lines that open no dump make up one dump.
pub proof fn lemma_single_dump(header: Seq<char>, body: Seq<Seq<char>>)
    requires
        opened_dump(header) is Some,
        forall|i: int| 0 <= i < body.len() ==> !is_header(#[trigger] body[i]),
    ensures
        pass_dumps(seq![header] + body) == Some(
            seq![PassDumpModel { lines: body_text(body, true), ..opened_dump(header)->0 }],
        ),
{
    let all = seq![header] + body;
    assert(all.drop_first() =~= body);
    lemma_lines_before_header(body);
    let count = lines_before_header(body) as int;
    if count < body.len() {
        assert(!is_header(body[count]));
    }
    assert(body.take(count) =~= body);
    assert(body.skip(count) =~= Seq::<Seq<char>>::empty());
    assert(pass_dumps(body.skip(count)) == Some(Seq::<PassDumpModel>::empty()));
    assert(is_header(all[0]));
    let dump = PassDumpModel { lines: body_text(body, true), ..opened_dump(header)->0 };
    assert(seq![dump] + Seq::<PassDumpModel>::empty() =~= seq![dump]);
}

/// A dump comes from a header and the lines below it, which open no dump.
proof fn lemma_dump_from_lines(all: Seq<Seq<char>>, dumps: Seq<PassDumpModel>, k: int) -> (found: (
    int,
    int,
))
    requires
        pass_dumps(all) == Some(dumps),
        0 <= k < dumps.len(),
    ensures
        k < headers(all).len(),
        0 <= found.0 < found.1 <= all.len(),
        headers(all)[k] == all[found.0],
        opened_dump(all[found.0]) is Some,
        forall|i: int| found.0 < i < found.1 ==> !is_header(#[trigger] all[i]),
        dumps[k] == (PassDumpModel {
            lines: body_text(all.subrange(found.0 + 1, found.1), true),
            ..opened_dump(all[found.0])->0
        }),
    decreases all.len(),
{
    let rest = all.drop_first();
    if !is_header(all[0]) {
        let (start, end) = lemma_dump_from_lines(rest, dumps, k);
        assert(rest.subrange(start + 1, end) =~= all.subrange(start + 2, end + 1));
        assert forall|i: int| start + 1 < i < end + 1 implies !is_header(#[trigger] all[i]) by {
            assert(rest[i - 1] == all[i]);
        }
        (start + 1, end + 1)
    } else {
        lemma_lines_before_header(rest);
        let count = lines_before_header(rest) as int;
        lemma_no_header(rest, count);
        if k == 0 {
            assert(rest.take(count) =~= all.subrange(1, count + 1));
            assert forall|i: int| 0 < i < count + 1 implies !is_header(#[trigger] all[i]) by {
                assert(rest[i - 1] == all[i]);
            }
            (0, count + 1)
        } else {
            let tail = rest.skip(count);
            let more = pass_dumps(tail)->0;
            assert(dumps[k] == more[k - 1]);
            let (start, end) = lemma_dump_from_lines(tail, more, k - 1);
            let offset = count + 1;
            assert(tail.subrange(start + 1, end) =~= all.subrange(
                start + 1 + offset,
                end + offset,
            ));
            assert forall|i: int| start + offset < i < end + offset implies !is_header(
                #[trigger] all[i],
            ) by {
                assert(tail[i - offset] == all[i]);
            }
            (start + offset, end + offset)
        }
    }
}

/// A header line and the text of its dump, read again, give that dump, where there are no carriage
/// returns.
pub proof fn lemma_dump_read_again(ir: Seq<char>, dumps: Seq<PassDumpModel>, k: int)
    requires
        !ir.contains('\r'),
        pass_dumps(lines(ir)) == Some(dumps),
        0 <= k < dumps.len(),
    ensures
        k < headers(lines(ir)).len(),
        pass_dumps(lines(headers(lines(ir))[k] + "\n"@ + dumps[k].lines)) == Some(seq![dumps[k]]),
{
    let all = lines(ir);
    let (start, end) = lemma_dump_from_lines(all, dumps, k);
    let header = all[start];
    let body = all.subrange(start + 1, end);
    let kept = kept_lines(body, true);
    assert(are_plain(all)) by {
        assert forall|i: int| 0 <= i < all.len() implies !(#[trigger] all[i]).contains('\n')
            && !all[i].contains('\r') by {
            lemma_line_in_text(ir, i);
            if all[i].contains('\r') {
                let at = choose|at: int| occurs_at(ir, all[i], at);
                let j = choose|j: int| 0 <= j < all[i].len() && all[i][j] == '\r';
                assert(ir.subrange(at, at + all[i].len())[j] == ir[at + j]);
            }
        }
    }
    assert forall|i: int| 0 <= i < kept.len() implies !is_header(#[trigger] kept[i])
        && !kept[i].contains('\n') && !kept[i].contains('\r') by {
        lemma_kept_from_body(body, true, i);
        let j = choose|j: int| 0 <= j < body.len() && body[j] == kept[i];
        assert(all[j + start + 1] == kept[i]);
    }
    lemma_blank_lines_collapse(body, true);
    lemma_blank_lines_collapse(kept, true);
    lemma_all_kept(kept, true);
    let whole = seq![header] + kept;
    assert forall|i: int| 0 <= i < whole.len() implies !(#[trigger] whole[i]).contains('\n')
        && !whole[i].contains('\r') by {
        if i > 0 {
            assert(whole[i] == kept[i - 1]);
        } else {
            assert(whole[i] == all[start]);
        }
    }
    assert(whole.drop_first() =~= kept);
    assert(text_of_lines(whole) == header + "\n"@ + dumps[k].lines);
    lemma_lines_of_lines(whole);
    lemma_single_dump(header, kept);
}

/// A line is made of the mark of a header and a rest.
pub open spec fn is_marked(line: Seq<char>, rest: Seq<char>) -> bool {
    ||| line == "; *** "@ + rest
    ||| line == "*** "@ + rest
    ||| line == "// -----// "@ + rest
    ||| line == "# *** "@ + rest
}

/// A dump opens at a line with one of four marks in front, and at no other line.
pub proof fn lemma_header_marks(line: Seq<char>)
    ensures
        is_header(line) <==> exists|rest: Seq<char>| is_marked(line, rest),
{
    lemma_prefix_is_concat(line, "; *** "@);
    lemma_prefix_is_concat(line, "*** "@);
    lemma_prefix_is_concat(line, "// -----// "@);
    lemma_prefix_is_concat(line, "# *** "@);
    if is_header(line) {
        let (rest, _) = header_rest(line)->0;
        assert(is_marked(line, rest));
    }
    if exists|rest: Seq<char>| is_marked(line, rest) {
        let rest = choose|rest: Seq<char>| is_marked(line, rest);
        lemma_concat_is_prefix("; *** "@, rest);
        lemma_concat_is_prefix("*** "@, rest);
        lemma_concat_is_prefix("// -----// "@, rest);
        lemma_concat_is_prefix("# *** "@, rest);
    }
}

proof fn lemma_prefix_is_concat(line: Seq<char>, mark: Seq<char>)
    ensures
        mark.is_prefix_of(line) ==> mark + line.skip(mark.len() as int) == line,
{
    if mark.is_prefix_of(line) {
        assert(mark + line.skip(mark.len() as int) =~= line);
    }
}

proof fn lemma_concat_is_prefix(mark: Seq<char>, rest: Seq<char>)
    ensures
        mark.is_prefix_of(mark + rest),
        (mark + rest).skip(mark.len() as int) == rest,
{
    assert(mark =~= (mark + rest).take(mark.len() as int));
    assert((mark + rest).skip(mark.len() as int) =~= rest);
}

/// The marks around the header of a dump: the one in front of it, the one behind it, and whether
/// they stand for machine code.
pub open spec fn are_header_marks(open: Seq<char>, close: Seq<char>, machine: bool) -> bool {
    ||| open == "; *** "@ && close == " ***"@ && !machine
    ||| open == "*** "@ && close == " ***"@ && !machine
    ||| open == "// -----// "@ && close == " //----- //"@ && !machine
    ||| open == "# *** "@ && close == " ***"@ && machine
}

proof fn lemma_marked_line(open: Seq<char>, close: Seq<char>, machine: bool, tail: Seq<char>)
    requires
        are_header_marks(open, close, machine),
    ensures
        header_rest(open + tail) == Some((tail, close)),
        "#"@.is_prefix_of(open + tail) == machine,
{
    let line = open + tail;
    reveal_strlit("; *** ");
    reveal_strlit("*** ");
    reveal_strlit("// -----// ");
    reveal_strlit("# *** ");
    reveal_strlit("#");
    lemma_concat_is_prefix(open, tail);
    assert(line[0] == open[0]);
    if "; *** "@.is_prefix_of(line) {
        assert("; *** "@[0] == line[0]);
    }
    if "*** "@.is_prefix_of(line) {
        assert("*** "@[0] == line[0]);
    }
    if "// -----// "@.is_prefix_of(line) {
        assert("// -----// "@[0] == line[0]);
    }
    if "# *** "@.is_prefix_of(line) {
        assert("# *** "@[0] == line[0]);
    }
    assert("#"@.is_prefix_of(line) <==> line[0] == '#') by {
        if line[0] == '#' {
            assert("#"@ =~= line.take(1));
        } else if "#"@.is_prefix_of(line) {
            assert("#"@[0] == line[0]);
        }
    }
}

/// The header of a dump is what stands between the two marks of its line, whatever follows. The
/// dump is machine code if and only if the marks say so, and begins without lines.
pub proof fn lemma_header_between_marks(
    open: Seq<char>,
    header: Seq<char>,
    close: Seq<char>,
    rest: Seq<char>,
    machine: bool,
)
    requires
        are_header_marks(open, close, machine),
        find(header + close + rest, close) == Some(header.len() as int),
    ensures
        ({
            let line = open + header + close + rest;
            &&& is_header(line)
            &&& opened_dump(line) is Some <==> affected_function(line) is Some
            &&& opened_dump(line) is Some ==> opened_dump(line)->0 == (PassDumpModel {
                header,
                affected_function: affected_function(line)->0,
                machine,
                lines: Seq::empty(),
            })
        }),
{
    let line = open + header + close + rest;
    let tail = header + close + rest;
    assert(line =~= open + tail);
    lemma_marked_line(open, close, machine, tail);
    assert(tail.take(header.len() as int) =~= header);
}

/// A header line without the mark that ends the header opens a dump that cannot be read.
pub proof fn lemma_header_without_end(
    open: Seq<char>,
    close: Seq<char>,
    machine: bool,
    rest: Seq<char>,
)
    requires
        are_header_marks(open, close, machine),
        !contains(rest, close),
    ensures
        is_header(open + rest),
        opened_dump(open + rest) is None,
{
    lemma_marked_line(open, close, machine, rest);
}

/// A line names the function that stands in brackets behind the word `function`, or, where that
/// word is not in it, the loop that stands behind the word `loop`, or else none. A name without an
/// end cannot be read.
pub proof fn lemma_function_in_header(
    before: Seq<char>,
    word: Seq<char>,
    name: Seq<char>,
    after: Seq<char>,
)
    requires
        word == "(function: "@ || word == "(loop: "@,
        !name.contains(')'),
    ensures
        ({
            let line = before + word + name + ")"@ + after;
            &&& word == "(function: "@ && find(line, word) == Some(before.len() as int)
                ==> affected_function(line) == Some(Some(name))
            &&& word == "(loop: "@ && !contains(line, "(function: "@) && find(line, word) == Some(
                before.len() as int,
            ) ==> affected_function(line) == Some(Some(name))
        }),
        ({
            let line = before + word + name;
            &&& word == "(function: "@ && find(line, word) == Some(before.len() as int)
                ==> affected_function(line) is None
            &&& word == "(loop: "@ && !contains(line, "(function: "@) && find(line, word) == Some(
                before.len() as int,
            ) ==> affected_function(line) is None
        }),
        !contains(before, "(function: "@) && !contains(before, "(loop: "@) ==> affected_function(
            before,
        ) == Some(None::<Seq<char>>),
{
    reveal_strlit(")");
    let line = before + word + name + ")"@ + after;
    let rest = name + ")"@ + after;
    assert(line.skip(before.len() as int + word.len()) =~= rest);
    let at = name.len() as int;
    assert(rest.subrange(at, at + 1) =~= ")"@);
    assert forall|i: int| 0 <= i < at implies !occurs_at(rest, ")"@, i) by {
        if occurs_at(rest, ")"@, i) {
            assert(rest.subrange(i, i + 1)[0] == name[i]);
        }
    }
    assert(first_at(rest, ")"@, at));
    lemma_find_at(rest, ")"@, at);
    assert(rest.take(at) =~= name);
    lemma_find_is_first(line, "(function: "@);
    let open = before + word + name;
    assert(open.skip(before.len() as int + word.len()) =~= name);
    assert forall|i: int| !occurs_at(name, ")"@, i) by {
        if occurs_at(name, ")"@, i) {
            assert(name.subrange(i, i + 1)[0] == name[i]);
            assert(name.contains(')'));
        }
    }
    assert(find(name, ")"@) is None);
    lemma_find_is_first(open, "(function: "@);
}

/// The text of a dump grows line by line: a line with text is added, with a line feed behind it; a
/// blank line is added behind a line with text, and left out behind a blank line and behind the
/// header.
pub proof fn lemma_body_one_by_one(body: Seq<Seq<char>>, line: Seq<char>, after_blank: bool)
    ensures
        body_text(Seq::empty(), after_blank) == Seq::<char>::empty(),
        ({
            let follows_blank = if body.len() > 0 {
                is_blank(body.last())
            } else {
                after_blank
            };
            body_text(body.push(line), after_blank) == if is_blank(line) && follows_blank {
                body_text(body, after_blank)
            } else {
                body_text(body, after_blank) + line + "\n"@
            }
        }),
    decreases body.len(),
{
    let all = body.push(line);
    if body.len() == 0 {
        assert(all.drop_first() =~= Seq::<Seq<char>>::empty());
        assert(body_text(all.drop_first(), is_blank(line)) == Seq::<char>::empty());
        assert(Seq::<char>::empty() + Seq::<char>::empty() =~= Seq::<char>::empty());
        assert(line + "\n"@ + Seq::<char>::empty() =~= Seq::<char>::empty() + line + "\n"@);
    } else {
        let blank = is_blank(body[0]);
        let rest = body.drop_first();
        assert(all.drop_first() =~= rest.push(line));
        lemma_body_one_by_one(rest, line, blank);
        let shown = if blank && after_blank {
            Seq::empty()
        } else {
            body[0] + "\n"@
        };
        assert(shown + (body_text(rest, blank) + line + "\n"@) =~= shown + body_text(rest, blank)
            + line + "\n"@);
        if rest.len() > 0 {
            assert(rest.last() == body.last());
        }
    }
}

/// Lines that open no dump belong to none where no header stands before them.
pub proof fn lemma_no_dump_without_header(all: Seq<Seq<char>>)
    requires
        forall|i: int| 0 <= i < all.len() ==> !is_header(#[trigger] all[i]),
    ensures
        pass_dumps(all) == Some(Seq::<PassDumpModel>::empty()),
    decreases all.len(),
{
    if all.len() > 0 {
        let rest = all.drop_first();
        assert forall|i: int| 0 <= i < rest.len() implies !is_header(#[trigger] rest[i]) by {
            assert(rest[i] == all[i + 1]);
        }
        lemma_no_dump_without_header(rest);
    }
}

} // verus!
