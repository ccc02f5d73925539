//! Reads the pass dumps of LLVM.
use crate::dump::{
    affected_function, dump_models, is_header, lemma_no_dump_without_header, opened_dump,
    pass_dumps, read_pass_dumps, PassDump, PassDumpModel,
};
use crate::filter::{apply_filters, filter_pattern, filtered, OptPipelineBackendOptions};
use crate::group::{
    dumps_by_function, dumps_by_module, first_names, full_module, function_dumps,
    gather_by_function, gather_by_module, lemma_grouped_by_name, lemma_module_entries,
    lemma_no_loop_gathered, module_names, named_functions, owned, shown, split_models,
    subjects_known,
};
use crate::passes::{
    all_filled, function_passes, lemma_changed_is_different, lemma_functions_are_independent,
    pair_all_dumps, pipeline, pipelines, MismatchModel, OptPipelineResults, Pairing, PassDumpError,
    PassModel,
};
use crate::pattern::{
    compile, is_ascii_header_subject, is_ascii_ir_dump_header, is_ascii_name, is_header_core,
    is_header_lead, is_header_remark, is_ir_dump_header, is_line_text, is_machine_dump_header,
    is_match, regex_matches, regex_source, FUNCTION_END, IR_DUMP_HEADER, MACHINE_CODE_DUMP_HEADER,
    MACHINE_FUNCTION_END,
};
use crate::residue::is_left;
use crate::search::{byte_positions, bytes_at};
use crate::split::{loop_name, read_functions, split_functions, SplitModel, SplitPassDump};
use crate::table::{distinct_names, entry_position, FunctionTable};
use crate::text::{
    contains, find, first_at, is_subsequence, lemma_absent, lemma_contains_is_between,
    lemma_encode_concat, lemma_encode_injective, lemma_find_at, lemma_find_is_first,
    lemma_prefix_boundary, lines, newline, occurs_at, split_bytes, split_found,
};
use regex::Regex;
use vstd::prelude::*;
use vstd::string::*;
use vstd::utf8::*;

verus! {

/// The byte of a line feed.
const LINE_FEED: u8 = 0x0a;

/// Reads pass dumps. It holds the patterns for the lines that open and end dumps and functions.
pub struct LlvmPassDumpParser {
    ir_dump_header: Regex,
    machine_code_dump_header: Regex,
    function_end: Regex,
    machine_function_end: Regex,
}

/// A line that opens the dump of a pass.
pub open spec fn is_dump_header(line: Seq<char>) -> bool {
    is_ir_dump_header(line) || is_machine_dump_header(line)
}

/// How much of the output comes before the dumps: all lines up to the first header. Only lines
/// that end in a line feed count as headers; where none of them is one, the dumps begin with the
/// text after the last line feed.
pub open spec fn preamble(output: Seq<char>) -> nat
    decreases output.len(),
{
    match find(output, newline()) {
        Some(at) => {
            proof {
                lemma_find_is_first(output, newline());
            }
            if is_dump_header(output.take(at)) {
                0
            } else {
                (at + 1) as nat + preamble(output.skip(at + 1))
            }
        },
        None => 0,
    }
}

/// A dump and the functions that it shows.
pub open spec fn split_dump(dump: PassDumpModel) -> Option<SplitModel> {
    match split_functions(dump.lines) {
        Some(functions) => Some(
            SplitModel { header: dump.header, machine: dump.machine, functions },
        ),
        None => None,
    }
}

/// The dumps and the functions that they show.
pub open spec fn split_dumps(dumps: Seq<PassDumpModel>) -> Option<Seq<SplitModel>>
    decreases dumps.len(),
{
    if dumps.len() == 0 {
        Some(Seq::empty())
    } else {
        match (split_dumps(dumps.drop_last()), split_dump(dumps.last())) {
            (Some(before), Some(last)) => Some(before.push(last)),
            _ => None,
        }
    }
}

/// The dumps of each function in a text that begins with a dump.
pub open spec fn gathered(
    ir: Seq<char>,
    full_module: bool,
) -> Option<Seq<(Seq<char>, Seq<PassDumpModel>)>> {
    match pass_dumps(lines(ir)) {
        Some(dumps) => if full_module {
            dumps_by_module(dumps)
        } else {
            match split_dumps(dumps) {
                Some(splits) => dumps_by_function(splits),
                None => None,
            }
        },
        None => None,
    }
}

/// The pipelines of all functions in a text that begins with a dump.
/// It is `None` where a dump cannot be read.
pub open spec fn broken_down(
    ir: Seq<char>,
    full_module: bool,
) -> Pairing<(Seq<char>, Seq<PassModel>)> {
    match gathered(ir, full_module) {
        Some(entries) => pipelines(entries),
        None => None,
    }
}

/// The dumps in the output of a compiler, filtered where the options ask for it.
pub open spec fn dumps_in(output: Seq<char>, options: OptPipelineBackendOptions) -> Seq<char> {
    let ir = output.skip(preamble(output) as int);
    if options.apply_filters {
        filtered(ir, options)
    } else {
        ir
    }
}

/// The pipelines of all functions in the output of a compiler.
/// It is `None` where a dump cannot be read.
pub open spec fn processed(
    output: Seq<char>,
    options: OptPipelineBackendOptions,
) -> Pairing<(Seq<char>, Seq<PassModel>)> {
    broken_down(dumps_in(output, options), options.full_module)
}

impl LlvmPassDumpParser {
    #[verifier::type_invariant]
    spec fn well_formed(self) -> bool {
        &&& regex_source(self.ir_dump_header) == IR_DUMP_HEADER@
        &&& regex_source(self.machine_code_dump_header) == MACHINE_CODE_DUMP_HEADER@
        &&& regex_source(self.function_end) == FUNCTION_END@
        &&& regex_source(self.machine_function_end) == MACHINE_FUNCTION_END@
    }

    /// The patterns for the headers of dumps and the ends of functions.
    pub closed spec fn patterns(self) -> Seq<Seq<char>> {
        seq![
            regex_source(self.ir_dump_header),
            regex_source(self.machine_code_dump_header),
            regex_source(self.function_end),
            regex_source(self.machine_function_end),
        ]
    }

    /// A parser.
    pub fn new() -> (res: Self)
        ensures
            res.patterns() == seq![
                IR_DUMP_HEADER@,
                MACHINE_CODE_DUMP_HEADER@,
                FUNCTION_END@,
                MACHINE_FUNCTION_END@,
            ],
    {
        LlvmPassDumpParser {
            ir_dump_header: compile(IR_DUMP_HEADER).unwrap(),
            machine_code_dump_header: compile(MACHINE_CODE_DUMP_HEADER).unwrap(),
            function_end: compile(FUNCTION_END).unwrap(),
            machine_function_end: compile(MACHINE_FUNCTION_END).unwrap(),
        }
    }

    /// Splits the output of a compiler before the first header.
    pub fn split_preamble<'a>(&self, output: &'a str) -> (res: (&'a str, &'a str))
        ensures
            res.0@ == output@.take(preamble(output@) as int),
            res.1@ == output@.skip(preamble(output@) as int),
            preamble(output@) <= output@.len(),
    {
        proof {
            use_type_invariant(self);
            reveal_strlit("\n");
            assert("\n"@ =~= newline());
            assert(is_ascii_chars("\n"@));
            is_ascii_chars_encode_utf8("\n"@);
        }
        let bytes = output.as_bytes();
        let len: usize = bytes.len();
        let newlines = byte_positions(LINE_FEED, bytes);
        let ghost feed = encode_utf8("\n"@);
        let ghost mut seen: Seq<char> = Seq::empty();
        let mut pos: usize = 0;
        let mut rest = output;
        let mut k: usize = 0;
        proof {
            assert(encode_utf8(seen) =~= Seq::<u8>::empty());
            assert(seen + rest@ =~= output@);
            assert(bytes@.skip(0) =~= bytes@);
        }
        loop
            invariant_except_break
                forall|i: int| pos <= i < bytes@.len() && bytes@[i] == LINE_FEED ==> exists|j: int|
                    k <= j < newlines@.len() && #[trigger] newlines@[j] == i,
            invariant
                len == bytes@.len(),
                bytes@ == encode_utf8(output@),
                "\n"@ == newline(),
                feed == encode_utf8("\n"@),
                feed.len() == 1,
                feed[0] == LINE_FEED,
                k <= newlines@.len(),
                pos <= bytes@.len(),
                forall|j: int|
                    0 <= j < newlines@.len() ==> (#[trigger] newlines@[j]) < bytes@.len()
                        && bytes@[newlines@[j] as int] == LINE_FEED,
                forall|i: int, j: int| 0 <= i < j < newlines@.len() ==> newlines@[i] < newlines@[j],
                forall|j: int| k <= j < newlines@.len() ==> pos <= (#[trigger] newlines@[j]),
                output@ == seen + rest@,
                encode_utf8(seen).len() == pos,
                encode_utf8(rest@) == bytes@.skip(pos as int),
                preamble(output@) == seen.len() + preamble(rest@),
                self.well_formed(),
            ensures
                preamble(rest@) == 0,
            decreases newlines@.len() - k,
        {
            if k == newlines.len() {
                proof {
                    let tail = encode_utf8(rest@);
                    assert forall|j: int| !#[trigger] bytes_at(tail, feed, j) by {
                        if bytes_at(tail, feed, j) {
                            assert(tail.subrange(j, j + 1)[0] == bytes@[pos + j]);
                        }
                    }
                    lemma_absent(rest@, newline());
                }
                break ;
            }
            let at: usize = newlines[k] - pos;
            let ghost tail = encode_utf8(rest@);
            proof {
                assert(tail.subrange(at as int, at + 1) =~= feed);
                assert forall|j: int| 0 <= j < at implies !#[trigger] bytes_at(tail, feed, j) by {
                    assert(tail.subrange(j, j + 1)[0] == bytes@[pos + j]);
                    if bytes@[pos + j] == LINE_FEED {
                        let m = choose|m: int|
                            k <= m < newlines@.len() && #[trigger] newlines@[m] == pos + j;
                        assert(newlines@[k as int] <= newlines@[m]);
                    }
                }
            }
            let (line, after) = split_found(rest, "\n", at);
            if is_match(&self.ir_dump_header, line) || is_match(
                &self.machine_code_dump_header,
                line,
            ) {
                break ;
            }
            proof {
                let shown = seen + line@ + newline();
                assert(rest@ =~= line@ + newline() + after@);
                assert(output@ =~= shown + after@);
                lemma_encode_concat(seen + line@, newline());
                lemma_encode_concat(seen, line@);
                seen = shown;
            }
            pos = newlines[k] + 1;
            rest = after;
            k += 1;
        }
        proof {
            lemma_prefix_boundary(seen, rest@);
            lemma_encode_concat(seen, rest@);
        }
        let (prefix, ir) = split_bytes(output, pos);
        proof {
            assert(encode_utf8(output@).subrange(0, pos as int) =~= encode_utf8(seen));
            lemma_encode_injective(prefix@, seen);
            assert(prefix@ =~= output@.take(seen.len() as int));
            assert(ir@ =~= output@.skip(seen.len() as int));
        }
        (prefix, ir)
    }

    /// Cuts the output of a compiler into the dumps of its passes.
    pub fn breakdown_output_into_pass_dumps(&self, ir: &str) -> (res: Vec<PassDump>)
        requires
            pass_dumps(lines(ir@)) is Some,
        ensures
            pass_dumps(lines(ir@)) == Some(dump_models(res@)),
    {
        read_pass_dumps(ir).unwrap()
    }

    /// Cuts the dump of a pass into the functions that it shows, where their names can be read.
    fn try_split(&self, dump: &PassDump) -> (res: Option<SplitPassDump>)
        ensures
            match res {
                Some(split) => split_dump(dump@) == Some(split@),
                None => split_dump(dump@) is None,
            },
    {
        proof {
            use_type_invariant(self);
        }
        read_functions(dump, &self.function_end, &self.machine_function_end)
    }

    /// Cuts the dump of a pass into the functions that it shows.
    pub fn breakdown_pass_dumps_into_functions(&self, dump: &PassDump) -> (res: SplitPassDump)
        requires
            split_functions(dump.lines@) is Some,
        ensures
            split_dump(dump@) == Some(res@),
    {
        self.try_split(dump).unwrap()
    }

    /// Gathers the dumps of each function, where every pass shows the functions that it has
    /// changed.
    pub fn breakdown_into_pass_dumps_by_function(&self, pass_dumps: &Vec<SplitPassDump>) -> (res:
        FunctionTable<Vec<PassDump>>)
        requires
            dumps_by_function(split_models(pass_dumps@)) is Some,
        ensures
            dumps_by_function(split_models(pass_dumps@)) == Some(function_dumps(res@)),
    {
        gather_by_function(pass_dumps).unwrap()
    }

    /// Gathers the dumps of each function, where every pass shows the whole module.
    pub fn associate_full_dumps_with_functions(&self, pass_dumps: &Vec<PassDump>) -> (res:
        FunctionTable<Vec<PassDump>>)
        requires
            dumps_by_module(dump_models(pass_dumps@)) is Some,
        ensures
            dumps_by_module(dump_models(pass_dumps@)) == Some(function_dumps(res@)),
    {
        gather_by_module(pass_dumps).unwrap()
    }

    /// Pairs the dumps of each function.
    pub fn match_pass_dumps(&self, pass_dumps_by_function: &FunctionTable<Vec<PassDump>>) -> (res:
        Result<OptPipelineResults, PassDumpError>)
        requires
            pipelines(function_dumps(pass_dumps_by_function@)) is Some,
        ensures
            is_outcome(pipelines(function_dumps(pass_dumps_by_function@)), res),
    {
        pair_all_dumps(pass_dumps_by_function).unwrap()
    }

    /// Cuts each dump into the functions that it shows.
    fn split_all(&self, dumps: &Vec<PassDump>) -> (res: Vec<SplitPassDump>)
        requires
            split_dumps(dump_models(dumps@)) is Some,
        ensures
            split_dumps(dump_models(dumps@)) == Some(split_models(res@)),
    {
        let ghost models = dump_models(dumps@);
        let mut res: Vec<SplitPassDump> = Vec::new();
        let mut i: usize = 0;
        proof {
            assert(models.take(0) =~= Seq::<PassDumpModel>::empty());
            assert(split_models(res@) =~= Seq::<SplitModel>::empty());
        }
        while i < dumps.len()
            invariant
                models == dump_models(dumps@),
                split_dumps(models) is Some,
                i <= dumps@.len(),
                split_dumps(models.take(i as int)) == Some(split_models(res@)),
            decreases dumps@.len() - i,
        {
            let ghost before = split_models(res@);
            proof {
                lemma_split_dumps_prefix(models, i + 1);
                assert(models.take(i + 1).drop_last() =~= models.take(i as int));
                assert(models.take(i + 1).last() == dumps@[i as int]@);
            }
            let split = self.breakdown_pass_dumps_into_functions(&dumps[i]);
            res.push(split);
            proof {
                assert(split_models(res@) =~= before.push(split@));
            }
            i += 1;
        }
        assert(models.take(i as int) =~= models);
        res
    }

    /// Reads the pipelines of all functions from a text that begins with a dump.
    pub fn breakdown_output(&self, ir: &str, options: &OptPipelineBackendOptions) -> (res: Result<
        OptPipelineResults,
        PassDumpError,
    >)
        requires
            broken_down(ir@, options.full_module) is Some,
        ensures
            is_outcome(broken_down(ir@, options.full_module), res),
    {
        let raw_passes = self.breakdown_output_into_pass_dumps(ir);
        let table = if options.full_module {
            self.associate_full_dumps_with_functions(&raw_passes)
        } else {
            self.breakdown_into_pass_dumps_by_function(&self.split_all(&raw_passes))
        };
        self.match_pass_dumps(&table)
    }

    /// Whether the dumps in a text can be read.
    pub fn can_break_down(&self, ir: &str, full_module: bool) -> (res: bool)
        ensures
            res == broken_down(ir@, full_module) is Some,
    {
        let raw_passes = match read_pass_dumps(ir) {
            Some(raw_passes) => raw_passes,
            None => {
                return false;
            },
        };
        let gathered = if full_module {
            gather_by_module(&raw_passes)
        } else {
            if !self.can_split_all(&raw_passes) {
                return false;
            }
            gather_by_function(&self.split_all(&raw_passes))
        };
        match gathered {
            Some(table) => pair_all_dumps(&table).is_some(),
            None => false,
        }
    }

    /// Whether the names of all functions can be read.
    fn can_split_all(&self, dumps: &Vec<PassDump>) -> (res: bool)
        ensures
            res == split_dumps(dump_models(dumps@)) is Some,
    {
        let ghost models = dump_models(dumps@);
        let mut i: usize = 0;
        proof {
            assert(models.take(0) =~= Seq::<PassDumpModel>::empty());
        }
        while i < dumps.len()
            invariant
                models == dump_models(dumps@),
                i <= dumps@.len(),
                split_dumps(models.take(i as int)) is Some,
            decreases dumps@.len() - i,
        {
            proof {
                assert(models.take(i + 1).drop_last() =~= models.take(i as int));
                assert(models.take(i + 1).last() == dumps@[i as int]@);
            }
            if self.try_split(&dumps[i]).is_none() {
                proof {
                    if split_dumps(models) is Some {
                        lemma_split_dumps_prefix(models, i + 1);
                    }
                }
                return false;
            }
            i += 1;
        }
        assert(models.take(i as int) =~= models);
        true
    }

    /// Takes out of a dump what the options ask to leave out. Nothing is added to what is left, and
    /// nothing in it changes places.
    pub fn apply_ir_filters(&self, ir: &str, options: &OptPipelineBackendOptions) -> (res: String)
        ensures
            res@ == filtered(ir@, *options),
            is_subsequence(res@, ir@),
            is_left(ir@, res@, options.filter_debug_info, options.filter_ir_metadata),
    {
        apply_filters(ir, options)
    }

    /// Reads the output of a compiler: what comes before the dumps, and the pipelines of all
    /// functions.
    pub fn process<'a>(&self, output: &'a str, options: &OptPipelineBackendOptions) -> (res: Result<
        (&'a str, OptPipelineResults),
        PassDumpError,
    >)
        requires
            processed(output@, *options) is Some,
        ensures
            is_processed(output@, *options, res),
    {
        let (prefix, ir) = self.split_preamble(output);
        let results = if options.apply_filters {
            let kept = self.apply_ir_filters(ir, options);
            self.breakdown_output(kept.as_str(), options)
        } else {
            self.breakdown_output(ir, options)
        };
        match results {
            Ok(results) => Ok((prefix, results)),
            Err(error) => Err(error),
        }
    }

    /// Whether the dumps in the output of a compiler can be read.
    pub fn can_process(&self, output: &str, options: &OptPipelineBackendOptions) -> (res: bool)
        ensures
            res == processed(output@, *options) is Some,
    {
        let (_, ir) = self.split_preamble(output);
        if options.apply_filters {
            let kept = self.apply_ir_filters(ir, options);
            self.can_break_down(kept.as_str(), options.full_module)
        } else {
            self.can_break_down(ir, options.full_module)
        }
    }
}

/// Where the names of all functions can be read, those of the first dumps can.
proof fn lemma_split_dumps_prefix(dumps: Seq<PassDumpModel>, n: int)
    requires
        0 <= n <= dumps.len(),
        split_dumps(dumps) is Some,
    ensures
        split_dumps(dumps.take(n)) is Some,
    decreases dumps.len(),
{
    if n == dumps.len() {
        assert(dumps.take(n) =~= dumps);
    } else {
        lemma_split_dumps_prefix(dumps.drop_last(), n);
        assert(dumps.drop_last().take(n) =~= dumps.take(n));
    }
}

/// The result holds what comes of pairing the dumps.
pub open spec fn is_outcome(
    outcome: Pairing<(Seq<char>, Seq<PassModel>)>,
    res: Result<OptPipelineResults, PassDumpError>,
) -> bool {
    match res {
        Ok(results) => {
            &&& outcome == Some(Ok::<_, MismatchModel>(function_passes(results@)))
            &&& distinct_names(results@)
        },
        Err(error) => outcome == Some(Err::<Seq<(Seq<char>, Seq<PassModel>)>, _>(error@)),
    }
}

/// The result holds what comes before the dumps, and what comes of pairing them.
pub open spec fn is_processed(
    output: Seq<char>,
    options: OptPipelineBackendOptions,
    res: Result<(&str, OptPipelineResults), PassDumpError>,
) -> bool {
    match res {
        Ok((prefix, results)) => {
            &&& prefix@ == output.take(preamble(output) as int)
            &&& is_outcome(processed(output, options), Ok(results))
        },
        Err(error) => is_outcome(processed(output, options), Err(error)),
    }
}

/// What dumps are read for by `process`.
pub open spec fn process_options(
    apply_filters: bool,
    full_module: bool,
) -> OptPipelineBackendOptions {
    OptPipelineBackendOptions {
        filter_debug_info: true,
        filter_ir_metadata: true,
        full_module,
        no_discard_value_names: false,
        demangle: false,
        library_functions: false,
        apply_filters,
    }
}

fn options_for(apply_filters: bool, full_module: bool) -> (res: OptPipelineBackendOptions)
    ensures
        res == process_options(apply_filters, full_module),
{
    OptPipelineBackendOptions {
        filter_debug_info: true,
        filter_ir_metadata: true,
        full_module,
        no_discard_value_names: false,
        demangle: false,
        library_functions: false,
        apply_filters,
    }
}

/// Reads the output of a compiler: what comes before the dumps, and the pipelines of all
/// functions.
pub fn process(dump: &str, apply_filters: bool, full_module: bool) -> (res: Result<
    (&str, OptPipelineResults),
    PassDumpError,
>)
    requires
        processed(dump@, process_options(apply_filters, full_module)) is Some,
    ensures
        is_processed(dump@, process_options(apply_filters, full_module), res),
{
    let parser = LlvmPassDumpParser::new();
    parser.process(dump, &options_for(apply_filters, full_module))
}

/// Reads the output of a compiler where its dumps can be read.
pub fn try_process(dump: &str, apply_filters: bool, full_module: bool) -> (res: Option<
    Result<(&str, OptPipelineResults), PassDumpError>,
>)
    ensures
        match res {
            Some(res) => is_processed(dump@, process_options(apply_filters, full_module), res),
            None => processed(dump@, process_options(apply_filters, full_module)) is None,
        },
{
    let parser = LlvmPassDumpParser::new();
    if parser.can_process(dump, &options_for(apply_filters, full_module)) {
        Some(process(dump, apply_filters, full_module))
    } else {
        None
    }
}

/// A line that ends in a line feed stands from `start` to `end`.
pub open spec fn is_line(output: Seq<char>, start: int, end: int) -> bool {
    &&& 0 <= start <= end < output.len()
    &&& output[end] == '\n'
    &&& start == 0 || output[start - 1] == '\n'
    &&& forall|i: int| start <= i < end ==> output[i] != '\n'
}

/// What comes before the dumps is made of whole lines, and none of them is a header. The dumps
/// begin with a header, unless no line feed is left.
pub proof fn lemma_preamble_has_no_header(output: Seq<char>)
    ensures
        preamble(output) <= output.len(),
        preamble(output) > 0 ==> output[preamble(output) - 1] == '\n',
        forall|start: int, end: int| #[trigger]
            is_line(output, start, end) && end < preamble(output) ==> !is_dump_header(
                output.subrange(start, end),
            ),
        match find(output.skip(preamble(output) as int), newline()) {
            Some(at) => is_dump_header(output.skip(preamble(output) as int).take(at)),
            None => true,
        },
    decreases output.len(),
{
    lemma_find_is_first(output, newline());
    assert(output.skip(0) =~= output);
    if let Some(at) = find(output, newline()) {
        assert(output.subrange(at, at + 1)[0] == '\n');
        assert forall|i: int| 0 <= i < at implies output[i] != '\n' by {
            if output[i] == '\n' {
                assert(output.subrange(i, i + 1) =~= newline());
                assert(occurs_at(output, newline(), i));
            }
        }
        let line = output.take(at);
        let rest = output.skip(at + 1);
        if !is_dump_header(line) {
            lemma_preamble_has_no_header(rest);
            assert(rest.skip(preamble(rest) as int) =~= output.skip(preamble(output) as int));
            assert forall|start: int, end: int| #[trigger] is_line(output, start, end) && end
                < preamble(output) implies !is_dump_header(output.subrange(start, end)) by {
                if start == 0 {
                    assert(output[at] == '\n');
                    assert(end == at);
                    assert(output.subrange(start, end) =~= line);
                } else {
                    assert(output[start - 1] == '\n');
                    assert(start > at);
                    assert(start - at - 1 == 0 || rest[start - at - 2] == '\n');
                    assert forall|i: int| start - at - 1 <= i < end - at - 1 implies rest[i]
                        != '\n' by {
                        assert(rest[i] == output[i + at + 1]);
                    }
                    assert(is_line(rest, start - at - 1, end - at - 1));
                    assert(rest.subrange(start - at - 1, end - at - 1) =~= output.subrange(
                        start,
                        end,
                    ));
                }
            }
        }
    }
}

/// Whole lines, none of which is a header.
pub open spec fn is_headerless(lines: Seq<char>) -> bool {
    &&& lines.len() == 0 || lines.last() == '\n'
    &&& forall|start: int, end: int| #[trigger]
        is_line(lines, start, end) ==> !is_dump_header(lines.subrange(start, end))
}

/// Whole lines that are no headers belong to what comes before the dumps.
proof fn lemma_longer_preamble(lines: Seq<char>, output: Seq<char>)
    requires
        is_headerless(lines),
    ensures
        preamble(lines + output) == lines.len() + preamble(output),
    decreases lines.len(),
{
    let whole = lines + output;
    if lines.len() == 0 {
        assert(whole =~= output);
    } else {
        let last = lines.len() - 1;
        assert(lines.subrange(last, last + 1) =~= newline());
        assert(occurs_at(lines, newline(), last));
        lemma_find_is_first(lines, newline());
        let at = find(lines, newline())->0;
        assert(lines.subrange(at, at + 1)[0] == '\n');
        assert forall|i: int| 0 <= i < at implies lines[i] != '\n' by {
            if lines[i] == '\n' {
                assert(lines.subrange(i, i + 1) =~= newline());
                assert(occurs_at(lines, newline(), i));
            }
        }
        assert(whole.subrange(at, at + 1) =~= newline());
        assert forall|i: int| 0 <= i < at implies !occurs_at(whole, newline(), i) by {
            if occurs_at(whole, newline(), i) {
                assert(whole.subrange(i, i + 1)[0] == lines[i]);
            }
        }
        assert(first_at(whole, newline(), at));
        lemma_find_at(whole, newline(), at);
        assert(is_line(lines, 0, at));
        assert(whole.take(at) =~= lines.subrange(0, at));
        let rest = lines.skip(at + 1);
        assert(rest.len() > 0 ==> rest.last() == lines.last());
        assert forall|start: int, end: int| #[trigger]
            is_line(rest, start, end) implies !is_dump_header(rest.subrange(start, end)) by {
            let from = start + at + 1;
            let to = end + at + 1;
            assert(lines[from - 1] == '\n') by {
                if start > 0 {
                    assert(rest[start - 1] == lines[from - 1]);
                }
            }
            assert forall|i: int| from <= i < to implies lines[i] != '\n' by {
                assert(rest[i - at - 1] == lines[i]);
            }
            assert(is_line(lines, from, to));
            assert(lines.subrange(from, to) =~= rest.subrange(start, end));
        }
        lemma_longer_preamble(rest, output);
        assert(whole.skip(at + 1) =~= rest + output);
    }
}

/// What comes before the first header has no influence on the passes: whole lines that are no
/// headers can stand in front of an output, and only what comes before the dumps grows by them.
pub proof fn lemma_preamble_is_ignored(
    lines: Seq<char>,
    output: Seq<char>,
    options: OptPipelineBackendOptions,
)
    requires
        is_headerless(lines),
    ensures
        processed(lines + output, options) == processed(output, options),
        (lines + output).take(preamble(lines + output) as int) == lines + output.take(
            preamble(output) as int,
        ),
{
    let whole = lines + output;
    lemma_longer_preamble(lines, output);
    lemma_preamble_has_no_header(output);
    assert(whole.skip(preamble(whole) as int) =~= output.skip(preamble(output) as int));
    assert(whole.take(preamble(whole) as int) =~= lines + output.take(preamble(output) as int));
}

/// A header of a dump on machine code opens a dump.
pub proof fn lemma_machine_header_opens_dump(line: Seq<char>)
    requires
        is_machine_dump_header(line),
    ensures
        is_header(line),
        affected_function(line) is Some ==> opened_dump(line) is Some,
{
    let name = choose|name: Seq<char>|
        is_line_text(name) && #[trigger] ("# *** "@ + name + " ***:"@) == line;
    let mark = "# *** "@;
    reveal_strlit("# *** ");
    reveal_strlit("; *** ");
    reveal_strlit("*** ");
    reveal_strlit("// -----// ");
    reveal_strlit(" ***:");
    reveal_strlit(" ***");
    assert(line[0] == '#');
    assert(mark =~= line.take(mark.len() as int));
    assert(!"; *** "@.is_prefix_of(line)) by {
        assert("; *** "@[0] == ';');
    }
    assert(!"*** "@.is_prefix_of(line)) by {
        assert("*** "@[0] == '*');
    }
    assert(!"// -----// "@.is_prefix_of(line)) by {
        assert("// -----// "@[0] == '/');
    }
    let rest = line.skip(mark.len() as int);
    let at = name.len() as int;
    assert(rest.subrange(at, at + 4) =~= " ***"@);
    assert(occurs_at(rest, " ***"@, at));
    lemma_find_is_first(rest, " ***"@);
}

/// No name occurs twice in what is gathered.
proof fn lemma_gathered_distinct(ir: Seq<char>, full_module: bool)
    ensures
        gathered(ir, full_module) is Some ==> distinct_names(gathered(ir, full_module)->0),
{
    if let Some(entries) = gathered(ir, full_module) {
        let dumps = pass_dumps(lines(ir))->0;
        if full_module {
            lemma_module_entries(dumps, entries);
        } else {
            lemma_grouped_by_name(owned(shown(split_dumps(dumps)->0)));
        }
    }
}

/// What is read of the output of a compiler: no function occurs twice, and each pass is marked as
/// one that has changed its function if and only if it has. Where every pass shows the whole
/// module there is an entry for the module; where it does not, every function has a pass, and a
/// loop is no function.
pub proof fn lemma_processed(
    output: Seq<char>,
    options: OptPipelineBackendOptions,
    results: Seq<(Seq<char>, Seq<PassModel>)>,
)
    requires
        processed(output, options) == Some(Ok::<_, MismatchModel>(results)),
    ensures
        distinct_names(results),
        forall|i: int, j: int|
            0 <= i < results.len() && 0 <= j < results[i].1.len() ==> (
            #[trigger] results[i].1[j]).ir_changed == (results[i].1[j].before
                != results[i].1[j].after),
        options.full_module ==> entry_position(results, full_module()) is Some,
        !options.full_module ==> forall|i: int|
            0 <= i < results.len() ==> (#[trigger] results[i]).1.len() > 0,
        !options.full_module ==> entry_position(results, loop_name()) is None,
{
    let ir = dumps_in(output, options);
    let entries = gathered(ir, options.full_module)->0;
    lemma_gathered_distinct(ir, options.full_module);
    lemma_functions_are_independent(entries);
    assert forall|i: int, j: int| 0 <= i < j < results.len() implies (#[trigger] results[i]).0 != (
    #[trigger] results[j]).0 by {
        assert(results[i].0 == entries[i].0);
        assert(results[j].0 == entries[j].0);
        assert(entries[i].0 != entries[j].0);
    }
    assert forall|i: int, j: int|
        0 <= i < results.len() && 0 <= j < results[i].1.len() implies (
    #[trigger] results[i].1[j]).ir_changed == (results[i].1[j].before
        != results[i].1[j].after) by {
        lemma_changed_is_different(entries[i].1, results[i].1, j);
    }
    let dumps = pass_dumps(lines(ir))->0;
    if options.full_module {
        lemma_module_entries(dumps, entries);
        let k = entry_position(entries, full_module())->0;
        assert(entries[k].0 == full_module());
        assert(results[k].0 == full_module());
    } else {
        lemma_grouped_by_name(owned(shown(split_dumps(dumps)->0)));
        assert forall|i: int| 0 <= i < results.len() implies (#[trigger] results[i]).1.len() > 0 by {
            assert(entries[i].1.len() > 0);
            assert(pipeline(entries[i].1) == Some(Ok::<_, MismatchModel>(results[i].1)));
        }
        lemma_no_loop_gathered(split_dumps(dumps)->0, entries);
        assert forall|i: int| 0 <= i < results.len() implies (#[trigger] results[i]).0
            != loop_name() by {
            assert(entries[i].0 == results[i].0);
        }
    }
}

/// Filters that find nothing to take out change nothing.
pub proof fn lemma_nothing_to_filter(output: Seq<char>, options: OptPipelineBackendOptions)
    requires
        !regex_matches(
            filter_pattern(options.filter_debug_info, options.filter_ir_metadata),
            output.skip(preamble(output) as int),
        ),
    ensures
        processed(output, OptPipelineBackendOptions { apply_filters: true, ..options })
            == processed(output, OptPipelineBackendOptions { apply_filters: false, ..options }),
{
}

/// A text without a header has no functions, and a module without passes.
pub proof fn lemma_nothing_without_header(ir: Seq<char>)
    requires
        forall|i: int| 0 <= i < lines(ir).len() ==> !is_header(#[trigger] lines(ir)[i]),
    ensures
        broken_down(ir, false) == Some(
            Ok::<_, MismatchModel>(Seq::<(Seq<char>, Seq<PassModel>)>::empty()),
        ),
        broken_down(ir, true) == Some(
            Ok::<_, MismatchModel>(seq![(full_module(), Seq::<PassModel>::empty())]),
        ),
{
    let all = lines(ir);
    lemma_no_dumps(all);
    let none = Seq::<PassDumpModel>::empty();
    let module = full_module();
    assert(subjects_known(none));
    reveal_with_fuel(first_names, 2);
    assert(named_functions(none).push(module).drop_last() =~= Seq::<Seq<char>>::empty());
    assert(module_names(none) =~= seq![module]);
    let entries = dumps_by_module(none)->0;
    assert(entries =~= seq![(module, Seq::<PassDumpModel>::empty())]);
    assert(all_filled(Seq::empty()) =~= Seq::<PassModel>::empty());
    assert(entries.drop_first() =~= Seq::<(Seq<char>, Seq<PassDumpModel>)>::empty());
    let done = seq![(module, Seq::<PassModel>::empty())];
    assert(done + Seq::<(Seq<char>, Seq<PassModel>)>::empty() =~= done);
}

proof fn lemma_no_dumps(all: Seq<Seq<char>>)
    requires
        forall|i: int| 0 <= i < all.len() ==> !is_header(#[trigger] all[i]),
    ensures
        pass_dumps(all) == Some(Seq::<PassDumpModel>::empty()),
{
    lemma_no_dump_without_header(all);
}

/// An ASCII line is a header where a text stands between the marks of one, also with a semicolon
/// and a space in front, with the function or loop that the dump is about behind it, or with a
/// remark behind a semicolon.
pub proof fn lemma_header_lines(text: Seq<char>, name: Seq<char>, remark: Seq<char>)
    requires
        is_line_text(text),
        is_ascii_chars(text),
        is_ascii_name(name),
        is_line_text(remark),
        is_ascii_chars(remark),
    ensures
        is_dump_header("*** "@ + text + " ***"@),
        is_dump_header("; "@ + ("*** "@ + text + " ***"@)),
        is_dump_header("// -----// "@ + text + " //----- //"@),
        is_dump_header("*** "@ + text + " ***"@ + (" (function: "@ + name + ")"@)),
        is_dump_header("*** "@ + text + " ***"@ + (" (loop: %"@ + name + ")"@)),
        is_dump_header("; "@ + ("*** "@ + text + " ***"@) + (";"@ + remark)),
        is_dump_header("# *** "@ + text + " ***:"@),
{
    reveal_strlit("*** ");
    reveal_strlit(" ***");
    reveal_strlit("; ");
    reveal_strlit(";");
    reveal_strlit(" ");
    reveal_strlit("// -----// ");
    reveal_strlit(" //----- //");
    reveal_strlit(" (function: ");
    reveal_strlit("(function: ");
    reveal_strlit(" (loop: %");
    reveal_strlit("(loop: %");
    reveal_strlit(")");
    let none = Seq::<char>::empty();
    let stars = "*** "@ + text + " ***"@;
    let slashes = "// -----// "@ + text + " //----- //"@;
    let function = " (function: "@ + name + ")"@;
    let looped = " (loop: %"@ + name + ")"@;
    assert(is_header_core(stars));
    assert(is_header_core(slashes));
    assert(" (function: "@ =~= " "@ + "(function: "@);
    assert(" (loop: %"@ =~= " "@ + "(loop: %"@);
    assert(function =~= " "@ + "(function: "@ + name + ")"@);
    assert(looped =~= " "@ + "(loop: %"@ + name + ")"@);
    assert(is_ascii_header_subject(function));
    assert(is_ascii_header_subject(looped));
    assert(is_ascii_header_subject(none));
    assert((";"@ + remark).skip(1) =~= remark);
    assert(is_header_remark(";"@ + remark));
    assert(is_header_remark(none));
    assert(is_header_lead(none));
    assert(is_header_lead("; "@));
    lemma_ascii_header(none, stars, none, none);
    assert(none + stars + none + none =~= stars);
    lemma_ascii_header("; "@, stars, none, none);
    assert("; "@ + stars + none + none =~= "; "@ + stars);
    lemma_ascii_header(none, slashes, none, none);
    assert(none + slashes + none + none =~= slashes);
    lemma_ascii_header(none, stars, function, none);
    assert(none + stars + function + none =~= stars + function);
    lemma_ascii_header(none, stars, looped, none);
    assert(none + stars + looped + none =~= stars + looped);
    lemma_ascii_header("; "@, stars, none, ";"@ + remark);
    assert("; "@ + stars + none + (";"@ + remark) =~= "; "@ + stars + (";"@ + remark));
    assert(is_machine_dump_header("# *** "@ + text + " ***:"@));
}

proof fn lemma_ascii_header(
    lead: Seq<char>,
    core: Seq<char>,
    subject: Seq<char>,
    remark: Seq<char>,
)
    requires
        is_header_lead(lead),
        is_header_core(core),
        is_ascii_header_subject(subject),
        is_header_remark(remark),
        is_ascii_chars(lead),
        is_ascii_chars(core),
        is_ascii_chars(subject),
        is_ascii_chars(remark),
    ensures
        is_dump_header(lead + core + subject + remark),
{
    let line = lead + core + subject + remark;
    assert(is_ascii_chars(line));
    assert(is_ascii_ir_dump_header(line));
}

/// No line is a header that has the marks of none in it.
pub proof fn lemma_header_has_marks(line: Seq<char>)
    requires
        is_ascii_chars(line),
        is_dump_header(line),
    ensures
        contains(line, "*** "@) && contains(line, " ***"@) || contains(line, "// -----// "@)
            && contains(line, " //----- //"@),
{
    if is_machine_dump_header(line) {
        lemma_machine_header_has_marks(line);
    } else {
        lemma_ir_header_has_marks(line);
    }
}

proof fn lemma_between_marks(front: Seq<char>, text: Seq<char>, back: Seq<char>, rest: Seq<char>)
    ensures
        forall|lead: Seq<char>|
            contains(#[trigger] (lead + (front + text + back) + rest), front) && contains(
                lead + (front + text + back) + rest,
                back,
            ),
{
    assert forall|lead: Seq<char>|
        contains(#[trigger] (lead + (front + text + back) + rest), front) && contains(
            lead + (front + text + back) + rest,
            back,
        ) by {
        let line = lead + (front + text + back) + rest;
        assert(line =~= lead + front + (text + back + rest));
        assert(line =~= (lead + front + text) + back + rest);
        lemma_contains_is_between(line, front);
        lemma_contains_is_between(line, back);
    }
}

proof fn lemma_machine_header_has_marks(line: Seq<char>)
    requires
        is_machine_dump_header(line),
    ensures
        contains(line, "*** "@),
        contains(line, " ***"@),
{
    let name = choose|name: Seq<char>|
        is_line_text(name) && #[trigger] ("# *** "@ + name + " ***:"@) == line;
    assert("# *** "@ =~= "# "@ + "*** "@ && " ***:"@ =~= " ***"@ + ":"@) by {
        reveal_strlit("# *** ");
        reveal_strlit("*** ");
        reveal_strlit(" ***:");
        reveal_strlit(" ***");
        reveal_strlit("# ");
        reveal_strlit(":");
    }
    assert(line =~= "# "@ + ("*** "@ + name + " ***"@) + ":"@);
    lemma_between_marks("*** "@, name, " ***"@, ":"@);
}

proof fn lemma_core_has_marks(lead: Seq<char>, core: Seq<char>, rest: Seq<char>)
    requires
        is_header_core(core),
    ensures
        ({
            let line = lead + core + rest;
            contains(line, "*** "@) && contains(line, " ***"@) || contains(line, "// -----// "@)
                && contains(line, " //----- //"@)
        }),
{
    let text = choose|text: Seq<char>| #[trigger]
        is_line_text(text) && (core == "*** "@ + text + " ***"@ || core == "// -----// "@ + text
            + " //----- //"@);
    if core == "*** "@ + text + " ***"@ {
        lemma_between_marks("*** "@, text, " ***"@, rest);
    } else {
        lemma_between_marks("// -----// "@, text, " //----- //"@, rest);
    }
}

proof fn lemma_ir_header_has_marks(line: Seq<char>)
    requires
        is_ascii_ir_dump_header(line),
    ensures
        contains(line, "*** "@) && contains(line, " ***"@) || contains(line, "// -----// "@)
            && contains(line, " //----- //"@),
{
    let (lead, core, subject, remark) = choose|
        lead: Seq<char>,
        core: Seq<char>,
        subject: Seq<char>,
        remark: Seq<char>,
    |
        {
            &&& is_header_lead(lead)
            &&& is_header_core(core)
            &&& is_ascii_header_subject(subject)
            &&& is_header_remark(remark)
            &&& #[trigger] (lead + core + subject + remark) == line
        };
    assert(is_header_core(core) && lead + core + subject + remark == line);
    let rest = subject + remark;
    assert(lead + core + subject + remark =~= lead + core + rest);
    lemma_core_has_marks(lead, core, rest);
}

/// Cutting a dump into functions keeps its header and its kind, and each dump is cut by itself.
pub proof fn lemma_split_by_itself(dumps: Seq<PassDumpModel>, last: PassDumpModel)
    ensures
        split_dumps(Seq::empty()) == Some(Seq::<SplitModel>::empty()),
        split_dumps(dumps.push(last)) is Some <==> split_dumps(dumps) is Some && split_functions(
            last.lines,
        ) is Some,
        split_dumps(dumps.push(last)) is Some ==> {
            let splits = split_dumps(dumps.push(last))->0;
            &&& splits.len() == split_dumps(dumps)->0.len() + 1
            &&& splits.drop_last() == split_dumps(dumps)->0
            &&& splits.last().header == last.header
            &&& splits.last().machine == last.machine
            &&& Some(splits.last().functions) == split_functions(last.lines)
        },
{
    assert(dumps.push(last).drop_last() =~= dumps);
    if split_dumps(dumps.push(last)) is Some {
        let before = split_dumps(dumps)->0;
        let own = split_dump(last)->0;
        assert(before.push(own).drop_last() =~= before);
    }
}

/// The way from an output to its passes: what comes before the dumps is left out, the rest is
/// filtered where the options ask for it and not where they do not, and cut into dumps. These are
/// gathered by module or by the functions that they show, as the options ask for it, and paired.
pub proof fn lemma_way_to_passes(output: Seq<char>, options: OptPipelineBackendOptions)
    ensures
        ({
            let dumps = output.skip(preamble(output) as int);
            let ir = if options.apply_filters {
                filtered(dumps, options)
            } else {
                dumps
            };
            let raw = pass_dumps(lines(ir));
            let entries = if raw is None {
                None
            } else if options.full_module {
                dumps_by_module(raw->0)
            } else if split_dumps(raw->0) is None {
                None
            } else {
                dumps_by_function(split_dumps(raw->0)->0)
            };
            processed(output, options) == if entries is None {
                None
            } else {
                pipelines(entries->0)
            }
        }),
{
}

/// Reading for `process` is reading without debug information and metadata where filters are asked
/// for, whatever the other options are, and reading all where they are not.
pub proof fn lemma_process_takes_out_all(
    output: Seq<char>,
    full_module: bool,
    options: OptPipelineBackendOptions,
)
    requires
        options.filter_debug_info,
        options.filter_ir_metadata,
    ensures
        ({
            let dumps = output.skip(preamble(output) as int);
            &&& processed(output, process_options(false, full_module)) == broken_down(
                dumps,
                full_module,
            )
            &&& processed(output, process_options(true, full_module)) == broken_down(
                filtered(dumps, options),
                full_module,
            )
        }),
{
}

} // verus!
