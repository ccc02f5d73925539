//! Takes out of a dump what says nothing about the code.
use crate::pattern::{compile, erase, regex_erased, regex_matches};
use crate::residue::{filter_source, is_left, lemma_filter_source};
use crate::text::{is_subsequence, join_text, joined, string_texts};
use vstd::prelude::*;
use vstd::string::*;

verus! {

/// What a dump is read for.
#[derive(Debug, Clone, Copy)]
pub struct OptPipelineBackendOptions {
    pub filter_debug_info: bool,
    pub filter_ir_metadata: bool,
    pub full_module: bool,
    pub no_discard_value_names: bool,
    pub demangle: bool,
    pub library_functions: bool,
    pub apply_filters: bool,
}

/// The parts of a line that are always taken out.
pub open spec fn inline_filters() -> Seq<Seq<char>> {
    seq![r"(?m),? #\d+( \{)?$"@]
}

/// The whole lines that are always taken out.
pub open spec fn line_filters() -> Seq<Seq<char>> {
    seq![
        r"; ModuleID = '.+'"@,
        r"(source_filename|target datalayout|target triple) = '.+'"@,
        r"; Function Attrs: .+"@,
        r"declare .+"@,
        r"attributes #\d+ = \{ .+ \}"@,
    ]
}

/// The parts of a line that hold debug information.
pub open spec fn debug_inline_filters() -> Seq<Seq<char>> {
    seq![r",? !dbg !\d+"@, r",? debug-location !\d+"@]
}

/// The parts of a line that hold metadata.
pub open spec fn metadata_inline_filters() -> Seq<Seq<char>> {
    seq![r",?(?: ![\d.A-Za-z]+){2}"@]
}

/// The whole lines that hold debug information.
pub open spec fn debug_line_filters() -> Seq<Seq<char>> {
    seq![
        r"\s+(tail\s)?call void @llvm\.dbg.+"@,
        r"[ \t]+DBG_.+"@,
        r"(!\d+) = (?:distinct )?!DI([A-Za-z]+)\(([^)]+?)\).*"@,
        r"(!\d+) = (?:distinct )?!\{.*\}.*"@,
        r"(![.A-Z_a-z-]+) = (?:distinct )?!\{.*\}.*"@,
    ]
}

/// A pattern that matches what any of `filters` matches.
pub open spec fn any_of(filters: Seq<Seq<char>>) -> Seq<char> {
    joined(filters.map_values(|filter: Seq<char>| "(?:"@ + filter + ")"@), "|"@)
}

/// The pattern of all that is taken out: the lines of one list, and the parts of another.
pub open spec fn filter_pattern(debug_info: bool, ir_metadata: bool) -> Seq<char> {
    let lines = if debug_info {
        line_filters() + debug_line_filters()
    } else {
        line_filters()
    };
    let with_debug = if debug_info {
        inline_filters() + debug_inline_filters()
    } else {
        inline_filters()
    };
    let parts = if ir_metadata {
        with_debug + metadata_inline_filters()
    } else {
        with_debug
    };
    let line_pattern = r"(?m)^(:?"@ + any_of(lines) + r")(?:\r\n|\n|\r)"@;
    "(:?"@ + line_pattern + ")|(:?"@ + any_of(parts) + ")"@
}

/// The patterns that are built for the four choices of what to take out.
pub open spec fn is_filter_pattern(pattern: Seq<char>) -> bool {
    exists|debug_info: bool, ir_metadata: bool|
        pattern == #[trigger] filter_source(debug_info, ir_metadata)
}

/// A dump without what the options ask to leave out. Where nothing of that is in it, it stays as
/// it is.
pub open spec fn filtered(ir: Seq<char>, options: OptPipelineBackendOptions) -> Seq<char> {
    let pattern = filter_pattern(options.filter_debug_info, options.filter_ir_metadata);
    if regex_matches(pattern, ir) {
        regex_erased(pattern, ir)
    } else {
        ir
    }
}

/// The texts of a list of literals.
pub open spec fn literal_texts(texts: Seq<&'static str>) -> Seq<Seq<char>> {
    texts.map_values(|text: &'static str| text@)
}

/// Builds a pattern that matches what any of `filters` matches.
fn any_filter(filters: &Vec<&'static str>) -> (res: String)
    ensures
        res@ == any_of(literal_texts(filters@)),
{
    let mut pieces: Vec<String> = Vec::new();
    let mut i: usize = 0;
    while i < filters.len()
        invariant
            i <= filters@.len(),
            pieces@.len() == i,
            forall|j: int|
                0 <= j < i ==> (#[trigger] pieces@[j])@ == "(?:"@ + filters@[j]@ + ")"@,
        decreases filters@.len() - i,
    {
        let mut piece = "(?:".to_string();
        piece.append(filters[i]);
        piece.append(")");
        pieces.push(piece);
        i += 1;
    }
    proof {
        assert(string_texts(pieces@) =~= literal_texts(filters@).map_values(
            |filter: Seq<char>| "(?:"@ + filter + ")"@,
        ));
    }
    join_text(&pieces, "|")
}

/// Builds the pattern of all that is taken out.
fn build_filter_pattern(debug_info: bool, ir_metadata: bool) -> (res: String)
    ensures
        res@ == filter_pattern(debug_info, ir_metadata),
{
    let mut parts: Vec<&'static str> = vec![r"(?m),? #\d+( \{)?$"];
    let mut lines: Vec<&'static str> =
        vec![
            r"; ModuleID = '.+'",
            r"(source_filename|target datalayout|target triple) = '.+'",
            r"; Function Attrs: .+",
            r"declare .+",
            r"attributes #\d+ = \{ .+ \}",
        ];
    assert(literal_texts(parts@) =~= inline_filters());
    assert(literal_texts(lines@) =~= line_filters());
    if debug_info {
        let mut debug_lines: Vec<&'static str> =
            vec![
                r"\s+(tail\s)?call void @llvm\.dbg.+",
                r"[ \t]+DBG_.+",
                r"(!\d+) = (?:distinct )?!DI([A-Za-z]+)\(([^)]+?)\).*",
                r"(!\d+) = (?:distinct )?!\{.*\}.*",
                r"(![.A-Z_a-z-]+) = (?:distinct )?!\{.*\}.*",
            ];
        assert(literal_texts(debug_lines@) =~= debug_line_filters());
        lines.append(&mut debug_lines);
        assert(literal_texts(lines@) =~= line_filters() + debug_line_filters());
        let mut debug_parts: Vec<&'static str> = vec![r",? !dbg !\d+", r",? debug-location !\d+"];
        assert(literal_texts(debug_parts@) =~= debug_inline_filters());
        parts.append(&mut debug_parts);
        assert(literal_texts(parts@) =~= inline_filters() + debug_inline_filters());
    }
    if ir_metadata {
        let ghost before = literal_texts(parts@);
        parts.push(r",?(?: ![\d.A-Za-z]+){2}");
        assert(literal_texts(parts@) =~= before + metadata_inline_filters());
    }
    let mut combined = "(:?".to_string();
    combined.append(r"(?m)^(:?");
    combined.append(any_filter(&lines).as_str());
    combined.append(r")(?:\r\n|\n|\r)");
    combined.append(")|(:?");
    combined.append(any_filter(&parts).as_str());
    combined.append(")");
    assert(combined@ =~= filter_pattern(debug_info, ir_metadata));
    combined
}

/// Only the choices of what to take out decide what is left of a dump.
pub proof fn lemma_other_options_ignored(
    ir: Seq<char>,
    first: OptPipelineBackendOptions,
    second: OptPipelineBackendOptions,
)
    requires
        first.filter_debug_info == second.filter_debug_info,
        first.filter_ir_metadata == second.filter_ir_metadata,
    ensures
        filtered(ir, first) == filtered(ir, second),
{
}

/// Takes out of a dump what the options ask to leave out. Nothing is added to what is left, and
/// nothing in it changes places. Each line that is simple enough to tell leaves what `leaves` says
/// of it: a line without anything to take out stays, one that ends in the number of an attribute
/// group, in a reference to debug information or in references to metadata loses that, and a line
/// with a declaration or with debug information alone is gone.
pub fn apply_filters(ir: &str, options: &OptPipelineBackendOptions) -> (res: String)
    ensures
        res@ == filtered(ir@, *options),
        is_subsequence(res@, ir@),
        is_left(ir@, res@, options.filter_debug_info, options.filter_ir_metadata),
{
    let pattern = build_filter_pattern(options.filter_debug_info, options.filter_ir_metadata);
    proof {
        lemma_filter_source(options.filter_debug_info, options.filter_ir_metadata);
        assert(is_filter_pattern(pattern@));
    }
    let regex = compile(pattern.as_str()).unwrap();
    erase(&regex, ir)
}

} // verus!
