//! Cuts dumps into passes and functions, and pairs them.
use optdiff::dump::{is_header_line, open_dump, read_pass_dumps, PassDump};
use optdiff::filter::{apply_filters, OptPipelineBackendOptions};
use optdiff::group::{gather_by_function, gather_by_module};
use optdiff::parser::LlvmPassDumpParser;
use optdiff::passes::{pair_all_dumps, pair_dumps, passes_match, PassDumpError};
use optdiff::table::FunctionTable;

fn options(debug: bool, metadata: bool) -> OptPipelineBackendOptions {
    OptPipelineBackendOptions {
        filter_debug_info: debug,
        filter_ir_metadata: metadata,
        full_module: false,
        no_discard_value_names: false,
        demangle: false,
        library_functions: false,
        apply_filters: true,
    }
}

fn dump(header: &str, machine: bool, lines: &str) -> PassDump {
    PassDump {
        header: header.to_string(),
        affected_function: None,
        machine,
        lines: lines.to_string(),
    }
}

#[test]
fn headers_of_all_forms() {
    assert!(is_header_line("; *** IR Dump After A ***"));
    assert!(is_header_line("*** IR Dump After A ***"));
    assert!(is_header_line("// -----// IR Dump After A //----- //"));
    assert!(is_header_line("# *** IR Dump After A ***:"));
    assert!(!is_header_line(" *** IR Dump After A ***"));
    assert!(!is_header_line("***"));
    assert!(!is_header_line(""));

    let opened = open_dump("; *** IR Dump After A on foo ***").unwrap();
    assert_eq!(opened.header, "IR Dump After A on foo");
    assert_eq!(opened.affected_function, None);
    assert!(!opened.machine);
    assert_eq!(opened.lines, "");

    let opened = open_dump("*** IR Dump Before A *** (function: foo)").unwrap();
    assert_eq!(opened.header, "IR Dump Before A");
    assert_eq!(opened.affected_function, Some("foo".to_string()));

    let opened = open_dump("*** IR Dump Before A *** (loop: %for.body)").unwrap();
    assert_eq!(opened.affected_function, Some("%for.body".to_string()));

    let opened = open_dump("// -----// IR Dump After Canonicalizer (canonicalize) //----- //").unwrap();
    assert_eq!(opened.header, "IR Dump After Canonicalizer (canonicalize)");

    let opened = open_dump("# *** IR Dump After A ***:").unwrap();
    assert_eq!(opened.header, "IR Dump After A");
    assert!(opened.machine);
}

#[test]
fn headers_without_end() {
    assert!(open_dump("; *** IR Dump After A").is_none());
    assert!(open_dump("// -----// IR Dump After A ***").is_none());
    assert!(open_dump("*** IR Dump After A *** (function: foo").is_none());
}

#[test]
fn blank_lines_collapse() {
    let dumps = read_pass_dumps(
        "ignored\n*** IR Dump After A ***\n\n \none\n\n\t\n\ntwo\r\n\n*** IR Dump After B ***\n",
    )
    .unwrap();
    assert_eq!(dumps.len(), 2);
    assert_eq!(dumps[0].header, "IR Dump After A");
    assert_eq!(dumps[0].lines, "one\n\ntwo\n\n");
    assert_eq!(dumps[1].lines, "");
}

#[test]
fn dumps_can_be_cut_at_headers() {
    let first = "x\n*** IR Dump After A ***\na\n";
    let second = "*** IR Dump After B ***\nb\n# *** IR Dump After C ***:\nc\n";
    let whole = read_pass_dumps(&format!("{}{}", first, second)).unwrap();
    let mut parts = read_pass_dumps(first).unwrap();
    parts.extend(read_pass_dumps(second).unwrap());
    assert_eq!(whole.len(), 3);
    assert_eq!(parts.len(), 3);
    for (whole, part) in whole.iter().zip(parts.iter()) {
        assert_eq!(whole.header, part.header);
        assert_eq!(whole.lines, part.lines);
        assert_eq!(whole.machine, part.machine);
    }
}

#[test]
fn dumps_are_read_again() {
    let ir = "*** IR Dump After A *** (function: f)\n\n\none\n\n \n two\n\n# *** IR Dump After B ***:\n";
    let headers = ["*** IR Dump After A *** (function: f)", "# *** IR Dump After B ***:"];
    let dumps = read_pass_dumps(ir).unwrap();
    assert_eq!(dumps.len(), 2);
    for (header, dump) in headers.iter().zip(dumps.iter()) {
        let again = read_pass_dumps(&format!("{}\n{}", header, dump.lines)).unwrap();
        assert_eq!(again.len(), 1);
        assert_eq!(again[0].header, dump.header);
        assert_eq!(again[0].affected_function, dump.affected_function);
        assert_eq!(again[0].machine, dump.machine);
        assert_eq!(again[0].lines, dump.lines);
    }
}

#[test]
fn functions_of_a_dump() {
    let parser = LlvmPassDumpParser::new();
    let text = "outside\n\
define void @f(i32 %a, ptr %b) {\n\
; Preheader:\n\
  body\n\
 } \n\
outside\n\
  func.func @g(%arg0: i32) {\n\
  tt.func public @h(%arg0: i32) {\n\
# Machine code for function m: IsSSA\n\
}\n\
# End machine code for function m.\n\
; Preheader:\n\
loop\n\
define void @f() {\n\
again\n";
    let split = parser.breakdown_pass_dumps_into_functions(&dump("IR Dump After A", true, text));
    assert_eq!(split.header, "IR Dump After A");
    assert!(split.machine);
    assert_eq!(split.functions.len(), 5);
    let lines = |name: &str| split.functions.value(split.functions.position(name).unwrap()).clone();
    assert_eq!(lines("f"), vec!["define void @f() {", "again"]);
    assert_eq!(lines("g"), vec!["func.func @g(%arg0: i32) {"]);
    assert_eq!(lines("h"), vec!["tt.func public @h(%arg0: i32) {"]);
    assert_eq!(
        lines("m"),
        vec![
            "# Machine code for function m: IsSSA",
            "}",
            "# End machine code for function m.",
        ]
    );
    assert_eq!(lines("<loop>"), vec!["; Preheader:", "loop"]);
}

#[test]
fn preheaders_inside_functions_are_left_out() {
    let parser = LlvmPassDumpParser::new();
    let text = "define void @f() {\n; Preheader:\nbody\n}\nrest\n";
    let split = parser.breakdown_pass_dumps_into_functions(&dump("IR Dump After A", false, text));
    assert_eq!(split.functions.len(), 1);
    assert_eq!(split.functions.value(0), &vec!["define void @f() {", "body", "}"]);
}

#[test]
fn machine_functions_end_at_their_own_line() {
    let parser = LlvmPassDumpParser::new();
    for (end, closes) in [
        ("# End machine code for function f.", true),
        ("  # End machine code for function f.  ", true),
        ("# End machine code for function a$b_c.d!", true),
        ("# End machine code for function fö.", true),
        ("# End machine code for function f", false),
        ("# End machine code for function f g.", false),
        ("# End machine code for function .", false),
        ("}", false),
    ] {
        let text = format!("# Machine code for function f: X\n{}\nrest\n", end);
        let split =
            parser.breakdown_pass_dumps_into_functions(&dump("IR Dump After A", true, &text));
        let lines = split.functions.value(0);
        assert_eq!(lines.len() == 2, closes, "{}", end);
        assert_eq!(lines[1], end);
    }
}

#[test]
fn dumps_by_function() {
    let parser = LlvmPassDumpParser::new();
    let splits = vec![
        parser.breakdown_pass_dumps_into_functions(&dump(
            "IR Dump Before A",
            false,
            "define void @f() {\n}\ndefine void @g() {\n}\n",
        )),
        parser.breakdown_pass_dumps_into_functions(&dump(
            "IR Dump After A",
            false,
            "; Preheader:\nx\n",
        )),
        parser.breakdown_pass_dumps_into_functions(&dump(
            "IR Dump After B",
            true,
            "define void @f() {\ny\n}\n",
        )),
    ];
    let table = gather_by_function(&splits).unwrap();
    assert_eq!(table.len(), 2);
    let shown: usize = splits.iter().map(|split| split.functions.len()).sum();
    let gathered: usize = (0..table.len()).map(|i| table.value(i).len()).sum();
    assert_eq!(shown, 4);
    assert_eq!(gathered, shown);
    let f = table.value(table.position("f").unwrap());
    let headers: Vec<&str> = f.iter().map(|dump| dump.header.as_str()).collect();
    assert_eq!(headers, vec!["IR Dump Before A", "IR Dump After B"]);
    assert_eq!(f[1].lines, "define void @f() {\ny\n}");
    assert!(f[1].machine);
    let g = table.value(table.position("g").unwrap());
    let headers: Vec<&str> = g.iter().map(|dump| dump.header.as_str()).collect();
    assert_eq!(headers, vec!["IR Dump Before A", "IR Dump After A"]);
    assert_eq!(g[1].lines, "; Preheader:\nx");
    assert_eq!(table.position("<loop>"), None);
    let again = parser.breakdown_into_pass_dumps_by_function(&splits);
    assert_eq!(again.len(), 2);
}

#[test]
fn dumps_by_module() {
    let mut about_f = dump("IR Dump Before A", false, "one");
    about_f.affected_function = Some("f".to_string());
    let dumps = vec![dump("IR Dump Before M", false, "zero"), about_f];
    let table = gather_by_module(&dumps).unwrap();
    assert_eq!(table.len(), 2);
    let f = table.value(table.position("f").unwrap());
    assert_eq!(f.len(), 2);
    assert_eq!(f[1].header, "IR Dump Before A (f)");
    assert_eq!(f[1].affected_function, Some("f".to_string()));
    let module = table.value(table.position("<Full Module>").unwrap());
    assert_eq!(module.len(), 1);
    assert_eq!(module[0].header, "IR Dump Before M");
    let parser = LlvmPassDumpParser::new();
    assert_eq!(parser.associate_full_dumps_with_functions(&dumps).len(), 2);
}

#[test]
fn function_that_is_called_like_the_module() {
    let mut about_f = dump("IR Dump Before A", false, "one");
    about_f.affected_function = Some("<Full Module>".to_string());
    let table = gather_by_module(&vec![about_f]).unwrap();
    assert_eq!(table.len(), 1);
    assert_eq!(table.value(0).len(), 1);
}

#[test]
fn headers_match() {
    assert!(passes_match("IR Dump Before A", "IR Dump After A").is_ok());
    assert!(passes_match("IR Dump Before A", "IR Dump After A (invalidated)").is_ok());
    let error = passes_match("IR Dump Before A", "IR Dump After B (invalidated)").unwrap_err();
    let PassDumpError::PassMismatch { before_header, after_header } = error;
    assert_eq!(before_header, "A");
    assert_eq!(after_header, "B");
}

#[test]
fn every_dump_is_part_of_one_pass() {
    let dumps = vec![
        dump("IR Dump After A", false, "a"),
        dump("IR Dump Before B", false, "b"),
        dump("IR Dump After B", false, "c"),
        dump("IR Dump Before C", false, "d"),
        dump("IR Dump Before D", false, ""),
        dump("IR Dump After D", false, ""),
    ];
    let passes = pair_dumps(&dumps).unwrap().unwrap();
    let shown: Vec<(&str, &str, &str)> = passes
        .iter()
        .map(|pass| (pass.name.as_str(), pass.before.as_str(), pass.after.as_str()))
        .collect();
    assert_eq!(
        shown,
        vec![("A", "", "a"), ("B", "b", "c"), ("C", "d", ""), ("D", "", "")]
    );
    let changed: Vec<bool> = passes.iter().map(|pass| pass.ir_changed).collect();
    assert_eq!(changed, vec![true, true, true, false]);
}

#[test]
fn first_mismatch_is_reported() {
    let dumps = vec![
        dump("IR Dump Before A", false, "a"),
        dump("IR Dump After A", false, "a"),
        dump("IR Dump Before B", false, "b"),
        dump("IR Dump After C", false, "c"),
        dump("IR Dump Before D", false, "d"),
        dump("IR Dump After E", false, "e"),
    ];
    let PassDumpError::PassMismatch { before_header, after_header } =
        pair_dumps(&dumps).unwrap().unwrap_err();
    assert_eq!(before_header, "B");
    assert_eq!(after_header, "C");
}

#[test]
fn dumps_that_cannot_be_paired() {
    assert!(pair_dumps(&vec![dump("Something", false, "a")]).is_none());
    assert!(pair_dumps(&vec![
        dump("IR Dump Before A", false, "a"),
        dump("IR Dump After A", true, "a"),
    ])
    .is_none());
}

#[test]
fn instruction_selection_is_shown_against_ir() {
    let dumps = vec![
        dump("IR Dump Before A", false, "a"),
        dump("IR Dump After A", false, "b"),
        dump("IR Dump Before B", true, "m"),
        dump("IR Dump After B", true, "n"),
    ];
    let passes = pair_dumps(&dumps).unwrap().unwrap();
    assert_eq!(passes[1].before, "b");
    assert_eq!(passes[1].after, "n");
}

#[test]
fn all_functions_are_paired() {
    let mut table: FunctionTable<Vec<PassDump>> = FunctionTable::new();
    table.insert("f".to_string(), vec![dump("IR Dump After A", false, "a")]);
    table.insert("g".to_string(), vec![]);
    let results = pair_all_dumps(&table).unwrap().ok().unwrap();
    assert_eq!(results.len(), 2);
    assert_eq!(results.name(0), "f");
    assert_eq!(results.value(0)[0].name, "A");
    assert_eq!(results.value(1).len(), 0);
    let parser = LlvmPassDumpParser::new();
    assert!(parser.match_pass_dumps(&table).is_ok());
}

#[test]
fn table_keeps_the_first_position() {
    let mut table: FunctionTable<u32> = FunctionTable::new();
    table.insert("b".to_string(), 1);
    table.insert("a".to_string(), 2);
    table.insert("b".to_string(), 3);
    assert_eq!(table.len(), 2);
    assert_eq!(table.name(0), "b");
    assert_eq!(*table.value(0), 3);
    assert_eq!(table.position("a"), Some(1));
    assert_eq!(*table.value(1), 2);
    assert_eq!(table.position("c"), None);
    let mut lists: FunctionTable<Vec<u32>> = FunctionTable::new();
    lists.insert("x".to_string(), vec![]);
    lists.insert("y".to_string(), vec![7]);
    lists.push_at(0, 8);
    assert_eq!(lists.value(0), &vec![8]);
    assert_eq!(lists.value(1), &vec![7]);
}

#[test]
fn filters_for_all_options() {
    let ir = "; ModuleID = 'x'\n\
source_filename = 'x.c'\n\
target triple = 't'\n\
; Function Attrs: nounwind\n\
define void @f() #0 {\n\
call void @g(), !dbg !7, !tbaa !3\n\
\x20 call void @llvm.dbg.value(metadata i32 1)\n\
\x20 DBG_VALUE $x\n\
\x20 MOV 1, debug-location !9\n\
}\n\
declare void @g()\n\
attributes #0 = { nounwind }\n\
!7 = !DILocation(line: 1)\n\
!8 = !{i32 1}\n\
!llvm.module.flags = !{!8}\n";
    let none = apply_filters(ir, &options(false, false));
    assert_eq!(
        none,
        "define void @f()\n\
call void @g(), !dbg !7, !tbaa !3\n\
\x20 call void @llvm.dbg.value(metadata i32 1)\n\
\x20 DBG_VALUE $x\n\
\x20 MOV 1, debug-location !9\n\
}\n\
!7 = !DILocation(line: 1)\n\
!8 = !{i32 1}\n\
!llvm.module.flags = !{!8}\n"
    );
    let debug = apply_filters(ir, &options(true, false));
    assert_eq!(
        debug,
        "define void @f()\n\
call void @g(), !tbaa !3\n\
\x20 MOV 1\n\
}\n"
    );
    let metadata = apply_filters(ir, &options(false, true));
    assert_eq!(
        metadata,
        "define void @f()\n\
call void @g()\n\
\x20 call void @llvm.dbg.value(metadata i32 1)\n\
\x20 DBG_VALUE $x\n\
\x20 MOV 1, debug-location !9\n\
}\n\
!7 = !DILocation(line: 1)\n\
!8 = !{i32 1}\n\
!llvm.module.flags = !{!8}\n"
    );
    let both = apply_filters(ir, &options(true, true));
    assert_eq!(
        both,
        "define void @f()\n\
call void @g()\n\
\x20 MOV 1\n\
}\n"
    );
}

#[test]
fn filters_leave_out_parts_alone() {
    let ir = "define void @f() #0 {\n  ret void, !dbg !7\n}\ndeclare void @g()\n";
    let kept = apply_filters(ir, &options(true, true));
    assert!(kept.len() < ir.len());
    let mut rest = ir.chars();
    assert!(kept.chars().all(|kept| rest.any(|c| c == kept)));
    let mut other = options(true, true);
    other.full_module = true;
    other.no_discard_value_names = true;
    other.demangle = true;
    other.library_functions = true;
    other.apply_filters = false;
    assert_eq!(apply_filters(ir, &other), kept);
}

#[test]
fn nothing_to_filter() {
    let ir = "define void @f() {\n  ret void\n}\n";
    assert_eq!(apply_filters(ir, &options(true, true)), ir);
    let parser = LlvmPassDumpParser::new();
    assert_eq!(parser.apply_ir_filters(ir, &options(true, true)), ir);
}

#[test]
fn breaking_down_a_text() {
    let parser = LlvmPassDumpParser::new();
    let text = "*** IR Dump After A ***\ndefine void @f() {\n}\n";
    assert!(parser.can_break_down(text, false));
    assert!(parser.can_process(text, &options(true, true)));
    let results = parser.breakdown_output(text, &options(true, true)).ok().unwrap();
    assert_eq!(results.len(), 1);
    assert_eq!(parser.breakdown_output_into_pass_dumps(text).len(), 1);
    let (prefix, results) = parser.process(text, &options(true, true)).ok().unwrap();
    assert_eq!(prefix, "");
    assert_eq!(results.name(0), "f");
    assert!(!parser.can_break_down("*** IR Dump After A\n", false));
    assert!(!parser.can_break_down("*** Other ***\ndefine void @f() {\n}\n", false));
}
