//! Reads whole dumps.
use optdiff::parser::{process, try_process, LlvmPassDumpParser};
use optdiff::passes::{OptPipelineResults, Pass, PassDumpError};

fn read(dump: &str, apply_filters: bool, full_module: bool) -> (String, OptPipelineResults) {
    match try_process(dump, apply_filters, full_module) {
        Some(Ok((prefix, results))) => (prefix.to_string(), results),
        Some(Err(error)) => panic!("{}", error.message()),
        None => panic!("the dump cannot be read"),
    }
}

fn names(results: &OptPipelineResults) -> Vec<String> {
    let mut names: Vec<String> =
        (0..results.len()).map(|i| results.name(i).to_string()).collect();
    names.sort();
    names
}

fn passes<'a>(results: &'a OptPipelineResults, name: &str) -> &'a Vec<Pass> {
    results.value(results.position(name).unwrap())
}

fn assert_pass(pass: &Pass, name: &str, machine: bool, before: &str, after: &str) {
    assert_eq!(pass.name, name);
    assert_eq!(pass.machine, machine);
    assert_eq!(pass.before, before);
    assert_eq!(pass.after, after);
    assert_eq!(pass.ir_changed, before != after);
}

const SIMPLE: &str = "clang: warning: unused\n\
; *** IR Dump Before InstCombinePass on foo ***\n\
; Function Attrs: nounwind\n\
define i32 @foo(i32 %x) #0 {\n\
  %y = add i32 %x, 0, !dbg !7\n\
  ret i32 %y\n\
}\n\
\n\
; *** IR Dump After InstCombinePass on foo ***\n\
; Function Attrs: nounwind\n\
define i32 @foo(i32 %x) #0 {\n\
  ret i32 %x\n\
}\n";

#[test]
fn one_pass_with_filters() {
    let (prefix, results) = read(SIMPLE, true, false);
    assert_eq!(prefix, "clang: warning: unused\n");
    assert_eq!(names(&results), vec!["foo"]);
    let foo = passes(&results, "foo");
    assert_eq!(foo.len(), 1);
    assert_pass(
        &foo[0],
        "InstCombinePass on foo",
        false,
        "define i32 @foo(i32 %x)\n%y = add i32 %x, 0\nret i32 %y\n}",
        "define i32 @foo(i32 %x)\nret i32 %x\n}",
    );
}

#[test]
fn one_pass_without_filters() {
    let (prefix, results) = read(SIMPLE, false, false);
    assert_eq!(prefix, "clang: warning: unused\n");
    let foo = passes(&results, "foo");
    assert_eq!(foo.len(), 1);
    assert_pass(
        &foo[0],
        "InstCombinePass on foo",
        false,
        "define i32 @foo(i32 %x) #0 {\n%y = add i32 %x, 0, !dbg !7\nret i32 %y\n}",
        "define i32 @foo(i32 %x) #0 {\nret i32 %x\n}",
    );
}

#[test]
fn process_is_what_try_process_gives() {
    let (prefix, results) = process(SIMPLE, true, false).ok().unwrap();
    let (other_prefix, other) = read(SIMPLE, true, false);
    assert_eq!(prefix, other_prefix);
    assert_eq!(names(&results), names(&other));
    assert_eq!(passes(&results, "foo")[0].after, passes(&other, "foo")[0].after);
}

#[test]
fn whole_module() {
    let dump = "*** IR Dump Before A ***\nglobals one\n\
*** IR Dump After A ***\nglobals two\n\
*** IR Dump Before B *** (function: foo)\nmodule before\n\
*** IR Dump After B *** (function: foo)\nmodule after\n\
*** IR Dump Before L *** (loop: %header)\nloop before\n\
*** IR Dump After L *** (loop: %header)\nloop after\n";
    let (prefix, results) = read(dump, false, true);
    assert_eq!(prefix, "");
    assert_eq!(names(&results), vec!["%header", "<Full Module>", "foo"]);
    let module = passes(&results, "<Full Module>");
    assert_eq!(module.len(), 1);
    assert_pass(&module[0], "A", false, "globals one\n", "globals two\n");
    let foo = passes(&results, "foo");
    assert_eq!(foo.len(), 3);
    assert_pass(&foo[0], "A", false, "globals one\n", "globals two\n");
    assert_pass(&foo[1], "B (foo)", false, "module before\n", "module after\n");
    assert_pass(&foo[2], "L (foo)", false, "loop before\n", "loop after\n");
    let header = passes(&results, "%header");
    assert_eq!(header.len(), 1);
    assert_pass(&header[0], "A", false, "globals one\n", "globals two\n");
}

#[test]
fn whole_module_loop_without_function() {
    let dump = "*** IR Dump Before L *** (loop: %header)\nloop before\n";
    assert!(try_process(dump, false, true).is_none());
    let after_module = "*** IR Dump Before A ***\nm\n*** IR Dump After L *** (loop: %h)\nl\n";
    assert!(try_process(after_module, false, true).is_none());
}

#[test]
fn machine_code() {
    let dump = "; *** IR Dump After CodeGenPrepare (codegenprepare) ***\n\
define void @foo() {\n\
  ret void\n\
}\n\
# *** IR Dump After X86 DAG->DAG Instruction Selection (x86-isel) ***:\n\
# Machine code for function foo: IsSSA\n\
bb.0:\n\
  RET64\n\
\n\
# End machine code for function foo.\n\
\n\
# *** IR Dump Before Finalize ISel (finalize-isel) ***:\n\
# Machine code for function foo: IsSSA\n\
bb.0:\n\
  RET64\n\
\n\
# End machine code for function foo.\n\
# *** IR Dump After Finalize ISel (finalize-isel) ***:\n\
# Machine code for function foo: IsSSA\n\
bb.0:\n\
  RET 0\n\
\n\
# End machine code for function foo.\n";
    let (_, results) = read(dump, true, false);
    assert_eq!(names(&results), vec!["foo"]);
    let foo = passes(&results, "foo");
    assert_eq!(foo.len(), 3);
    let ir = "define void @foo() {\nret void\n}";
    let selected = "# Machine code for function foo: IsSSA\nbb.0:\nRET64\n\n# End machine code for function foo.";
    let last = "# Machine code for function foo: IsSSA\nbb.0:\nRET 0\n\n# End machine code for function foo.";
    assert_pass(&foo[0], "CodeGenPrepare (codegenprepare)", false, "", ir);
    assert_pass(
        &foo[1],
        "X86 DAG->DAG Instruction Selection (x86-isel)",
        true,
        ir,
        selected,
    );
    assert_pass(&foo[2], "Finalize ISel (finalize-isel)", true, selected, last);
}

#[test]
fn machine_outliner_is_not_shown_against_ir() {
    let dump = "; *** IR Dump After A on foo ***\n\
define void @foo() {\n\
}\n\
# *** IR Dump Before B ***:\n\
# Machine code for function foo: X\n\
# End machine code for function foo.\n\
# *** IR Dump After B ***:\n\
# Machine code for function foo: X\n\
# End machine code for function foo.\n";
    let (_, results) = read(dump, false, false);
    let foo = passes(&results, "foo");
    let code = "# Machine code for function foo: X\n# End machine code for function foo.";
    assert_eq!(foo.len(), 2);
    assert_pass(&foo[1], "B", true, code, code);
    assert!(!foo[1].ir_changed);
}

#[test]
fn loops_belong_to_the_function_before() {
    let dump = "; *** IR Dump Before LICMPass on foo ***\n\
define void @foo() {\n\
entry:\n\
}\n\
; *** IR Dump After LICMPass on foo ***\n\
define void @foo() {\n\
entry:\n\
}\n\
; *** IR Dump Before LoopRotate on loop ***\n\
; Preheader:\n\
entry:\n\
; Loop:\n\
body:\n\
; *** IR Dump After LoopRotate on loop ***\n\
; Preheader:\n\
entry:\n\
; Loop:\n\
rotated:\n";
    let (_, results) = read(dump, false, false);
    assert_eq!(names(&results), vec!["foo"]);
    let foo = passes(&results, "foo");
    assert_eq!(foo.len(), 2);
    assert!(!foo[0].ir_changed);
    assert_eq!(results.position("<loop>"), None);
    assert_pass(
        &foo[1],
        "LoopRotate on loop",
        false,
        "; Preheader:\nentry:\n; Loop:\nbody:",
        "; Preheader:\nentry:\n; Loop:\nrotated:",
    );
}

#[test]
fn loop_before_any_function() {
    let dump = "; *** IR Dump Before LoopRotate on loop ***\n; Preheader:\nentry:\n";
    assert!(try_process(dump, false, false).is_none());
}

#[test]
fn passes_of_several_functions() {
    let dump = "; *** IR Dump Before A on [module] ***\n\
define void @f() {\n\
  one\n\
}\n\
declare void @g()\n\
define void @h() {\n\
  two\n\
}\n\
; *** IR Dump After A on [module] ***\n\
define void @f() {\n\
  one\n\
}\n\
define void @h() {\n\
  three\n\
}\n";
    let (_, results) = read(dump, true, false);
    assert_eq!(names(&results), vec!["f", "h"]);
    let f = passes(&results, "f");
    assert_eq!(f.len(), 1);
    assert!(!f[0].ir_changed);
    let h = passes(&results, "h");
    assert_eq!(h.len(), 1);
    assert_pass(
        &h[0],
        "A on [module]",
        false,
        "define void @h() {\ntwo\n}",
        "define void @h() {\nthree\n}",
    );
}

#[test]
fn mismatch_is_an_error() {
    let dump = "; *** IR Dump Before A on f ***\n\
define void @f() {\n\
}\n\
; *** IR Dump After B on f ***\n\
define void @f() {\n\
}\n";
    let error = match try_process(dump, false, false) {
        Some(Err(error)) => error,
        _ => panic!("the headers do not match"),
    };
    assert_eq!(
        error.message(),
        "Consecutive pass headers in dump file do not match:\n\
        First:  'A on f'\n\
        Second: 'B on f'\n\n\
        'optdiff' compares each pass dump with its immediate next dump in the file.\n\
        This error typically occurs when multiple compiler instances write to the same dump file.\n\
        Please run a single compiler instance at a time."
    );
    let PassDumpError::PassMismatch { before_header, after_header } = error;
    assert_eq!(before_header, "A on f");
    assert_eq!(after_header, "B on f");
    assert_ne!(before_header, after_header);
}

#[test]
fn invalidated_passes_match() {
    let dump = "; *** IR Dump Before A on f ***\n\
define void @f() {\n\
}\n\
; *** IR Dump After A on f (invalidated) ***\n\
define void @f() {\n\
}\n";
    let (_, results) = read(dump, false, false);
    let f = passes(&results, "f");
    assert_eq!(f.len(), 1);
    assert_eq!(f[0].name, "A on f");
}

#[test]
fn marked_name_does_not_match_itself() {
    let dump = "; *** IR Dump Before A (invalidated) ***\n\
define void @f() {\n\
}\n\
; *** IR Dump After A (invalidated) ***\n\
define void @f() {\n\
}\n";
    assert!(matches!(try_process(dump, false, false), Some(Err(_))));
}

#[test]
fn gaps_are_filled_from_the_neighbours() {
    let dump = "; *** IR Dump Before A ***\n\
define void @f() {\n\
  a\n\
}\n\
; *** IR Dump Before B ***\n\
define void @f() {\n\
  b\n\
}\n\
; *** IR Dump After B ***\n\
define void @f() {\n\
  c\n\
}\n\
; *** IR Dump After C ***\n\
define void @f() {\n\
  d\n\
}\n";
    let (_, results) = read(dump, false, false);
    let f = passes(&results, "f");
    assert_eq!(f.len(), 3);
    let body = |text: &str| format!("define void @f() {{\n{}\n}}", text);
    assert_pass(&f[0], "A", false, &body("a"), &body("b"));
    assert_pass(&f[1], "B", false, &body("b"), &body("c"));
    assert_pass(&f[2], "C", false, &body("c"), &body("d"));
}

#[test]
fn unknown_header_cannot_be_read() {
    let dump = "; *** IR Dump At Start ***\ndefine void @f() {\n}\n";
    assert!(try_process(dump, false, false).is_none());
}

#[test]
fn unclosed_header_cannot_be_read() {
    let dump = "; *** IR Dump Before A ***\ndefine void @f() {\n}\n; *** IR Dump After A\n";
    assert!(try_process(dump, false, false).is_none());
    let unheaded = "; *** IR Dump After A\ndefine void @f() {\n}\n";
    let (prefix, results) = read(unheaded, false, false);
    assert_eq!(prefix, unheaded);
    assert_eq!(results.len(), 0);
}

#[test]
fn mixed_machine_code_cannot_be_read() {
    let dump = "; *** IR Dump Before A ***\n\
define void @f() {\n\
}\n\
# *** IR Dump After A ***:\n\
# Machine code for function f: X\n";
    assert!(try_process(dump, false, false).is_none());
}

#[test]
fn nameless_function_cannot_be_read() {
    assert!(try_process("; *** IR Dump After A ***\ndefine void f() {\n", false, false).is_none());
    assert!(try_process("; *** IR Dump After A ***\ndefine void @f {\n", false, false).is_none());
    let machine = "# *** IR Dump After A ***:\n# Machine code for function f\n";
    assert!(try_process(machine, false, false).is_none());
}

#[test]
fn text_without_headers() {
    let (prefix, results) = read("one\ntwo\nthree", true, false);
    assert_eq!(prefix, "one\ntwo\n");
    assert_eq!(results.len(), 0);
    let (prefix, results) = read("one\ntwo\n", true, true);
    assert_eq!(prefix, "one\ntwo\n");
    assert_eq!(names(&results), vec!["<Full Module>"]);
    assert_eq!(results.value(0).len(), 0);
}

#[test]
fn empty_text() {
    let (prefix, results) = read("", true, false);
    assert_eq!(prefix, "");
    assert_eq!(results.len(), 0);
}

#[test]
fn preamble_ends_at_the_first_header() {
    let parser = LlvmPassDumpParser::new();
    let headers = [
        "*** IR Dump Before A ***",
        "; *** IR Dump Before A ***",
        ";*** IR Dump Before A ***",
        " *** IR Dump Before A ***",
        "; *** IR Dump Before A on foo ***; omitted",
        "*** IR Dump Before A *** (function: foo.bar$1)",
        "*** IR Dump Before A ***\t (loop: %for.body);x",
        "// -----// IR Dump Before A //----- //",
        "// -----// IR Dump Before A //----- // (function: foo)",
        "# *** IR Dump Before A ***:",
        "; *** Ümlaut ***",
    ];
    for header in headers {
        let output = format!("one\n\ntwo\n{}\nthree\n", header);
        let (prefix, rest) = parser.split_preamble(&output);
        assert_eq!(prefix, "one\n\ntwo\n", "{}", header);
        assert_eq!(rest, format!("{}\nthree\n", header));
    }
    let others = [
        ";; *** IR Dump Before A ***",
        "  *** IR Dump Before A ***",
        "***  ***x",
        "*** IR Dump Before A *** function: foo",
        "*** IR Dump Before A *** (function: foo bar)",
        "*** IR Dump Before A ***(function: foo)",
        "*** IR Dump Before A ***;",
        "# *** IR Dump Before A ***",
        "#  *** IR Dump Before A ***:",
        "// -----// IR Dump Before A //----- / ",
    ];
    for other in others {
        let output = format!("one\n{}\nthree\n", other);
        let (prefix, rest) = parser.split_preamble(&output);
        assert_eq!(prefix, output, "{}", other);
        assert_eq!(rest, "");
    }
}

#[test]
fn text_before_the_dumps_is_ignored() {
    let (prefix, results) = read(SIMPLE, true, false);
    let front = "one\n\n; no *** header ***\ndefine void @g() {\n}\n";
    let (longer, same) = read(&format!("{}{}", front, SIMPLE), true, false);
    assert_eq!(longer, format!("{}{}", front, prefix));
    assert_eq!(names(&same), names(&results));
    let (one, other) = (passes(&same, "foo"), passes(&results, "foo"));
    assert_eq!(one.len(), other.len());
    assert_eq!(one[0].before, other[0].before);
    assert_eq!(one[0].after, other[0].after);
}

#[test]
fn last_line_without_line_feed_is_no_header() {
    let parser = LlvmPassDumpParser::new();
    let (prefix, rest) = parser.split_preamble("one\n*** IR Dump Before A ***");
    assert_eq!(prefix, "one\n");
    assert_eq!(rest, "*** IR Dump Before A ***");
}

#[test]
fn order_of_functions_does_not_matter() {
    let f = "; *** IR Dump Before A ***\ndefine void @f() {\n  1\n}\n\
; *** IR Dump After A ***\ndefine void @f() {\n  2\n}\n";
    let g = "; *** IR Dump Before B ***\ndefine void @g() {\n  3\n}\n\
; *** IR Dump After B ***\ndefine void @g() {\n  4\n}\n";
    let (_, first) = read(&format!("{}{}", f, g), false, false);
    let (_, second) = read(&format!("{}{}", g, f), false, false);
    assert_eq!(names(&first), names(&second));
    for name in ["f", "g"] {
        assert_eq!(passes(&first, name)[0].before, passes(&second, name)[0].before);
        assert_eq!(passes(&first, name)[0].after, passes(&second, name)[0].after);
    }
}
