//! What the command line shows.
use optdiff::cli::{auto_select_pager, check_input, enter_pager, InputError};
use optdiff::demangle::{demangle_names, demangle_text};
use optdiff::functions::{list_functions, listed_names, try_list_functions};
use optdiff::parser::process;
use optdiff::passes::{OptPipelineResults, Pass};
use optdiff::pattern::matches_pattern;
use optdiff::report::{decimal_text, print_all, print_func, write_section, DemangledPass};
use optdiff::select::{function_order, select_function, SelectionError};
use optdiff::text::{
    contains_text, ends_with, is_blank_text, join_text, lines_of, same_text, split_first,
    starts_with, strip_prefix, strip_suffix, trim_text,
};

fn pass(name: &str, before: &str, after: &str) -> Pass {
    Pass {
        name: name.to_string(),
        machine: false,
        after: after.to_string(),
        before: before.to_string(),
        ir_changed: before != after,
    }
}

fn results() -> OptPipelineResults {
    let dump = "*** IR Dump Before A ***\n\
define void @_Z1gv() {\n\
one\n\
}\n\
define void @f() {\n\
}\n\
*** IR Dump After A ***\n\
define void @_Z1gv() {\n\
two\n\
}\n\
define void @f() {\n\
}\n";
    process(dump, true, false).ok().unwrap().1
}

fn written(text: &str) -> Option<Vec<u8>> {
    Some(text.as_bytes().to_vec())
}

#[test]
fn input_without_dumps() {
    let error = check_input("IR Dump After A").unwrap_err();
    assert!(matches!(error, InputError::NoDumpBefore));
    assert_eq!(error.message(), "Did you forget to add `-mllvm -print-before-all`?");
    let error = check_input("IR Dump Before A").unwrap_err();
    assert!(matches!(error, InputError::NoDumpAfter));
    assert_eq!(error.message(), "Did you forget to add `-mllvm -print-after-all`?");
    assert!(matches!(check_input(""), Err(InputError::NoDumpBefore)));
    assert!(check_input("x IR Dump After A IR Dump Before B").is_ok());
}

#[test]
fn installed_pagers() {
    assert_eq!(auto_select_pager(true, true, true), Some("delta"));
    assert_eq!(auto_select_pager(false, true, true), Some("riff"));
    assert_eq!(auto_select_pager(false, false, true), Some("less -R"));
    assert_eq!(auto_select_pager(false, false, false), None);
}

#[test]
fn pager_to_run() {
    assert_eq!(enter_pager(true, None, Some("delta")), Some("delta"));
    assert_eq!(enter_pager(true, None, None), None);
    assert_eq!(enter_pager(true, Some("more"), Some("delta")), Some("more"));
    assert_eq!(enter_pager(true, Some(" \t"), Some("delta")), None);
    assert_eq!(enter_pager(true, Some(""), Some("delta")), None);
    assert_eq!(enter_pager(false, Some("more"), Some("delta")), None);
    assert_eq!(enter_pager(false, None, Some("delta")), None);
}

#[test]
fn patterns() {
    assert!(matches_pattern("InstCombinePass", "combine", false).unwrap());
    assert!(matches_pattern("instcombinepass", "COMBINE", false).unwrap());
    assert!(matches_pattern("STRASSE ÄÖ", "äö", false).unwrap());
    assert!(matches_pattern("anything", "", false).unwrap());
    assert!(!matches_pattern("InstCombinePass", "comb.ne", false).unwrap());
    assert!(matches_pattern("InstCombinePass", "Comb.ne", true).unwrap());
    assert!(!matches_pattern("InstCombinePass", "comb.ne", true).unwrap());
    assert!(matches_pattern("a(b", "(", false).unwrap());
    let error = matches_pattern("a", "(", true).unwrap_err();
    assert_eq!(error.pattern, "(");
    assert_eq!(error.message(), "Invalid regex pattern: (");
}

#[test]
fn errors_tell_what_is_wrong_with_the_pattern() {
    for pattern in ["(", "[", "*", "a{2,1}"] {
        let expected = regex::Regex::new(pattern).unwrap_err().to_string();
        let error = matches_pattern("a", pattern, true).unwrap_err();
        assert_eq!(error.source.to_string(), expected);
        let error = match select_function(&results(), pattern, true, false, &vec![]) {
            Err(SelectionError::InvalidPattern(error)) => error,
            _ => panic!("{}", pattern),
        };
        assert_eq!(error.source.to_string(), expected);
        let passes = vec![pass("A", "x", "y")];
        let error =
            print_func("f", &passes, false, Some(pattern), true, false, &vec![]).unwrap_err();
        assert_eq!(error.source.to_string(), expected);
        let error =
            print_all(&results(), false, Some(pattern), true, false, &vec![]).unwrap_err();
        assert_eq!(error.source.to_string(), expected);
    }
}

#[test]
fn demangled_texts() {
    assert_eq!(demangle_text("_Z1gv", true, &written("g()")), "g()");
    assert_eq!(demangle_text("_Z1gv", false, &written("g()")), "_Z1gv");
    assert_eq!(demangle_text("_Z1gv", true, &None), "_Z1gv");
    assert_eq!(demangle_text("x", true, &Some(vec![0x61, 0xff, 0x62])), "a\u{fffd}b");
    let names = vec!["_Z1gv".to_string(), "f".to_string()];
    assert_eq!(demangle_names(&names, true, &vec![written("g()")]), vec!["g()", "f"]);
}

#[test]
fn listed_functions() {
    let dump = "define void @zeta(i32 %x) {\n\
xdefine ptr @alpha()\n\
# Machine code for function beta: IsSSA\n\
# Machine code for function zeta: IsSSA\n\
define dso_local noundef\n  i32 @\u{e4}ther()\n";
    let mut names = list_functions(dump);
    names.sort();
    assert_eq!(names, vec!["alpha", "beta", "zeta", "\u{e4}ther"]);
    let listing = listed_names(&list_functions(dump), false, &vec![]);
    assert_eq!(listing, vec!["alpha", "beta", "zeta", "\u{e4}ther"]);
    assert!(list_functions("nothing").is_empty());
}

#[test]
fn listing_is_sorted_and_without_repetition() {
    let names: Vec<String> =
        ["b", "_Z1av", "a", "_Z1bv", "ab", "B", ""].iter().map(|name| name.to_string()).collect();
    let outcomes =
        vec![written("b"), written("a()"), written("a"), written("a()"), None, None, None];
    assert_eq!(listed_names(&names, true, &outcomes), vec!["", "B", "a", "a()", "ab", "b"]);
    assert_eq!(
        listed_names(&names, false, &outcomes),
        vec!["", "B", "_Z1av", "_Z1bv", "a", "ab", "b"]
    );
}

#[test]
fn unreadable_names() {
    assert!(try_list_functions("define void f()").is_none());
    assert!(try_list_functions("define void @f").is_none());
    assert!(try_list_functions("# Machine code for function f").is_none());
    assert!(try_list_functions("define void @f()").is_some());
}

#[test]
fn shown_functions_are_listed() {
    let dump = "*** IR Dump Before A ***\n\
define void @f() {\n\
}\n\
# *** IR Dump After B ***:\n\
# Machine code for function g: X\n\
# End machine code for function g.\n";
    let results = process(dump, false, false).ok().unwrap().1;
    let listed = list_functions(dump);
    assert_eq!(results.len(), 2);
    for i in 0..results.len() {
        assert!(listed.iter().any(|name| name == results.name(i)));
    }
}

#[test]
fn functions_of_other_dialects_are_listed() {
    let dump = "// -----// IR Dump Before CSE //----- //\nfunc.func @f() {\n}\n";
    assert_eq!(list_functions(dump), vec!["f"]);
    assert_eq!(process(dump, false, false).ok().unwrap().1.name(0), "f");
    let mixed = "// -----// IR Dump Before CSE (cse) //----- //\n\
module {\n\
\x20 func.func private @g(%arg0: i32) -> i32 {\r\n\
\x20 }\n\
\x20 tt.func public @kernel(%arg0: !tt.ptr<f32>) {\n\
\x20 }\n\
define void @h() {\n\
}\n\
x func.func @inside()\n";
    let listing = listed_names(&list_functions(mixed), false, &vec![]);
    assert_eq!(listing, vec!["g", "h", "kernel"]);
    let results = process(mixed, false, false).ok().unwrap().1;
    assert_eq!(results.len(), 3);
    for i in 0..results.len() {
        assert!(listing.iter().any(|name| name == results.name(i)));
    }
}

#[test]
fn dialect_lines_without_a_name_are_not_listed() {
    assert!(try_list_functions("tt.functional\nfunc.func private\n").unwrap().is_empty());
    assert_eq!(list_functions("tt.func x\ndefine void @f()\n"), vec!["f"]);
}

#[test]
fn lists_of_parts() {
    let first = "define void @a()\n  func.func @b() {\n";
    let second = "# Machine code for function c: X\ndefine void @a()\n";
    let whole = format!("{}{}", first, second);
    assert!(try_list_functions(&whole).is_some());
    let mut union = list_functions(first);
    union.extend(list_functions(second));
    assert_eq!(
        listed_names(&list_functions(&whole), false, &vec![]),
        listed_names(&union, false, &vec![])
    );
    assert_eq!(listed_names(&union, false, &vec![]), vec!["a", "b", "c"]);
}

#[test]
fn selecting_by_name() {
    let results = results();
    let (at, name) = select_function(&results, "f", false, false, &vec![]).unwrap();
    assert_eq!(results.name(at), "f");
    assert_eq!(name, "f");
    let outcomes: Vec<Option<Vec<u8>>> = (0..results.len())
        .map(|i| if results.name(i) == "_Z1gv" { written("g()") } else { None })
        .collect();
    let (at, name) = select_function(&results, "g()", false, true, &outcomes).unwrap();
    assert_eq!(results.name(at), "_Z1gv");
    assert_eq!(name, "g()");
    assert!(select_function(&results, "_Z1gv", false, true, &outcomes).is_err());
}

#[test]
fn selecting_nothing() {
    let results = results();
    let error = select_function(&results, "h", false, false, &vec![]).unwrap_err();
    assert!(matches!(error, SelectionError::NotFound { .. }));
    assert_eq!(
        error.message(),
        "Function 'h' was not found in the input, use option `--list/-l` to find out all available functions"
    );
    let error = select_function(&results, "^h", true, false, &vec![]).unwrap_err();
    assert!(matches!(error, SelectionError::NoMatch { .. }));
    assert_eq!(
        error.message(),
        "No function matching regex '^h' was found in the input, use option `--list/-l` to find out all available functions"
    );
    let error = select_function(&results, "[", true, false, &vec![]).unwrap_err();
    assert!(matches!(error, SelectionError::InvalidPattern(_)));
    assert_eq!(error.message(), "Invalid regex pattern: [");
}

#[test]
fn selecting_by_pattern() {
    let results = results();
    let (at, name) = select_function(&results, "^_Z.*v$", true, false, &vec![]).unwrap();
    assert_eq!(results.name(at), "_Z1gv");
    assert_eq!(name, "_Z1gv");
}

#[test]
fn functions_in_order() {
    let results = results();
    let names: Vec<&str> =
        function_order(&results).into_iter().map(|at| results.name(at)).collect();
    assert_eq!(names, vec!["_Z1gv", "f"]);
}

#[test]
fn numbers() {
    assert_eq!(decimal_text(0), "0");
    assert_eq!(decimal_text(9), "9");
    assert_eq!(decimal_text(10), "10");
    assert_eq!(decimal_text(1234567890), "1234567890");
}

#[test]
fn sections() {
    assert_eq!(
        write_section(12, "f", "A on f", "@@ diff"),
        "diff --git a/(12\u{b7}f) A on f b/(12\u{b7}f) A on f\n\
--- a/(12\u{b7}f) A on f\n\
+++ b/(12\u{b7}f) A on f\n\
@@ diff\n"
    );
}

#[test]
fn report_of_one_function() {
    let pipeline = vec![pass("A", "one\ntwo", "one\nthree"), pass("B", "x", "x")];
    let shown = print_func("f", &pipeline, false, None, false, false, &vec![]).unwrap();
    assert_eq!(
        shown,
        "diff --git a/(1\u{b7}f) A b/(1\u{b7}f) A\n\
--- a/(1\u{b7}f) A\n\
+++ b/(1\u{b7}f) A\n\
@@ -1,2 +1,2 @@\n one\n-two\n+three\n\n\
diff --git a/(2\u{b7}f) B b/(2\u{b7}f) B\n\
--- a/(2\u{b7}f) B\n\
+++ b/(2\u{b7}f) B\n\n"
    );
}

#[test]
fn context_of_ten_lines() {
    let many: Vec<String> = (0..30).map(|i| format!("line {}", i)).collect();
    let before = many.join("\n");
    let after = before.replace("line 15", "changed");
    let shown =
        print_func("f", &vec![pass("A", &before, &after)], false, None, false, false, &vec![])
            .unwrap();
    assert!(shown.contains("@@ -6,21 +6,21 @@\n line 5\n"));
    assert!(shown.contains(" line 25\n\n"));
    assert!(!shown.contains("line 4\n"));
    assert!(!shown.contains("line 26"));
}

#[test]
fn unchanged_passes_are_skipped() {
    let pipeline = vec![pass("A", "x", "x"), pass("B", "x", "y")];
    let shown = print_func("f", &pipeline, true, None, false, false, &vec![]).unwrap();
    assert!(!shown.contains("(1\u{b7}f)"));
    assert!(shown.contains("(2\u{b7}f) B"));
    let unchanged = vec![pass("A", "x", "x")];
    assert_eq!(print_func("f", &unchanged, true, None, false, false, &vec![]).unwrap(), "");
}

#[test]
fn skipping_leaves_out_the_sections_of_unchanged_passes() {
    let pipeline = vec![
        pass("A", "x", "y"),
        pass("B", "y", "y"),
        pass("C", "y", "z"),
        pass("D", "z", "z"),
    ];
    let full = print_func("f", &pipeline, false, None, false, false, &vec![]).unwrap();
    let skipping = print_func("f", &pipeline, true, None, false, false, &vec![]).unwrap();
    let without = full
        .replace(&write_section(2, "f", "B", ""), "")
        .replace(&write_section(4, "f", "D", ""), "");
    assert_ne!(full, skipping);
    assert_eq!(skipping, without);
    assert!(skipping.contains("(3\u{b7}f) C"));
}

#[test]
fn filtered_passes() {
    let pipeline = vec![pass("SROA", "x", "y"), pass("InstCombine", "x", "y")];
    let shown = print_func("f", &pipeline, false, Some("comb"), false, false, &vec![]).unwrap();
    assert!(!shown.contains("SROA"));
    assert!(shown.contains("(2\u{b7}f) InstCombine"));
    let shown = print_func("f", &pipeline, false, Some("^S"), true, false, &vec![]).unwrap();
    assert!(shown.contains("(1\u{b7}f) SROA"));
    assert!(!shown.contains("InstCombine"));
}

#[test]
fn filter_that_is_no_pattern() {
    let pipeline = vec![pass("A", "x", "x")];
    let error = print_func("f", &pipeline, true, Some("("), true, false, &vec![]).unwrap_err();
    assert_eq!(error.message(), "Invalid regex pattern: (");
    assert_eq!(print_func("f", &vec![], true, Some("("), true, false, &vec![]).unwrap(), "");
    assert!(print_func("f", &pipeline, true, Some("("), false, false, &vec![]).is_ok());
}

#[test]
fn demangled_report() {
    let pipeline = vec![pass("A on _Z1gv", "call _Z1gv", "ret _Z1gv")];
    let demangled = vec![DemangledPass {
        name: written("A on g()"),
        before: written("call g()"),
        after: None,
    }];
    let shown = print_func("g()", &pipeline, false, Some("g()"), false, true, &demangled).unwrap();
    assert_eq!(
        shown,
        "diff --git a/(1\u{b7}g()) A on _Z1gv b/(1\u{b7}g()) A on _Z1gv\n\
--- a/(1\u{b7}g()) A on _Z1gv\n\
+++ b/(1\u{b7}g()) A on _Z1gv\n\
@@ -1 +1 @@\n-call g()\n+ret _Z1gv\n\n"
    );
    let plain = print_func("g()", &pipeline, false, None, false, false, &demangled).unwrap();
    let bare = print_func("g()", &pipeline, false, None, false, false, &vec![]).unwrap();
    assert_eq!(plain, bare);
}

#[test]
fn report_of_all_functions() {
    let results = results();
    let shown = print_all(&results, true, None, false, false, &vec![]).unwrap();
    let at = results.position("_Z1gv").unwrap();
    let one =
        print_func("_Z1gv", results.value(at), true, None, false, false, &vec![]).unwrap();
    assert_eq!(shown, one);
    let all = print_all(&results, false, None, false, false, &vec![]).unwrap();
    assert!(all.find("_Z1gv").unwrap() < all.find("\u{b7}f)").unwrap());
    assert!(print_all(&results, false, Some("*"), true, false, &vec![]).is_err());
}

#[test]
fn texts() {
    assert!(same_text("\u{e4}", "\u{e4}"));
    assert!(!same_text("a", "ab"));
    assert!(starts_with("abc", "ab"));
    assert!(!starts_with("a", "ab"));
    assert!(ends_with("abc", "bc"));
    assert!(!ends_with("abc", "b"));
    assert_eq!(strip_prefix("abc", "ab"), Some("c"));
    assert_eq!(strip_suffix("abc", "bc"), Some("a"));
    assert_eq!(strip_suffix("abc", "x"), None);
    assert_eq!(split_first("a-b-c", "-"), Some(("a", "b-c")));
    assert_eq!(split_first("\u{e4}\u{f6}\u{fc}", "\u{f6}"), Some(("\u{e4}", "\u{fc}")));
    assert_eq!(split_first("abc", "-"), None);
    assert!(contains_text("abc", "b"));
    assert!(!contains_text("abc", "d"));
    assert!(is_blank_text(" \t\u{a0}"));
    assert!(!is_blank_text(" x "));
    assert_eq!(trim_text(" \u{2003}x y\t"), "x y");
    assert_eq!(lines_of("a\r\nb\n\nc\r"), vec!["a", "b", "", "c\r"]);
    assert_eq!(lines_of("a\n"), vec!["a"]);
    assert_eq!(lines_of(""), Vec::<&str>::new());
    assert_eq!(join_text(&vec!["a".to_string(), "b".to_string()], ", "), "a, b");
    assert_eq!(join_text(&vec![], ", "), "");
}
