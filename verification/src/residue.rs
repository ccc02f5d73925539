//! What the filters leave of lines that are simple enough to tell.
use crate::dump::text_of_lines;
use crate::filter::{
    any_of, debug_inline_filters, debug_line_filters, filter_pattern, inline_filters, line_filters,
    metadata_inline_filters,
};
use crate::text::{contains, is_blank};
use vstd::prelude::*;
use vstd::string::*;

verus! {

/// One filter as a part of a pattern.
pub open spec fn one_filter(filter: Seq<char>) -> Seq<char> {
    "(?:"@ + filter + ")"@
}

/// Some filters and one more as a part of a pattern.
pub open spec fn or_filter(filters: Seq<char>, filter: Seq<char>) -> Seq<char> {
    filters + "|"@ + one_filter(filter)
}

/// The filters for whole lines as a part of a pattern.
pub open spec fn line_part(debug_info: bool) -> Seq<char> {
    let first = one_filter(r"; ModuleID = '.+'"@);
    let second = or_filter(
        first,
        r"(source_filename|target datalayout|target triple) = '.+'"@,
    );
    let third = or_filter(second, r"; Function Attrs: .+"@);
    let fourth = or_filter(third, r"declare .+"@);
    let fifth = or_filter(fourth, r"attributes #\d+ = \{ .+ \}"@);
    if debug_info {
        let sixth = or_filter(fifth, r"\s+(tail\s)?call void @llvm\.dbg.+"@);
        let seventh = or_filter(sixth, r"[ \t]+DBG_.+"@);
        let eighth = or_filter(
            seventh,
            r"(!\d+) = (?:distinct )?!DI([A-Za-z]+)\(([^)]+?)\).*"@,
        );
        let ninth = or_filter(eighth, r"(!\d+) = (?:distinct )?!\{.*\}.*"@);
        or_filter(ninth, r"(![.A-Z_a-z-]+) = (?:distinct )?!\{.*\}.*"@)
    } else {
        fifth
    }
}

/// The filters for parts of lines as a part of a pattern.
pub open spec fn inline_part(debug_info: bool, ir_metadata: bool) -> Seq<char> {
    let first = one_filter(r"(?m),? #\d+( \{)?$"@);
    let with_debug = if debug_info {
        or_filter(or_filter(first, r",? !dbg !\d+"@), r",? debug-location !\d+"@)
    } else {
        first
    };
    if ir_metadata {
        or_filter(with_debug, r",?(?: ![\d.A-Za-z]+){2}"@)
    } else {
        with_debug
    }
}

/// The pattern by which a dump is filtered.
pub open spec fn filter_source(debug_info: bool, ir_metadata: bool) -> Seq<char> {
    "(:?"@ + (r"(?m)^(:?"@ + line_part(debug_info) + r")(?:\r\n|\n|\r)"@) + ")|(:?"@ + inline_part(
        debug_info,
        ir_metadata,
    ) + ")"@
}

/// Text within a line.
pub open spec fn is_within_line(text: Seq<char>) -> bool {
    !text.contains('\n') && !text.contains('\r')
}

/// Some text within a line.
pub open spec fn is_some_text(text: Seq<char>) -> bool {
    text.len() > 0 && is_within_line(text)
}

/// A decimal number of any length.
pub open spec fn is_number(text: Seq<char>) -> bool {
    text.len() > 0 && forall|i: int| 0 <= i < text.len() ==> '0' <= #[trigger] text[i] <= '9'
}

/// A letter of ASCII.
pub open spec fn is_letter(c: char) -> bool {
    'A' <= c <= 'Z' || 'a' <= c <= 'z'
}

/// Letters of ASCII.
pub open spec fn is_word(text: Seq<char>) -> bool {
    text.len() > 0 && forall|i: int| 0 <= i < text.len() ==> is_letter(#[trigger] text[i])
}

/// What a reference to metadata consists of.
pub open spec fn is_reference(text: Seq<char>) -> bool {
    text.len() > 0 && forall|i: int|
        0 <= i < text.len() ==> {
            ||| is_letter(#[trigger] text[i])
            ||| '0' <= text[i] <= '9'
            ||| text[i] == '.'
        }
}

/// What the name of metadata consists of.
pub open spec fn is_metadata_name(text: Seq<char>) -> bool {
    text.len() > 0 && forall|i: int|
        0 <= i < text.len() ==> {
            ||| is_letter(#[trigger] text[i])
            ||| text[i] == '.'
            ||| text[i] == '_'
            ||| text[i] == '-'
        }
}

/// What a line is indented by.
pub open spec fn is_indent(text: Seq<char>) -> bool {
    text.len() > 0 && forall|i: int|
        0 <= i < text.len() ==> (#[trigger] text[i] == ' ' || text[i] == '\t')
}

/// The text has something in it without which no filter finds anything.
pub open spec fn has_filter_mark(text: Seq<char>, debug_info: bool, ir_metadata: bool) -> bool {
    ||| contains(text, " = '"@)
    ||| contains(text, "; Function Attrs: "@)
    ||| contains(text, "declare "@)
    ||| text.contains('#')
    ||| debug_info && (contains(text, "call void @llvm.dbg"@) || contains(text, "DBG_"@))
    ||| (debug_info || ir_metadata) && text.contains('!')
}

/// A line in which there is nothing to take out.
pub open spec fn is_kept_line(line: Seq<char>, debug_info: bool, ir_metadata: bool) -> bool {
    &&& is_within_line(line)
    &&& !has_filter_mark(line, debug_info, ir_metadata)
    &&& debug_info ==> !is_blank(line)
}

/// What is taken out at the end of a line, from the space in front of it on: the number of an
/// attribute group, with or without a bracket behind it; a reference to debug information; a
/// location; or two references to metadata.
pub open spec fn is_line_end(end: Seq<char>, debug_info: bool, ir_metadata: bool) -> bool {
    ||| exists|number: Seq<char>| #[trigger]
        is_number(number) && (end == " #"@ + number || end == " #"@ + number + " {"@)
    ||| (debug_info || ir_metadata) && exists|number: Seq<char>| #[trigger]
        is_number(number) && end == " !dbg !"@ + number
    ||| debug_info && exists|number: Seq<char>| #[trigger]
        is_number(number) && end == " debug-location !"@ + number
    ||| ir_metadata && exists|first: Seq<char>, second: Seq<char>| #[trigger]
        is_reference(first) && first != "dbg"@ && #[trigger] is_reference(second) && end == " !"@
            + first + " !"@ + second
}

/// A line that ends in what is taken out, with or without a comma in front of that. There is
/// nothing else to take out in it.
pub open spec fn is_shortened_line(
    line: Seq<char>,
    kept: Seq<char>,
    debug_info: bool,
    ir_metadata: bool,
) -> bool {
    &&& is_within_line(kept)
    &&& !is_blank(kept)
    &&& !has_filter_mark(kept + " "@, debug_info, ir_metadata)
    &&& !contains(kept, "debug-location"@)
    &&& kept.last() != ':'
    &&& kept.last() != ','
    &&& exists|end: Seq<char>| #[trigger]
        is_line_end(end, debug_info, ir_metadata) && (line == kept + end || line == kept + ","@
            + end)
}

/// What stands behind the name of metadata in a line that defines it.
pub open spec fn is_metadata_node(text: Seq<char>) -> bool {
    exists|inner: Seq<char>, rest: Seq<char>| #[trigger]
        is_within_line(inner) && #[trigger] is_within_line(rest) && (text == " = !{"@ + inner + "}"@
            + rest || text == " = distinct !{"@ + inner + "}"@ + rest)
}

/// What stands behind the number of debug information in a line that defines it.
pub open spec fn is_debug_node(text: Seq<char>) -> bool {
    exists|kind: Seq<char>, inner: Seq<char>, rest: Seq<char>| #[trigger]
        is_word(kind) && #[trigger] is_some_text(inner) && !inner.contains(')')
            && #[trigger] is_within_line(rest) && (text == " = !DI"@ + kind + "("@ + inner + ")"@
            + rest || text == " = distinct !DI"@ + kind + "("@ + inner + ")"@ + rest)
}

/// A line that is taken out as a whole: the name of the module or of its source, its layout, the
/// attributes of a function, a declaration, or an attribute group.
pub open spec fn is_dropped_line(line: Seq<char>) -> bool {
    exists|text: Seq<char>| #[trigger]
        is_some_text(text) && {
            ||| line == "; ModuleID = '"@ + text + "'"@
            ||| line == "source_filename = '"@ + text + "'"@
            ||| line == "target datalayout = '"@ + text + "'"@
            ||| line == "target triple = '"@ + text + "'"@
            ||| line == "; Function Attrs: "@ + text
            ||| line == "declare "@ + text
            ||| exists|number: Seq<char>| #[trigger]
                is_number(number) && line == "attributes #"@ + number + " = { "@ + text + " }"@
        }
}

/// A line of debug information that is taken out as a whole: a call or an instruction for the
/// debugger, or a line that defines debug information or metadata.
pub open spec fn is_dropped_debug_line(line: Seq<char>) -> bool {
    ||| exists|indent: Seq<char>, text: Seq<char>| #[trigger]
        is_indent(indent) && #[trigger] is_some_text(text) && {
            ||| line == indent + "call void @llvm.dbg"@ + text
            ||| line == indent + "tail call void @llvm.dbg"@ + text
            ||| line == indent + "DBG_"@ + text
        }
    ||| exists|number: Seq<char>, node: Seq<char>| #[trigger]
        is_number(number) && (#[trigger] is_debug_node(node) || is_metadata_node(node)) && line
            == "!"@ + number + node
    ||| exists|name: Seq<char>, node: Seq<char>| #[trigger]
        is_metadata_name(name) && #[trigger] is_metadata_node(node) && line == "!"@ + name + node
}

/// What is left of a line, if anything is.
pub open spec fn leaves(
    line: Seq<char>,
    left: Option<Seq<char>>,
    debug_info: bool,
    ir_metadata: bool,
) -> bool {
    match left {
        Some(kept) => {
            ||| kept == line && is_kept_line(line, debug_info, ir_metadata)
            ||| is_shortened_line(line, kept, debug_info, ir_metadata)
        },
        None => is_dropped_line(line) || debug_info && is_dropped_debug_line(line),
    }
}

/// What is left of some lines, and of the text behind the last line feed.
pub open spec fn leaves_all(
    all: Seq<Seq<char>>,
    left: Seq<Option<Seq<char>>>,
    last: Seq<char>,
    kept: Seq<char>,
    debug_info: bool,
    ir_metadata: bool,
) -> bool {
    &&& left.len() == all.len()
    &&& forall|i: int|
        0 <= i < all.len() ==> leaves(#[trigger] all[i], left[i], debug_info, ir_metadata)
    &&& last.len() == 0 && kept.len() == 0 || leaves(last, Some(kept), debug_info, ir_metadata)
}

/// The text that is left of lines.
pub open spec fn left_text(left: Seq<Option<Seq<char>>>) -> Seq<char>
    decreases left.len(),
{
    if left.len() == 0 {
        Seq::empty()
    } else {
        match left.last() {
            Some(kept) => left_text(left.drop_last()) + kept + "\n"@,
            None => left_text(left.drop_last()),
        }
    }
}

/// What is left of a text whose lines leave what they leave, each by itself.
pub open spec fn is_left(
    text: Seq<char>,
    filtered: Seq<char>,
    debug_info: bool,
    ir_metadata: bool,
) -> bool {
    forall|
        all: Seq<Seq<char>>,
        left: Seq<Option<Seq<char>>>,
        last: Seq<char>,
        kept: Seq<char>,
    | #[trigger]
        leaves_all(all, left, last, kept, debug_info, ir_metadata) && text == text_of_lines(all)
            + last ==> filtered == left_text(left) + kept
}

/// One more filter in a list is one more filter in the pattern.
proof fn lemma_any_of_push(filters: Seq<Seq<char>>, filter: Seq<char>)
    ensures
        filters.len() == 0 ==> any_of(filters.push(filter)) == one_filter(filter),
        filters.len() > 0 ==> any_of(filters.push(filter)) == or_filter(any_of(filters), filter),
{
    let wrap = |filter: Seq<char>| "(?:"@ + filter + ")"@;
    let pieces = filters.push(filter).map_values(wrap);
    assert(pieces.drop_last() =~= filters.map_values(wrap));
    assert(pieces.last() == one_filter(filter));
}

/// The filters for whole lines are those of the pattern.
proof fn lemma_line_part(debug_info: bool)
    ensures
        any_of(
            if debug_info {
                line_filters() + debug_line_filters()
            } else {
                line_filters()
            },
        ) == line_part(debug_info),
{
    let none = Seq::<Seq<char>>::empty();
    let l1 = r"; ModuleID = '.+'"@;
    let l2 = r"(source_filename|target datalayout|target triple) = '.+'"@;
    let l3 = r"; Function Attrs: .+"@;
    let l4 = r"declare .+"@;
    let l5 = r"attributes #\d+ = \{ .+ \}"@;
    lemma_any_of_push(none, l1);
    lemma_any_of_push(none.push(l1), l2);
    lemma_any_of_push(none.push(l1).push(l2), l3);
    lemma_any_of_push(none.push(l1).push(l2).push(l3), l4);
    let four = none.push(l1).push(l2).push(l3).push(l4);
    lemma_any_of_push(four, l5);
    let five = four.push(l5);
    assert(line_filters() =~= five);
    if debug_info {
        let l6 = r"\s+(tail\s)?call void @llvm\.dbg.+"@;
        let l7 = r"[ \t]+DBG_.+"@;
        let l8 = r"(!\d+) = (?:distinct )?!DI([A-Za-z]+)\(([^)]+?)\).*"@;
        let l9 = r"(!\d+) = (?:distinct )?!\{.*\}.*"@;
        let l10 = r"(![.A-Z_a-z-]+) = (?:distinct )?!\{.*\}.*"@;
        lemma_any_of_push(five, l6);
        lemma_any_of_push(five.push(l6), l7);
        lemma_any_of_push(five.push(l6).push(l7), l8);
        lemma_any_of_push(five.push(l6).push(l7).push(l8), l9);
        lemma_any_of_push(five.push(l6).push(l7).push(l8).push(l9), l10);
        assert(line_filters() + debug_line_filters() =~= five.push(l6).push(l7).push(l8).push(
            l9,
        ).push(l10));
    }
}

/// The filters for parts of lines are those of the pattern.
proof fn lemma_inline_part(debug_info: bool, ir_metadata: bool)
    ensures
        ({
            let with_debug = if debug_info {
                inline_filters() + debug_inline_filters()
            } else {
                inline_filters()
            };
            any_of(
                if ir_metadata {
                    with_debug + metadata_inline_filters()
                } else {
                    with_debug
                },
            )
        }) == inline_part(debug_info, ir_metadata),
{
    let none = Seq::<Seq<char>>::empty();
    let p1 = r"(?m),? #\d+( \{)?$"@;
    let p2 = r",? !dbg !\d+"@;
    let p3 = r",? debug-location !\d+"@;
    let p4 = r",?(?: ![\d.A-Za-z]+){2}"@;
    let one = none.push(p1);
    lemma_any_of_push(none, p1);
    assert(inline_filters() =~= one);
    let with_debug = if debug_info {
        one.push(p2).push(p3)
    } else {
        one
    };
    if debug_info {
        lemma_any_of_push(one, p2);
        lemma_any_of_push(one.push(p2), p3);
        assert(inline_filters() + debug_inline_filters() =~= with_debug);
    }
    if ir_metadata {
        lemma_any_of_push(with_debug, p4);
        assert(with_debug + metadata_inline_filters() =~= with_debug.push(p4));
    }
}

/// The pattern that is built from the lists of filters is the one by which a dump is filtered.
pub proof fn lemma_filter_source(debug_info: bool, ir_metadata: bool)
    ensures
        filter_pattern(debug_info, ir_metadata) == filter_source(debug_info, ir_metadata),
{
    lemma_line_part(debug_info);
    lemma_inline_part(debug_info, ir_metadata);
}

/// A line that ends in a reference to debug information, of any number of digits, is left without
/// it and without the comma in front of it, where there is nothing else to take out.
pub proof fn lemma_debug_reference_goes(kept: Seq<char>, number: Seq<char>, ir_metadata: bool)
    requires
        is_kept_line(kept + " "@, true, ir_metadata),
        !is_blank(kept),
        is_within_line(kept),
        !contains(kept, "debug-location"@),
        kept.last() != ':',
        kept.last() != ',',
        is_number(number),
    ensures
        leaves(kept + ", !dbg !"@ + number, Some(kept), true, ir_metadata),
        leaves(kept + " !dbg !"@ + number, Some(kept), true, ir_metadata),
        leaves(kept + ", debug-location !"@ + number, Some(kept), true, ir_metadata),
        leaves(kept + " #"@ + number + " {"@, Some(kept), true, ir_metadata),
        leaves(kept + " #"@ + number, Some(kept), true, ir_metadata),
{
    reveal_strlit(", !dbg !");
    reveal_strlit(" !dbg !");
    reveal_strlit(", debug-location !");
    reveal_strlit(" debug-location !");
    reveal_strlit(",");
    let first = " !dbg !"@ + number;
    let second = " debug-location !"@ + number;
    let third = " #"@ + number;
    let fourth = " #"@ + number + " {"@;
    assert(is_line_end(first, true, ir_metadata));
    assert(is_line_end(second, true, ir_metadata));
    assert(is_line_end(third, true, ir_metadata));
    assert(is_line_end(fourth, true, ir_metadata));
    assert(", !dbg !"@ =~= ","@ + " !dbg !"@);
    assert(", debug-location !"@ =~= ","@ + " debug-location !"@);
    assert(kept + ", !dbg !"@ + number =~= kept + ","@ + first);
    assert(kept + " !dbg !"@ + number =~= kept + first);
    assert(kept + ", debug-location !"@ + number =~= kept + ","@ + second);
    assert(kept + " #"@ + number + " {"@ =~= kept + fourth);
    assert(kept + " #"@ + number =~= kept + third);
}

} // verus!
