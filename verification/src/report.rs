//! Shows what the passes of a function have changed.
use crate::demangle::{demangle_text, demangled_text, lemma_shown_as_written, written};
use crate::passes::{function_passes, pass_models, OptPipelineResults, Pass, PassModel};
use crate::pattern::{is_error_of, matches_pattern, pattern_found, regex_compiles, PatternError};
use crate::select::{function_order, name_order};
use crate::text::{same_text, str_text};
use similar::TextDiff;
use vstd::prelude::*;
use vstd::string::*;
use vstd::utf8::encode_utf8;

verus! {

/// How many lines are shown around a change.
pub const CONTEXT_RADIUS: usize = 10;

/// The unified diff of two texts, with some lines around each change: what
/// `TextDiff::from_lines(..).unified_diff().context_radius(..)` displays.
pub uninterp spec fn unified_diff(before: Seq<char>, after: Seq<char>, radius: nat) -> Seq<char>;

/// Diffs two texts by `TextDiff::from_lines` and formats the changes by `unified_diff`, with a
/// context of `radius` lines, twice as many of which must fit in a `usize`. Two equal texts have
/// no changes to format.
#[verifier::external_body]
fn diff_lines(before: &str, after: &str, radius: usize) -> (res: String)
    requires
        radius <= usize::MAX / 2,
    ensures
        res@ == unified_diff(before@, after@, radius as nat),
        before@ == after@ ==> res@.len() == 0,
{
    TextDiff::from_lines(before, after).unified_diff().context_radius(radius).to_string()
}

/// What the demangler has written for a pass.
pub struct DemangledPass {
    pub name: Option<Vec<u8>>,
    pub before: Option<Vec<u8>>,
    pub after: Option<Vec<u8>>,
}

/// The digit for a number below ten.
pub open spec fn digit(n: nat) -> Seq<char> {
    "0123456789"@.subrange(n as int, n as int + 1)
}

/// A number in decimal notation.
pub open spec fn decimal(n: nat) -> Seq<char>
    decreases n,
{
    if n < 10 {
        digit(n)
    } else {
        decimal(n / 10) + digit(n % 10)
    }
}

/// Writes a number in decimal notation.
pub fn decimal_text(n: usize) -> (res: String)
    ensures
        res@ == decimal(n as nat),
    decreases n,
{
    let digits = "0123456789";
    proof {
        reveal_strlit("0123456789");
    }
    if n < 10 {
        digits.substring_char(n, n + 1).to_string()
    } else {
        let mut res = decimal_text(n / 10);
        res.append(digits.substring_char(n % 10, n % 10 + 1));
        res
    }
}

/// The title of a pass: its number among the passes of its function, the function and its name.
pub open spec fn pass_title(number: nat, func_name: Seq<char>, pass_name: Seq<char>) -> Seq<char> {
    "("@ + decimal(number) + "\u{b7}"@ + func_name + ") "@ + pass_name
}

/// What is shown of a pass: its title in the three lines that open the diff of a file, and the
/// diff.
pub open spec fn pass_section(
    number: nat,
    func_name: Seq<char>,
    pass_name: Seq<char>,
    diff: Seq<char>,
) -> Seq<char> {
    let title = pass_title(number, func_name, pass_name);
    "diff --git a/"@ + title + " b/"@ + title + "\n--- a/"@ + title + "\n+++ b/"@ + title + "\n"@
        + diff + "\n"@
}

/// Writes what is shown of a pass.
pub fn write_section(number: usize, func_name: &str, pass_name: &str, diff: &str) -> (res: String)
    ensures
        res@ == pass_section(number as nat, func_name@, pass_name@, diff@),
{
    let mut title = "(".to_string();
    title.append(decimal_text(number).as_str());
    title.append("\u{b7}");
    title.append(func_name);
    title.append(") ");
    title.append(pass_name);
    let mut res = "diff --git a/".to_string();
    res.append(title.as_str());
    res.append(" b/");
    res.append(title.as_str());
    res.append("\n--- a/");
    res.append(title.as_str());
    res.append("\n+++ b/");
    res.append(title.as_str());
    res.append("\n");
    res.append(diff);
    res.append("\n");
    res
}

/// What the user asks to see of the passes of a function.
pub struct ReportModel {
    pub func_name: Seq<char>,
    pub skip_unchanged: bool,
    pub pass_filter: Option<Seq<char>>,
    pub use_regex: bool,
    pub should_demangle: bool,
}

/// The name of a pass as it is shown.
pub open spec fn shown_name(
    request: ReportModel,
    pass: PassModel,
    outcomes: Seq<DemangledPass>,
    i: int,
) -> Seq<char> {
    demangled_text(
        pass.name,
        request.should_demangle,
        if 0 <= i < outcomes.len() {
            written(outcomes[i].name)
        } else {
            None
        },
    )
}

/// The function before a pass as it is shown.
pub open spec fn shown_before(
    request: ReportModel,
    pass: PassModel,
    outcomes: Seq<DemangledPass>,
    i: int,
) -> Seq<char> {
    demangled_text(
        pass.before,
        request.should_demangle,
        if 0 <= i < outcomes.len() {
            written(outcomes[i].before)
        } else {
            None
        },
    )
}

/// The function after a pass as it is shown.
pub open spec fn shown_after(
    request: ReportModel,
    pass: PassModel,
    outcomes: Seq<DemangledPass>,
    i: int,
) -> Seq<char> {
    demangled_text(
        pass.after,
        request.should_demangle,
        if 0 <= i < outcomes.len() {
            written(outcomes[i].after)
        } else {
            None
        },
    )
}

/// Whether a pass is shown: its name must pass the filter, and where unchanged passes are skipped
/// it must have changed the function. It is `None` where the filter is no regular expression.
pub open spec fn is_shown(
    request: ReportModel,
    pass: PassModel,
    outcomes: Seq<DemangledPass>,
    i: int,
) -> Option<bool> {
    let changed = !(request.skip_unchanged && pass.before == pass.after);
    match request.pass_filter {
        Some(filter) => match pattern_found(
            shown_name(request, pass, outcomes, i),
            filter,
            request.use_regex,
        ) {
            Some(found) => Some(found && changed),
            None => None,
        },
        None => Some(changed),
    }
}

/// What is shown of the pass at a position, if it is shown.
pub open spec fn section(
    request: ReportModel,
    pass: PassModel,
    outcomes: Seq<DemangledPass>,
    i: int,
) -> Seq<char> {
    pass_section(
        (i + 1) as nat,
        request.func_name,
        pass.name,
        unified_diff(
            shown_before(request, pass, outcomes, i) + "\n"@,
            shown_after(request, pass, outcomes, i) + "\n"@,
            CONTEXT_RADIUS as nat,
        ),
    )
}

/// What is shown of the first `count` passes of a function.
/// It is `None` where the filter is no regular expression and there is a pass to hold against it.
pub open spec fn report(
    request: ReportModel,
    pipeline: Seq<PassModel>,
    outcomes: Seq<DemangledPass>,
    count: int,
) -> Option<Seq<char>>
    decreases count,
{
    if count <= 0 {
        Some(Seq::empty())
    } else {
        let i = count - 1;
        match (
            report(request, pipeline, outcomes, i),
            is_shown(request, pipeline[i], outcomes, i),
        ) {
            (Some(before), Some(true)) => Some(before + section(request, pipeline[i], outcomes, i)),
            (Some(before), Some(false)) => Some(before),
            _ => None,
        }
    }
}

/// Writes what is shown of the passes of a function. `demangled` is what the demangler has written
/// for each of them, where it was run.
pub fn print_func(
    func_name: &str,
    pipeline: &Vec<Pass>,
    skip_unchanged: bool,
    pass_filter: Option<&str>,
    use_regex: bool,
    should_demangle: bool,
    demangled: &Vec<DemangledPass>,
) -> (res: Result<String, PatternError>)
    ensures
        ({
            let request = ReportModel {
                func_name: func_name@,
                skip_unchanged,
                pass_filter: str_text(pass_filter),
                use_regex,
                should_demangle,
            };
            let shown = report(
                request,
                pass_models(pipeline@),
                demangled@,
                pipeline@.len() as int,
            );
            match res {
                Ok(text) => shown == Some(text@),
                Err(error) => {
                    &&& shown is None
                    &&& request.pass_filter is Some
                    &&& is_error_of(error, request.pass_filter->0)
                },
            }
        }),
{
    let ghost request = ReportModel {
        func_name: func_name@,
        skip_unchanged,
        pass_filter: str_text(pass_filter),
        use_regex,
        should_demangle,
    };
    let ghost passes = pass_models(pipeline@);
    let mut res = String::new();
    let mut i: usize = 0;
    while i < pipeline.len()
        invariant
            request == (ReportModel {
                func_name: func_name@,
                skip_unchanged,
                pass_filter: str_text(pass_filter),
                use_regex,
                should_demangle,
            }),
            passes == pass_models(pipeline@),
            i <= pipeline@.len(),
            report(request, passes, demangled@, i as int) == Some(res@),
        decreases pipeline@.len() - i,
    {
        let pass = &pipeline[i];
        assert(passes[i as int] == pass@);
        let mut shown = true;
        if let Some(filter) = pass_filter {
            let name = if i < demangled.len() {
                demangle_text(pass.name.as_str(), should_demangle, &demangled[i].name)
            } else {
                demangle_text(pass.name.as_str(), should_demangle, &None)
            };
            match matches_pattern(name.as_str(), filter, use_regex) {
                Ok(found) => {
                    shown = found;
                },
                Err(error) => {
                    proof {
                        lemma_report_fails(
                            request,
                            passes,
                            demangled@,
                            i + 1,
                            pipeline@.len() as int,
                        );
                    }
                    return Err(error);
                },
            }
        }
        if shown && !(skip_unchanged && same_text(pass.before.as_str(), pass.after.as_str())) {
            let (mut before, mut after) = if i < demangled.len() {
                (
                    demangle_text(pass.before.as_str(), should_demangle, &demangled[i].before),
                    demangle_text(pass.after.as_str(), should_demangle, &demangled[i].after),
                )
            } else {
                (
                    demangle_text(pass.before.as_str(), should_demangle, &None),
                    demangle_text(pass.after.as_str(), should_demangle, &None),
                )
            };
            before.append("\n");
            after.append("\n");
            let diff = diff_lines(before.as_str(), after.as_str(), CONTEXT_RADIUS);
            let text = write_section(i + 1, func_name, pass.name.as_str(), diff.as_str());
            res.append(text.as_str());
        }
        i += 1;
    }
    Ok(res)
}

/// A filter that fails on one pass fails on the whole function.
proof fn lemma_report_fails(
    request: ReportModel,
    pipeline: Seq<PassModel>,
    outcomes: Seq<DemangledPass>,
    count: int,
    more: int,
)
    requires
        count <= more,
        report(request, pipeline, outcomes, count) is None,
    ensures
        report(request, pipeline, outcomes, more) is None,
    decreases more - count,
{
    if count < more {
        lemma_report_fails(request, pipeline, outcomes, count, more - 1);
    }
}

/// What the demangler has written for the passes of the function at a position.
pub open spec fn outcomes_at(demangled: Seq<Vec<DemangledPass>>, i: int) -> Seq<DemangledPass> {
    if 0 <= i < demangled.len() {
        demangled[i]@
    } else {
        Seq::empty()
    }
}

/// What is shown of the function at a position.
pub open spec fn function_report(
    request: ReportModel,
    entries: Seq<(Seq<char>, Seq<PassModel>)>,
    demangled: Seq<Vec<DemangledPass>>,
    i: int,
) -> Option<Seq<char>> {
    report(
        ReportModel { func_name: entries[i].0, ..request },
        entries[i].1,
        outcomes_at(demangled, i),
        entries[i].1.len() as int,
    )
}

/// What is shown of the first `count` functions in `order`.
pub open spec fn report_all(
    request: ReportModel,
    entries: Seq<(Seq<char>, Seq<PassModel>)>,
    demangled: Seq<Vec<DemangledPass>>,
    order: Seq<usize>,
    count: int,
) -> Option<Seq<char>>
    decreases count,
{
    if count <= 0 {
        Some(Seq::empty())
    } else {
        match (
            report_all(request, entries, demangled, order, count - 1),
            function_report(request, entries, demangled, order[count - 1] as int),
        ) {
            (Some(before), Some(last)) => Some(before + last),
            _ => None,
        }
    }
}

/// A filter that fails on one function fails on all functions.
proof fn lemma_report_all_fails(
    request: ReportModel,
    entries: Seq<(Seq<char>, Seq<PassModel>)>,
    demangled: Seq<Vec<DemangledPass>>,
    order: Seq<usize>,
    count: int,
    more: int,
)
    requires
        count <= more,
        report_all(request, entries, demangled, order, count) is None,
    ensures
        report_all(request, entries, demangled, order, more) is None,
    decreases more - count,
{
    if count < more {
        lemma_report_all_fails(request, entries, demangled, order, count, more - 1);
    }
}

/// What the user asks to see of the passes of all functions, but for the names of the functions.
pub open spec fn request_for_all(
    skip_unchanged: bool,
    pass_filter: Option<&str>,
    use_regex: bool,
    should_demangle: bool,
) -> ReportModel {
    ReportModel {
        func_name: Seq::empty(),
        skip_unchanged,
        pass_filter: str_text(pass_filter),
        use_regex,
        should_demangle,
    }
}

/// Writes what is shown of the passes of all functions, in the order of the functions' names.
/// `demangled` is what the demangler has written for the passes of each function, where it was
/// run.
pub fn print_all(
    results: &OptPipelineResults,
    skip_unchanged: bool,
    pass_filter: Option<&str>,
    use_regex: bool,
    should_demangle: bool,
    demangled: &Vec<Vec<DemangledPass>>,
) -> (res: Result<String, PatternError>)
    ensures
        ({
            let request = request_for_all(skip_unchanged, pass_filter, use_regex, should_demangle);
            let shown = report_all(
                request,
                function_passes(results@),
                demangled@,
                name_order(results@),
                results@.len() as int,
            );
            match res {
                Ok(text) => shown == Some(text@),
                Err(error) => {
                    &&& shown is None
                    &&& request.pass_filter is Some
                    &&& is_error_of(error, request.pass_filter->0)
                },
            }
        }),
{
    let ghost request = request_for_all(skip_unchanged, pass_filter, use_regex, should_demangle);
    let ghost entries = function_passes(results@);
    let order = function_order(results);
    let none: Vec<DemangledPass> = Vec::new();
    let mut res = String::new();
    let mut i: usize = 0;
    proof {
        assert forall|j: int| 0 <= j < order@.len() implies (#[trigger] order@[j])
            < results@.len() by {
            assert(order@.contains(order@[j]));
        }
    }
    while i < order.len()
        invariant
            request == request_for_all(skip_unchanged, pass_filter, use_regex, should_demangle),
            entries == function_passes(results@),
            order@ == name_order(results@),
            order@.len() == results@.len(),
            forall|j: int| 0 <= j < order@.len() ==> (#[trigger] order@[j]) < results@.len(),
            none@.len() == 0,
            i <= order@.len(),
            report_all(request, entries, demangled@, order@, i as int) == Some(res@),
        decreases order@.len() - i,
    {
        let at: usize = order[i];
        assert(entries[at as int] == (results@[at as int].0, pass_models(results@[at as int].1@)));
        let passes = if at < demangled.len() {
            &demangled[at]
        } else {
            &none
        };
        assert(passes@ =~= outcomes_at(demangled@, at as int));
        match print_func(
            results.name(at),
            results.value(at),
            skip_unchanged,
            pass_filter,
            use_regex,
            should_demangle,
            passes,
        ) {
            Ok(text) => {
                res.append(text.as_str());
            },
            Err(error) => {
                proof {
                    lemma_report_all_fails(
                        request,
                        entries,
                        demangled@,
                        order@,
                        i + 1,
                        order@.len() as int,
                    );
                }
                return Err(error);
            },
        }
        i += 1;
    }
    Ok(res)
}

/// The report of a function fails if and only if it has passes, and the filter they are held
/// against should be a regular expression and is none.
pub proof fn lemma_report_fails_on_filter(
    request: ReportModel,
    pipeline: Seq<PassModel>,
    outcomes: Seq<DemangledPass>,
    count: int,
)
    ensures
        report(request, pipeline, outcomes, count) is None <==> {
            &&& count > 0
            &&& request.use_regex
            &&& request.pass_filter is Some
            &&& !regex_compiles(request.pass_filter->0)
        },
    decreases count,
{
    if count > 0 {
        lemma_report_fails_on_filter(request, pipeline, outcomes, count - 1);
    }
}

/// Where unchanged passes are skipped and no filter is given, the passes that have changed their
/// function are shown, and no others.
pub proof fn lemma_unchanged_skipped(
    request: ReportModel,
    pass: PassModel,
    outcomes: Seq<DemangledPass>,
    i: int,
)
    requires
        request.skip_unchanged,
        request.pass_filter is None,
        pass.ir_changed == (pass.before != pass.after),
    ensures
        is_shown(request, pass, outcomes, i) == Some(pass.ir_changed),
{
}

/// A pass that is shown has a name that the filter is found in, and has changed its function where
/// unchanged passes are skipped.
pub proof fn lemma_shown_passes(
    request: ReportModel,
    pass: PassModel,
    outcomes: Seq<DemangledPass>,
    i: int,
)
    requires
        is_shown(request, pass, outcomes, i) == Some(true),
    ensures
        request.pass_filter is Some ==> pattern_found(
            shown_name(request, pass, outcomes, i),
            request.pass_filter->0,
            request.use_regex,
        ) == Some(true),
        request.skip_unchanged ==> pass.before != pass.after,
{
}

/// Passes that are not shown leave no trace: where no pass is, nothing is written.
pub proof fn lemma_nothing_shown(
    request: ReportModel,
    pipeline: Seq<PassModel>,
    outcomes: Seq<DemangledPass>,
    count: int,
)
    requires
        count <= pipeline.len(),
        forall|i: int|
            0 <= i < pipeline.len() ==> is_shown(request, #[trigger] pipeline[i], outcomes, i)
                == Some(false),
    ensures
        report(request, pipeline, outcomes, count) == Some(Seq::<char>::empty()),
    decreases count,
{
    if count > 0 {
        lemma_nothing_shown(request, pipeline, outcomes, count - 1);
        assert(is_shown(request, pipeline[count - 1], outcomes, count - 1) == Some(false));
    }
}

/// Without demangling the demangler has no say in what is shown.
pub proof fn lemma_report_without_demangling(
    request: ReportModel,
    pipeline: Seq<PassModel>,
    outcomes: Seq<DemangledPass>,
    count: int,
)
    requires
        !request.should_demangle,
    ensures
        report(request, pipeline, outcomes, count) == report(
            request,
            pipeline,
            Seq::empty(),
            count,
        ),
    decreases count,
{
    if count > 0 {
        lemma_report_without_demangling(request, pipeline, outcomes, count - 1);
    }
}

/// The sections of the first `count` passes that are shown, without those of passes that have
/// changed nothing where `changed_only` asks for it. Each section keeps the number of its pass.
pub open spec fn sections(
    request: ReportModel,
    pipeline: Seq<PassModel>,
    outcomes: Seq<DemangledPass>,
    changed_only: bool,
    count: int,
) -> Seq<char>
    decreases count,
{
    if count <= 0 {
        Seq::empty()
    } else {
        let i = count - 1;
        let pass = pipeline[i];
        let before = sections(request, pipeline, outcomes, changed_only, i);
        if is_shown(request, pass, outcomes, i) == Some(true) && !(changed_only && pass.before
            == pass.after) {
            before + section(request, pass, outcomes, i)
        } else {
            before
        }
    }
}

/// The report without unchanged passes is the report with them, but for their sections: these are
/// left out, and all other sections stay as they are, with the numbers of their passes. The one
/// report fails if and only if the other does.
pub proof fn lemma_report_without_unchanged(
    request: ReportModel,
    pipeline: Seq<PassModel>,
    outcomes: Seq<DemangledPass>,
    count: int,
)
    requires
        !request.skip_unchanged,
    ensures
        ({
            let skipping = ReportModel { skip_unchanged: true, ..request };
            match report(request, pipeline, outcomes, count) {
                Some(text) => {
                    &&& text == sections(request, pipeline, outcomes, false, count)
                    &&& report(skipping, pipeline, outcomes, count) == Some(
                        sections(request, pipeline, outcomes, true, count),
                    )
                },
                None => report(skipping, pipeline, outcomes, count) is None,
            }
        }),
    decreases count,
{
    if count > 0 {
        lemma_report_without_unchanged(request, pipeline, outcomes, count - 1);
    }
}

/// A pass is shown if and only if the filter, where there is one, is found in its name, and it has
/// changed its function, where unchanged passes are skipped. Neither condition has a part in the
/// other: where unchanged passes are not skipped, a pass is shown whether or not it has changed
/// its function.
pub proof fn lemma_which_passes_are_shown(
    request: ReportModel,
    pass: PassModel,
    outcomes: Seq<DemangledPass>,
    i: int,
)
    ensures
        ({
            let name = shown_name(request, pass, outcomes, i);
            let found = match request.pass_filter {
                Some(filter) => pattern_found(name, filter, request.use_regex),
                None => Some(true),
            };
            let shown = is_shown(request, pass, outcomes, i);
            &&& shown is None <==> found is None
            &&& !request.skip_unchanged ==> shown == found
            &&& request.skip_unchanged && pass.before != pass.after ==> shown == found
            &&& request.skip_unchanged && pass.before == pass.after && found is Some ==> shown
                == Some(false)
        }),
{
}

/// The number that digits stand for.
pub open spec fn number_of(digits: Seq<char>) -> nat
    decreases digits.len(),
{
    if digits.len() == 0 {
        0
    } else {
        (10 * number_of(digits.drop_last()) + (digits.last() as int - '0' as int)) as nat
    }
}

/// A number is written in digits that stand for it, without a zero in front unless it is zero.
pub proof fn lemma_decimal_stands_for_number(n: nat)
    ensures
        decimal(n).len() > 0,
        forall|i: int| 0 <= i < decimal(n).len() ==> '0' <= #[trigger] decimal(n)[i] <= '9',
        number_of(decimal(n)) == n,
        n > 0 ==> decimal(n)[0] != '0',
        n == 0 ==> decimal(n) == seq!['0'],
    decreases n,
{
    reveal_strlit("0123456789");
    let last = digit(n % 10);
    assert(last.len() == 1);
    assert(last[0] as int == '0' as int + n % 10);
    if n < 10 {
        assert(n % 10 == n);
        assert(decimal(n).drop_last() =~= Seq::<char>::empty());
        assert(number_of(decimal(n).drop_last()) == 0);
        if n == 0 {
            assert(decimal(n) =~= seq!['0']);
        }
    } else {
        lemma_decimal_stands_for_number(n / 10);
        let head = decimal(n / 10);
        assert(decimal(n).drop_last() =~= head);
        assert(decimal(n).last() == last[0]);
        assert(decimal(n)[0] == head[0]);
        assert forall|i: int| 0 <= i < decimal(n).len() implies '0' <= #[trigger] decimal(n)[i]
            <= '9' by {
            if i < head.len() {
                assert(decimal(n)[i] == head[i]);
            }
        }
    }
}

/// What is shown of a pass: the line that names two files, one line for each of them, and the diff
/// with a line feed behind it. Both files are called by the number of the pass, counted from one,
/// the function and the pass. The diff is that of the function before and after the pass, with ten
/// lines around each change.
pub proof fn lemma_section_of_pass(
    request: ReportModel,
    pass: PassModel,
    outcomes: Seq<DemangledPass>,
    i: int,
)
    requires
        0 <= i,
    ensures
        ({
            let title = "("@ + decimal((i + 1) as nat) + seq!['\u{b7}'] + request.func_name + ") "@
                + pass.name;
            let feed = seq!['\n'];
            let before = shown_before(request, pass, outcomes, i) + feed;
            let after = shown_after(request, pass, outcomes, i) + feed;
            section(request, pass, outcomes, i) == ("diff --git a/"@ + title + " b/"@ + title
                + feed) + ("--- a/"@ + title + feed) + ("+++ b/"@ + title + feed) + (unified_diff(
                before,
                after,
                10,
            ) + feed)
        }),
{
    reveal_strlit("\n");
    reveal_strlit("\u{b7}");
    reveal_strlit("\n--- a/");
    reveal_strlit("--- a/");
    reveal_strlit("\n+++ b/");
    reveal_strlit("+++ b/");
    let feed = seq!['\n'];
    let title = "("@ + decimal((i + 1) as nat) + seq!['\u{b7}'] + request.func_name + ") "@
        + pass.name;
    assert("\n"@ =~= feed);
    assert("\u{b7}"@ =~= seq!['\u{b7}']);
    assert("\n--- a/"@ =~= feed + "--- a/"@);
    assert("\n+++ b/"@ =~= feed + "+++ b/"@);
    assert(title == pass_title((i + 1) as nat, request.func_name, pass.name));
    let before = shown_before(request, pass, outcomes, i) + feed;
    let after = shown_after(request, pass, outcomes, i) + feed;
    let diff = unified_diff(before, after, 10);
    assert(section(request, pass, outcomes, i) =~= ("diff --git a/"@ + title + " b/"@ + title
        + feed) + ("--- a/"@ + title + feed) + ("+++ b/"@ + title + feed) + (diff + feed));
}

/// The name of a pass, and the function before and after it, are shown as they are, unless they
/// are to be demangled and the demangler has written another text for them: each is then shown as
/// the text that was written for it.
pub proof fn lemma_texts_of_pass(
    request: ReportModel,
    pass: PassModel,
    outcomes: Seq<DemangledPass>,
    i: int,
    other: Seq<char>,
)
    requires
        0 <= i,
    ensures
        !request.should_demangle || i >= outcomes.len() ==> {
            &&& shown_name(request, pass, outcomes, i) == pass.name
            &&& shown_before(request, pass, outcomes, i) == pass.before
            &&& shown_after(request, pass, outcomes, i) == pass.after
        },
        request.should_demangle && i < outcomes.len() ==> {
            &&& outcomes[i].name is None ==> shown_name(request, pass, outcomes, i) == pass.name
            &&& outcomes[i].before is None ==> shown_before(request, pass, outcomes, i)
                == pass.before
            &&& outcomes[i].after is None ==> shown_after(request, pass, outcomes, i) == pass.after
            &&& written(outcomes[i].name) == Some(encode_utf8(other)) ==> shown_name(
                request,
                pass,
                outcomes,
                i,
            ) == other
            &&& written(outcomes[i].before) == Some(encode_utf8(other)) ==> shown_before(
                request,
                pass,
                outcomes,
                i,
            ) == other
            &&& written(outcomes[i].after) == Some(encode_utf8(other)) ==> shown_after(
                request,
                pass,
                outcomes,
                i,
            ) == other
        },
{
    lemma_shown_as_written(pass.name, other, None);
    lemma_shown_as_written(pass.before, other, None);
    lemma_shown_as_written(pass.after, other, None);
}

proof fn lemma_report_prefix(
    request: ReportModel,
    first: Seq<PassModel>,
    second: Seq<PassModel>,
    outcomes: Seq<DemangledPass>,
    count: int,
)
    requires
        forall|i: int| 0 <= i < count ==> first[i] == second[i],
    ensures
        report(request, first, outcomes, count) == report(request, second, outcomes, count),
    decreases count,
{
    if count > 0 {
        lemma_report_prefix(request, first, second, outcomes, count - 1);
    }
}

/// One more pass adds its section behind the sections of the passes before it, if it is shown, and
/// nothing if it is not. It has no influence on them.
pub proof fn lemma_report_of_one_more_pass(
    request: ReportModel,
    pipeline: Seq<PassModel>,
    pass: PassModel,
    outcomes: Seq<DemangledPass>,
)
    ensures
        ({
            let n = pipeline.len() as int;
            let before = report(request, pipeline, outcomes, n);
            let after = report(request, pipeline.push(pass), outcomes, n + 1);
            &&& report(request, Seq::empty(), outcomes, 0) == Some(Seq::<char>::empty())
            &&& after is None <==> before is None || is_shown(request, pass, outcomes, n) is None
            &&& after is Some && is_shown(request, pass, outcomes, n) == Some(true) ==> after->0
                == before->0 + section(request, pass, outcomes, n)
            &&& after is Some && is_shown(request, pass, outcomes, n) == Some(false) ==> after->0
                == before->0
        }),
{
    lemma_report_prefix(
        request,
        pipeline,
        pipeline.push(pass),
        outcomes,
        pipeline.len() as int,
    );
}

/// The report of all functions is that of each of them under its own name, with all that the user
/// asks for, one behind the other in their order. It fails if and only if one of them does.
pub proof fn lemma_report_of_one_more_function(
    skip_unchanged: bool,
    pass_filter: Option<&str>,
    use_regex: bool,
    should_demangle: bool,
    entries: Seq<(Seq<char>, Seq<PassModel>)>,
    demangled: Seq<Vec<DemangledPass>>,
    order: Seq<usize>,
    count: int,
)
    requires
        0 <= count < order.len(),
        order[count] < entries.len(),
    ensures
        ({
            let at = order[count] as int;
            let (name, passes) = entries[at];
            let own = report(
                ReportModel {
                    func_name: name,
                    skip_unchanged,
                    pass_filter: str_text(pass_filter),
                    use_regex,
                    should_demangle,
                },
                passes,
                if at < demangled.len() {
                    demangled[at]@
                } else {
                    Seq::empty()
                },
                passes.len() as int,
            );
            let request = request_for_all(skip_unchanged, pass_filter, use_regex, should_demangle);
            let before = report_all(request, entries, demangled, order, count);
            let after = report_all(request, entries, demangled, order, count + 1);
            &&& report_all(request, entries, demangled, order, 0) == Some(Seq::<char>::empty())
            &&& after is None <==> before is None || own is None
            &&& after is Some ==> after->0 == before->0 + own->0
        }),
{
}

} // verus!
