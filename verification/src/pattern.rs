//! Regular expressions, and the search for a user's pattern in a text.
use crate::filter::is_filter_pattern;
use crate::residue::{filter_source, is_left};
use crate::text::{contains, contains_text, is_space, is_subsequence, occurs_at};
use regex::Regex;
use vstd::prelude::*;
use vstd::string::*;
use vstd::utf8::is_ascii_chars;

verus! {

/// A compiled regular expression of the `regex` crate.
#[verifier::external_type_specification]
#[verifier::external_body]
pub struct ExRegex(Regex);

/// The error that the `regex` crate gives for a pattern it cannot compile.
#[verifier::external_type_specification]
#[verifier::external_body]
pub struct ExRegexError(regex::Error);

/// The pattern that a regular expression was compiled from by `Regex::new`, which is the only way
/// in which this library makes one: what `Regex::as_str` returns.
pub uninterp spec fn regex_source(regex: Regex) -> Seq<char>;

/// Whether `Regex::new` accepts a pattern.
pub uninterp spec fn regex_compiles(pattern: Seq<char>) -> bool;

/// What an error of the `regex` crate displays.
pub uninterp spec fn error_text(error: regex::Error) -> Seq<char>;

/// What the error displays that `Regex::new` gives for a pattern.
pub uninterp spec fn regex_error(pattern: Seq<char>) -> Seq<char>;

/// Whether a pattern matches somewhere in a text: what `Regex::is_match` returns.
pub uninterp spec fn regex_matches(pattern: Seq<char>, text: Seq<char>) -> bool;

/// A text without the matches of a pattern: what `Regex::replace_all` returns for an empty
/// replacement.
pub uninterp spec fn regex_erased(pattern: Seq<char>, text: Seq<char>) -> Seq<char>;

/// Matches the line that opens the dump of a pass on IR.
pub const IR_DUMP_HEADER: &'static str =
    r"^;?\s?(?:\*{3} (.+) \*{3}|// -----// (.+) //----- //)(?:\s+\((?:function: |loop: )(%?[\w$.]+)\))?(?:;.+)?$";

/// Matches the line that opens the dump of a pass on machine code.
pub const MACHINE_CODE_DUMP_HEADER: &'static str = r"^# \*{3} (.+) \*{3}:$";

/// Matches the line that ends a function in IR.
pub const FUNCTION_END: &'static str = r"^}$";

/// Matches the line that ends a function in machine code.
pub const MACHINE_FUNCTION_END: &'static str = r"^# End machine code for function ([\w$.]+).$";

/// The patterns by which dumps are read.
pub open spec fn is_dump_pattern(pattern: Seq<char>) -> bool {
    ||| pattern
        == r"^;?\s?(?:\*{3} (.+) \*{3}|// -----// (.+) //----- //)(?:\s+\((?:function: |loop: )(%?[\w$.]+)\))?(?:;.+)?$"@
    ||| pattern == r"^# \*{3} (.+) \*{3}:$"@
    ||| pattern == r"^}$"@
    ||| pattern == r"^# End machine code for function ([\w$.]+).$"@
}

/// Some text within a line.
pub open spec fn is_line_text(text: Seq<char>) -> bool {
    text.len() > 0 && !text.contains('\n')
}

/// The lines that `MACHINE_CODE_DUMP_HEADER` matches.
pub open spec fn is_machine_dump_header(line: Seq<char>) -> bool {
    exists|name: Seq<char>| is_line_text(name) && #[trigger] ("# *** "@ + name + " ***:"@) == line
}

/// The characters that the name of a function has in ASCII.
pub open spec fn is_ascii_name_char(c: char) -> bool {
    ||| '0' <= c <= '9'
    ||| 'A' <= c <= 'Z'
    ||| 'a' <= c <= 'z'
    ||| c == '_'
    ||| c == '$'
    ||| c == '.'
}

/// A name of a function in ASCII.
pub open spec fn is_ascii_name(name: Seq<char>) -> bool {
    name.len() > 0 && forall|i: int| 0 <= i < name.len() ==> is_ascii_name_char(#[trigger] name[i])
}

/// What comes before the first mark of a header: at most a semicolon and one space.
pub open spec fn is_header_lead(lead: Seq<char>) -> bool {
    ||| lead.len() == 0
    ||| lead.len() == 1 && (lead[0] == ';' || is_space(lead[0]))
    ||| lead.len() == 2 && lead[0] == ';' && is_space(lead[1])
}

/// The marks of a header and the text between them.
pub open spec fn is_header_core(core: Seq<char>) -> bool {
    exists|text: Seq<char>| #[trigger]
        is_line_text(text) && (core == "*** "@ + text + " ***"@ || core == "// -----// "@ + text
            + " //----- //"@)
}

/// What comes behind the marks of a header in ASCII: at most the function or loop that the dump is
/// about, in brackets.
pub open spec fn is_ascii_header_subject(subject: Seq<char>) -> bool {
    ||| subject.len() == 0
    ||| exists|gap: Seq<char>, word: Seq<char>, name: Seq<char>|
        {
            &&& gap.len() > 0
            &&& forall|i: int| 0 <= i < gap.len() ==> is_space(#[trigger] gap[i])
            &&& word == "(function: "@ || word == "(function: %"@ || word == "(loop: "@ || word
                == "(loop: %"@
            &&& is_ascii_name(name)
            &&& subject == #[trigger] (gap + word + name + ")"@)
        }
}

/// What comes last in a header: at most a remark behind a semicolon.
pub open spec fn is_header_remark(remark: Seq<char>) -> bool {
    remark.len() == 0 || remark[0] == ';' && is_line_text(remark.skip(1))
}

/// The lines in ASCII that `IR_DUMP_HEADER` matches.
pub open spec fn is_ascii_ir_dump_header(line: Seq<char>) -> bool {
    exists|lead: Seq<char>, core: Seq<char>, subject: Seq<char>, remark: Seq<char>|
        {
            &&& is_header_lead(lead)
            &&& is_header_core(core)
            &&& is_ascii_header_subject(subject)
            &&& is_header_remark(remark)
            &&& #[trigger] (lead + core + subject + remark) == line
        }
}

/// A line that opens the dump of a pass on IR.
pub open spec fn is_ir_dump_header(line: Seq<char>) -> bool {
    if is_ascii_chars(line) {
        is_ascii_ir_dump_header(line)
    } else {
        regex_matches(IR_DUMP_HEADER@, line)
    }
}

/// The lines in ASCII that `MACHINE_FUNCTION_END` matches.
pub open spec fn is_ascii_machine_end(line: Seq<char>) -> bool {
    exists|name: Seq<char>, last: char|
        is_ascii_name(name) && last != '\n' && #[trigger] ("# End machine code for function "@
            + name).push(last) == line
}

/// A line that ends a function in machine code.
pub open spec fn is_machine_end(line: Seq<char>) -> bool {
    if is_ascii_chars(line) {
        is_ascii_machine_end(line)
    } else {
        regex_matches(MACHINE_FUNCTION_END@, line)
    }
}

/// Compiles a pattern by `Regex::new`, which accepts the patterns of this library. What an error
/// displays depends on the pattern alone.
#[verifier::external_body]
pub(crate) fn compile(pattern: &str) -> (res: Result<Regex, regex::Error>)
    ensures
        match res {
            Ok(regex) => regex_compiles(pattern@) && regex_source(regex) == pattern@,
            Err(error) => !regex_compiles(pattern@) && error_text(error) == regex_error(pattern@),
        },
        is_dump_pattern(pattern@) || is_filter_pattern(pattern@) ==> res is Ok,
{
    Regex::new(pattern)
}

/// Searches for a match by `Regex::is_match`. For the patterns by which dumps are read the result
/// is stated: `FUNCTION_END` matches the text `}` alone, `MACHINE_CODE_DUMP_HEADER` a name between
/// two marks, `MACHINE_FUNCTION_END`, in an ASCII text, a name and one more character, and
/// `IR_DUMP_HEADER`, in an ASCII text, a name between two marks with what may come around it.
#[verifier::external_body]
pub(crate) fn is_match(regex: &Regex, text: &str) -> (res: bool)
    ensures
        res == regex_matches(regex_source(*regex), text@),
        regex_source(*regex) == r"^}$"@ ==> res == (text@ == "}"@),
        regex_source(*regex) == r"^# \*{3} (.+) \*{3}:$"@ ==> res == is_machine_dump_header(text@),
        regex_source(*regex) == r"^# End machine code for function ([\w$.]+).$"@ && is_ascii_chars(
            text@,
        ) ==> res == is_ascii_machine_end(text@),
        regex_source(*regex)
            == r"^;?\s?(?:\*{3} (.+) \*{3}|// -----// (.+) //----- //)(?:\s+\((?:function: |loop: )(%?[\w$.]+)\))?(?:;.+)?$"@
            && is_ascii_chars(text@) ==> res == is_ascii_ir_dump_header(text@),
{
    regex.is_match(text)
}

/// Takes all matches out of a text by `Regex::replace_all` with an empty replacement. What is left
/// is the text with parts left out. A text without a match stays as it is. By the pattern of the
/// filters, each line that is simple enough to tell leaves what `leaves` says of it.
#[verifier::external_body]
pub(crate) fn erase(regex: &Regex, text: &str) -> (res: String)
    ensures
        res@ == regex_erased(regex_source(*regex), text@),
        is_subsequence(res@, text@),
        forall|debug_info: bool, ir_metadata: bool|
            regex_source(*regex) == #[trigger] filter_source(debug_info, ir_metadata) ==> is_left(
                text@,
                res@,
                debug_info,
                ir_metadata,
            ),
        !regex_matches(regex_source(*regex), text@) ==> res@ == text@,
{
    regex.replace_all(text, "").into_owned()
}

/// A text in lower case: what `str::to_lowercase` returns.
pub uninterp spec fn lowercase(text: Seq<char>) -> Seq<char>;

/// An ASCII text in lower case.
pub open spec fn ascii_lowercase(text: Seq<char>) -> Seq<char> {
    text.map_values(
        |c: char|
            if 'A' <= c <= 'Z' {
                (c as u8 + 32) as char
            } else {
                c
            },
    )
}

/// `str::to_lowercase` puts a text into lower case. In an ASCII text this changes the letters from
/// `A` to `Z` alone.
pub assume_specification[ str::to_lowercase ](text: &str) -> (res: String)
    ensures
        res@ == lowercase(text@),
        is_ascii_chars(text@) ==> res@ == ascii_lowercase(text@),
;

/// A text in lower case.
pub open spec fn lowered(text: Seq<char>) -> Seq<char> {
    if is_ascii_chars(text) {
        ascii_lowercase(text)
    } else {
        lowercase(text)
    }
}

/// A pattern of the user that is no regular expression.
#[derive(Debug)]
pub struct PatternError {
    pub pattern: String,
    pub source: regex::Error,
}

impl PatternError {
    /// The message for the user.
    pub fn message(&self) -> (res: String)
        ensures
            res@ == "Invalid regex pattern: "@ + self.pattern@,
    {
        let mut res = "Invalid regex pattern: ".to_string();
        res.append(self.pattern.as_str());
        res
    }
}

/// The error is the one for a pattern: it holds the pattern, and displays what is wrong with it.
pub open spec fn is_error_of(error: PatternError, pattern: Seq<char>) -> bool {
    error.pattern@ == pattern && error_text(error.source) == regex_error(pattern)
}

/// Compiles a pattern of the user.
pub(crate) fn compile_pattern(pattern: &str) -> (res: Result<Regex, PatternError>)
    ensures
        match res {
            Ok(regex) => regex_compiles(pattern@) && regex_source(regex) == pattern@,
            Err(error) => !regex_compiles(pattern@) && is_error_of(error, pattern@),
        },
{
    match compile(pattern) {
        Ok(regex) => Ok(regex),
        Err(source) => Err(PatternError { pattern: pattern.to_string(), source }),
    }
}

/// Whether a pattern of the user is found in a text: as a regular expression, or as a part of the
/// text whatever the case. It is `None` where the pattern is no regular expression.
pub open spec fn pattern_found(
    text: Seq<char>,
    pattern: Seq<char>,
    use_regex: bool,
) -> Option<bool> {
    if !use_regex {
        Some(contains(lowered(text), lowered(pattern)))
    } else if regex_compiles(pattern) {
        Some(regex_matches(pattern, text))
    } else {
        None
    }
}

/// Looks for a pattern of the user in a text.
pub fn matches_pattern(text: &str, pattern: &str, use_regex: bool) -> (res: Result<
    bool,
    PatternError,
>)
    ensures
        match res {
            Ok(found) => pattern_found(text@, pattern@, use_regex) == Some(found),
            Err(error) => pattern_found(text@, pattern@, use_regex) is None && is_error_of(
                error,
                pattern@,
            ),
        },
{
    if use_regex {
        match compile_pattern(pattern) {
            Ok(regex) => Ok(is_match(&regex, text)),
            Err(error) => Err(error),
        }
    } else {
        let text = text.to_lowercase();
        let pattern = pattern.to_lowercase();
        Ok(contains_text(text.as_str(), pattern.as_str()))
    }
}

/// A search without regular expressions takes no account of case: in ASCII texts the same is found
/// when text and pattern are put into lower case first.
pub proof fn lemma_search_ignores_case(text: Seq<char>, pattern: Seq<char>)
    requires
        is_ascii_chars(text),
        is_ascii_chars(pattern),
    ensures
        pattern_found(ascii_lowercase(text), ascii_lowercase(pattern), false) == pattern_found(
            text,
            pattern,
            false,
        ),
        pattern_found(ascii_lowercase(text), pattern, false) == pattern_found(
            text,
            pattern,
            false,
        ),
        pattern_found(text, ascii_lowercase(pattern), false) == pattern_found(
            text,
            pattern,
            false,
        ),
{
    lemma_lowercase_twice(text);
    lemma_lowercase_twice(pattern);
}

proof fn lemma_lowercase_twice(text: Seq<char>)
    requires
        is_ascii_chars(text),
    ensures
        is_ascii_chars(ascii_lowercase(text)),
        ascii_lowercase(ascii_lowercase(text)) == ascii_lowercase(text),
{
    let once = ascii_lowercase(text);
    assert forall|i: int| 0 <= i < once.len() implies (#[trigger] once[i]) as u32 <= 0x7f && !('A'
        <= once[i] <= 'Z') by {
        assert(is_ascii_chars(text));
        assert(0 <= (text[i] as u32) <= 0x7f);
    }
    assert(ascii_lowercase(once) =~= once);
}

/// An empty pattern is found in every text.
pub proof fn lemma_empty_pattern_found(text: Seq<char>)
    ensures
        pattern_found(text, Seq::empty(), false) == Some(true),
{
    let low = lowered(text);
    let none = lowered(Seq::empty());
    assert(is_ascii_chars(Seq::<char>::empty()));
    assert(none =~= Seq::<char>::empty());
    assert(low.subrange(0, 0) =~= none);
    assert(occurs_at(low, none, 0));
}

/// An ASCII text in lower case: as long as the text, with each letter from `A` to `Z` replaced by
/// the letter as far behind `a`, and all else as it is.
pub proof fn lemma_lowercase_of_ascii(text: Seq<char>)
    requires
        is_ascii_chars(text),
    ensures
        lowered(text).len() == text.len(),
        forall|i: int|
            0 <= i < text.len() ==> if 'A' <= (#[trigger] text[i]) <= 'Z' {
                lowered(text)[i] as int - 'a' as int == text[i] as int - 'A' as int
            } else {
                lowered(text)[i] == text[i]
            },
{
}

/// Without regular expressions a pattern is found wherever it stands in an ASCII text: at its
/// beginning, at its end, or between other characters, whatever the case of the text around it.
pub proof fn lemma_pattern_found_where_it_stands(
    before: Seq<char>,
    pattern: Seq<char>,
    after: Seq<char>,
)
    requires
        is_ascii_chars(before),
        is_ascii_chars(pattern),
        is_ascii_chars(after),
    ensures
        pattern_found(before + pattern + after, pattern, false) == Some(true),
{
    let text = before + pattern + after;
    assert(is_ascii_chars(text));
    let low = lowered(text);
    let mark = lowered(pattern);
    let at = before.len() as int;
    assert(low.subrange(at, at + mark.len()) =~= mark) by {
        assert forall|i: int| 0 <= i < mark.len() implies low[at + i] == mark[i] by {
            assert(text[at + i] == pattern[i]);
        }
    }
    assert(occurs_at(low, mark, at));
}

/// Without regular expressions the search never fails, and where it finds an ASCII pattern in an
/// ASCII text, the text has a part that is the pattern but for the case.
pub proof fn lemma_found_pattern_stands(text: Seq<char>, pattern: Seq<char>)
    requires
        is_ascii_chars(text),
        is_ascii_chars(pattern),
    ensures
        pattern_found(text, pattern, false) is Some,
        pattern_found(text, pattern, false) == Some(true) <==> exists|
            before: Seq<char>,
            part: Seq<char>,
            after: Seq<char>,
        |
            #[trigger] (before + part + after) == text && lowered(part) == lowered(pattern),
{
    let low = lowered(text);
    let mark = lowered(pattern);
    if pattern_found(text, pattern, false) == Some(true) {
        let at = choose|at: int| occurs_at(low, mark, at);
        let end = at + mark.len();
        let before = text.take(at);
        let part = text.subrange(at, end);
        let after = text.skip(end);
        assert(is_ascii_chars(part));
        assert(before + part + after =~= text);
        assert(lowered(part) =~= mark) by {
            assert(low.subrange(at, end) == mark);
            assert forall|i: int| 0 <= i < mark.len() implies lowered(part)[i] == mark[i] by {
                assert(low.subrange(at, end)[i] == low[at + i]);
                assert(part[i] == text[at + i]);
            }
        }
    }
    if exists|before: Seq<char>, part: Seq<char>, after: Seq<char>|
        #[trigger] (before + part + after) == text && lowered(part) == lowered(pattern) {
        let (before, part, after) = choose|before: Seq<char>, part: Seq<char>, after: Seq<char>|
            #[trigger] (before + part + after) == text && lowered(part) == lowered(pattern);
        let at = before.len() as int;
        assert forall|i: int| 0 <= i < part.len() implies '\0' <= #[trigger] part[i] <= '\u{7f}' by {
            assert(part[i] == text[at + i]);
        }
        assert(is_ascii_chars(part));
        assert(low.subrange(at, at + mark.len()) =~= mark) by {
            assert forall|i: int| 0 <= i < mark.len() implies low[at + i] == mark[i] by {
                assert(text[at + i] == part[i]);
                assert(lowered(part)[i] == mark[i]);
            }
        }
        assert(occurs_at(low, mark, at));
    }
}

/// A regular expression is found where it matches. The search fails if and only if the pattern
/// should be a regular expression and is none.
pub proof fn lemma_regex_found_where_it_matches(text: Seq<char>, pattern: Seq<char>)
    ensures
        regex_compiles(pattern) ==> pattern_found(text, pattern, true) == Some(
            regex_matches(pattern, text),
        ),
        !regex_compiles(pattern) ==> pattern_found(text, pattern, true) is None,
{
}

/// Texts beyond ASCII are searched in lower case too, as `str::to_lowercase` gives it.
pub proof fn lemma_search_beyond_ascii(text: Seq<char>, pattern: Seq<char>)
    requires
        !is_ascii_chars(text),
    ensures
        !is_ascii_chars(pattern) ==> pattern_found(text, pattern, false) == Some(
            contains(lowercase(text), lowercase(pattern)),
        ),
        is_ascii_chars(pattern) ==> pattern_found(text, pattern, false) == Some(
            contains(lowercase(text), ascii_lowercase(pattern)),
        ),
{
}

/// Beyond ASCII, a line opens a dump on IR, and a line ends a function in machine code, if and only
/// if the pattern for such lines matches it.
pub proof fn lemma_lines_beyond_ascii(line: Seq<char>)
    requires
        !is_ascii_chars(line),
    ensures
        is_ir_dump_header(line) <==> regex_matches(
            r"^;?\s?(?:\*{3} (.+) \*{3}|// -----// (.+) //----- //)(?:\s+\((?:function: |loop: )(%?[\w$.]+)\))?(?:;.+)?$"@,
            line,
        ),
        is_machine_end(line) <==> regex_matches(
            r"^# End machine code for function ([\w$.]+).$"@,
            line,
        ),
{
}

} // verus!
