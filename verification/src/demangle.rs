//! Shows text with the symbols in it demangled.
//!
//! The demangler itself is not part of the library. What it has written for a text, or that it
//! has failed on it, is handed in.
use crate::text::string_texts;
use vstd::prelude::*;
use vstd::string::*;
use vstd::utf8::*;

verus! {

/// The text of bytes that need not be UTF-8: what `String::from_utf8_lossy` returns.
pub uninterp spec fn lossy_utf8(bytes: Seq<u8>) -> Seq<char>;

/// Decodes bytes by `String::from_utf8_lossy`. Bytes that are UTF-8 are decoded as such.
#[verifier::external_body]
fn decode_lossy(bytes: &Vec<u8>) -> (res: String)
    ensures
        res@ == lossy_utf8(bytes@),
        valid_utf8(bytes@) ==> res@ == decode_utf8(bytes@),
{
    String::from_utf8_lossy(bytes).into_owned()
}

/// The text of bytes, which should be UTF-8.
pub open spec fn decoded(bytes: Seq<u8>) -> Seq<char> {
    if valid_utf8(bytes) {
        decode_utf8(bytes)
    } else {
        lossy_utf8(bytes)
    }
}

/// The bytes that a demangler has written, if it has not failed.
pub open spec fn written(outcome: Option<Vec<u8>>) -> Option<Seq<u8>> {
    match outcome {
        Some(bytes) => Some(bytes@),
        None => None,
    }
}

/// A text as it is shown: as the demangler has written it, if that is asked for and it has not
/// failed.
pub open spec fn demangled_text(
    text: Seq<char>,
    should_demangle: bool,
    outcome: Option<Seq<u8>>,
) -> Seq<char> {
    if !should_demangle {
        text
    } else {
        match outcome {
            Some(bytes) => decoded(bytes),
            None => text,
        }
    }
}

/// Shows a text for which the demangler has given `outcome`.
pub fn demangle_text(text: &str, should_demangle: bool, outcome: &Option<Vec<u8>>) -> (res: String)
    ensures
        res@ == demangled_text(text@, should_demangle, written(*outcome)),
{
    if !should_demangle {
        return text.to_string();
    }
    match outcome {
        Some(bytes) => decode_lossy(bytes),
        None => text.to_string(),
    }
}

/// What the demangler has written for the text at a position. Where it was not run it has written
/// nothing.
pub open spec fn written_at(outcomes: Seq<Option<Vec<u8>>>, i: int) -> Option<Seq<u8>> {
    if 0 <= i < outcomes.len() {
        written(outcomes[i])
    } else {
        None
    }
}

/// The names as they are shown.
pub open spec fn demangled_texts(
    names: Seq<Seq<char>>,
    should_demangle: bool,
    outcomes: Seq<Option<Vec<u8>>>,
) -> Seq<Seq<char>> {
    Seq::new(
        names.len(),
        |i: int| demangled_text(names[i], should_demangle, written_at(outcomes, i)),
    )
}

/// Shows names for which the demangler has given `outcomes`.
pub fn demangle_names(
    names: &Vec<String>,
    should_demangle: bool,
    outcomes: &Vec<Option<Vec<u8>>>,
) -> (res: Vec<String>)
    ensures
        string_texts(res@) == demangled_texts(string_texts(names@), should_demangle, outcomes@),
{
    let mut res: Vec<String> = Vec::new();
    let mut i: usize = 0;
    while i < names.len()
        invariant
            i <= names@.len(),
            res@.len() == i,
            forall|j: int|
                0 <= j < i ==> (#[trigger] res@[j])@ == demangled_text(
                    names@[j]@,
                    should_demangle,
                    written_at(outcomes@, j),
                ),
        decreases names@.len() - i,
    {
        let name = names[i].as_str();
        let shown = if i < outcomes.len() {
            demangle_text(name, should_demangle, &outcomes[i])
        } else {
            demangle_text(name, should_demangle, &None)
        };
        res.push(shown);
        i += 1;
    }
    assert(string_texts(res@) =~= demangled_texts(
        string_texts(names@),
        should_demangle,
        outcomes@,
    ));
    res
}

/// A text is shown as it is, unless it is to be demangled and the demangler has written another
/// text for it: then it is shown as that one.
pub proof fn lemma_shown_as_written(text: Seq<char>, other: Seq<char>, outcome: Option<Seq<u8>>)
    ensures
        demangled_text(text, false, outcome) == text,
        demangled_text(text, true, None) == text,
        demangled_text(text, true, Some(encode_utf8(other))) == other,
{
    encode_utf8_valid_utf8(other);
    encode_utf8_decode_utf8(other);
}

/// Each name is shown by itself, in its place, with what the demangler has written for it.
pub proof fn lemma_names_shown_in_place(
    names: Seq<Seq<char>>,
    should_demangle: bool,
    outcomes: Seq<Option<Vec<u8>>>,
    i: int,
)
    requires
        0 <= i < names.len(),
    ensures
        demangled_texts(names, should_demangle, outcomes).len() == names.len(),
        !should_demangle || i >= outcomes.len() || outcomes[i] is None ==> demangled_texts(
            names,
            should_demangle,
            outcomes,
        )[i] == names[i],
        should_demangle && i < outcomes.len() && outcomes[i] is Some ==> demangled_texts(
            names,
            should_demangle,
            outcomes,
        )[i] == decoded(outcomes[i]->0@),
{
}

} // verus!
