//! Lists the functions that a dump opens.
use crate::demangle::{demangle_names, demangled_texts};
use crate::order::{ascending, in_order, lemma_one_ascending_order, lemma_same_names, sort_names};
use crate::search::{bytes_at, is_next, needle_positions, next_byte};
use crate::split::{
    ir_function_name, is_dialect_function, is_ir_function, is_ir_function_line,
    read_ir_function_name,
};
use crate::table::{entry_position, FunctionTable};
use crate::text::{
    lemma_ascii_boundary, lemma_bytes_occurrence, lemma_encode_concat, lemma_encode_injective,
    lemma_lines_concat, lemma_occurrence_bytes, lines, lines_of, slice_bytes, starts_with,
    string_texts,
};
use vstd::prelude::*;
use vstd::string::*;
use vstd::utf8::*;

verus! {

/// The byte of `@`.
const AT_SIGN: u8 = 0x40;

/// The byte of an opening bracket.
const BRACKET: u8 = 0x28;

/// The byte of a colon.
const COLON: u8 = 0x3a;

/// The bytes that open a function in IR.
pub open spec fn define_mark() -> Seq<u8> {
    encode_utf8("define "@)
}

/// The bytes that open a function in machine code.
pub open spec fn machine_mark() -> Seq<u8> {
    encode_utf8("# Machine code for function "@)
}

/// The name of the function in IR that opens at `at`: what stands between the next `@` and the
/// next bracket behind it.
pub open spec fn is_ir_name(bytes: Seq<u8>, at: int, name: Seq<char>) -> bool {
    exists|start: int, end: int| #[trigger]
        is_next(bytes, 0x40, at, start) && #[trigger] is_next(bytes, 0x28, start + 1, end)
            && encode_utf8(name) == bytes.subrange(start + 1, end)
}

/// The name of the function in machine code that opens at `at`: what stands between the mark and
/// the next colon.
pub open spec fn is_machine_name(bytes: Seq<u8>, at: int, name: Seq<char>) -> bool {
    exists|end: int| #[trigger]
        is_next(bytes, 0x3a, at + machine_mark().len(), end) && encode_utf8(name)
            == bytes.subrange(at + machine_mark().len(), end)
}

/// The function in IR that opens at `at` has a name.
pub open spec fn has_ir_name(bytes: Seq<u8>, at: int) -> bool {
    exists|name: Seq<char>| is_ir_name(bytes, at, name)
}

/// The function in machine code that opens at `at` has a name.
pub open spec fn has_machine_name(bytes: Seq<u8>, at: int) -> bool {
    exists|name: Seq<char>| is_machine_name(bytes, at, name)
}

/// The bytes of a text mention a function: they open it by `define`, or in machine code.
pub open spec fn mentions(bytes: Seq<u8>, name: Seq<char>) -> bool {
    ||| exists|at: int| #[trigger] bytes_at(bytes, define_mark(), at) && is_ir_name(bytes, at, name)
    ||| exists|at: int| #[trigger]
        bytes_at(bytes, machine_mark(), at) && is_machine_name(bytes, at, name)
}

/// The names of all functions that the bytes of a text mention can be read.
pub open spec fn names_readable(bytes: Seq<u8>) -> bool {
    &&& forall|at: int| #[trigger]
        bytes_at(bytes, define_mark(), at) ==> has_ir_name(bytes, at)
    &&& forall|at: int| #[trigger]
        bytes_at(bytes, machine_mark(), at) ==> has_machine_name(bytes, at)
}

/// A line opens the function of that name in IR, but not by `define`.
pub open spec fn names_dialect(line: Seq<char>, name: Seq<char>) -> bool {
    is_dialect_function(line) && ir_function_name(line) == Some(name)
}

/// A line of a text opens the function of that name in IR, but not by `define`.
pub open spec fn in_dialect(dump: Seq<char>, name: Seq<char>) -> bool {
    exists|i: int| 0 <= i < lines(dump).len() && names_dialect(#[trigger] lines(dump)[i], name)
}

/// A text opens the function of that name: by `define`, in machine code, or in a line that opens a
/// function in another way.
pub open spec fn is_listed(dump: Seq<char>, name: Seq<char>) -> bool {
    mentions(encode_utf8(dump), name) || in_dialect(dump, name)
}

/// The names are those of the functions that a text opens, each of them once.
pub open spec fn lists_functions(dump: Seq<char>, names: Seq<Seq<char>>) -> bool {
    &&& names.no_duplicates()
    &&& forall|name: Seq<char>| #[trigger] names.contains(name) <==> is_listed(dump, name)
}

spec fn is_in<A>(entries: Seq<(Seq<char>, A)>, name: Seq<char>) -> bool {
    exists|i: int| 0 <= i < entries.len() && (#[trigger] entries[i]).0 == name
}

/// Reads the name of the function in IR that opens at `at`.
fn read_ir_name(dump: &str, at: usize) -> (res: Option<&str>)
    requires
        at <= encode_utf8(dump@).len(),
    ensures
        match res {
            Some(name) => is_ir_name(encode_utf8(dump@), at as int, name@),
            None => forall|name: Seq<char>| !is_ir_name(encode_utf8(dump@), at as int, name),
        },
{
    let bytes = dump.as_bytes();
    let len: usize = bytes.len();
    let start = match next_byte(bytes, AT_SIGN, at) {
        Some(start) => start,
        None => {
            return None;
        },
    };
    let end = match next_byte(bytes, BRACKET, start + 1) {
        Some(end) => end,
        None => {
            proof {
                assert forall|name: Seq<char>| !is_ir_name(bytes@, at as int, name) by {
                    if is_ir_name(bytes@, at as int, name) {
                        let (s, e) = choose|s: int, e: int| #[trigger]
                            is_next(bytes@, 0x40, at as int, s) && #[trigger] is_next(
                                bytes@,
                                0x28,
                                s + 1,
                                e,
                            ) && encode_utf8(name) == bytes@.subrange(s + 1, e);
                        assert(s == start);
                    }
                }
            }
            return None;
        },
    };
    proof {
        lemma_ascii_boundary(dump@, start as int);
        lemma_ascii_boundary(dump@, end as int);
    }
    let name = slice_bytes(dump, start + 1, end);
    assert(is_next(bytes@, 0x40, at as int, start as int));
    assert(is_next(bytes@, 0x28, start + 1, end as int));
    Some(name)
}

/// Reads the name of the function in machine code that opens at `at`.
fn read_machine_name(dump: &str, at: usize) -> (res: Option<&str>)
    requires
        bytes_at(encode_utf8(dump@), machine_mark(), at as int),
    ensures
        match res {
            Some(name) => is_machine_name(encode_utf8(dump@), at as int, name@),
            None => forall|name: Seq<char>| !is_machine_name(encode_utf8(dump@), at as int, name),
        },
{
    let bytes = dump.as_bytes();
    let len: usize = bytes.len();
    proof {
        lemma_marks();
    }
    let start: usize = at + "# Machine code for function ".as_bytes().len();
    match next_byte(bytes, COLON, start) {
        Some(end) => {
            proof {
                let mark = machine_mark();
                assert(bytes@.subrange(at as int, at + mark.len())[mark.len() - 1] == bytes@[start
                    - 1]);
                lemma_ascii_boundary(dump@, start - 1);
                lemma_ascii_boundary(dump@, end as int);
            }
            Some(slice_bytes(dump, start, end))
        },
        None => None,
    }
}

/// The first byte of a mark stands nowhere else in it.
spec fn begins_uniquely(mark: Seq<u8>) -> bool {
    &&& mark.len() > 0
    &&& forall|i: int| 0 < i < mark.len() ==> #[trigger] mark[i] != mark[0]
}

/// The first byte of each mark stands nowhere else in it.
proof fn lemma_marks()
    ensures
        begins_uniquely(define_mark()),
        begins_uniquely(machine_mark()),
        machine_mark().last() < 0x80,
{
    reveal_strlit("define ");
    reveal_strlit("# Machine code for function ");
    let define = "define "@;
    let machine = "# Machine code for function "@;
    assert(is_ascii_chars(define));
    assert(is_ascii_chars(machine));
    is_ascii_chars_encode_utf8(define);
    is_ascii_chars_encode_utf8(machine);
    let first = define_mark();
    let second = machine_mark();
    assert forall|i: int| 0 < i < first.len() implies #[trigger] first[i] != first[0] by {
        assert(define[i] as u8 == first[i]);
        assert(define[0] as u8 == first[0]);
    }
    assert forall|i: int| 0 < i < second.len() implies #[trigger] second[i] != second[0] by {
        assert(machine[i] as u8 == second[i]);
        assert(machine[0] as u8 == second[0]);
    }
    assert(machine[machine.len() - 1] as u8 == machine_mark().last());
}

/// Where the first byte of a mark stands nowhere else in it, no two occurrences overlap.
proof fn lemma_no_overlap(bytes: Seq<u8>, mark: Seq<u8>, first: int, second: int)
    requires
        begins_uniquely(mark),
        bytes_at(bytes, mark, first),
        bytes_at(bytes, mark, second),
        first <= second < first + mark.len(),
    ensures
        first == second,
{
    if first < second {
        assert(bytes.subrange(second, second + mark.len())[0] == bytes[second]);
        assert(bytes.subrange(first, first + mark.len())[second - first] == bytes[second]);
    }
}

fn add_name(names: &mut FunctionTable<()>, name: &str)
    ensures
        forall|other: Seq<char>| #[trigger]
            is_in(final(names)@, other) <==> is_in(old(names)@, other) || other == name@,
{
    let ghost before = names@;
    names.insert(name.to_string(), ());
    proof {
        assert forall|other: Seq<char>| #[trigger] is_in(names@, other) <==> is_in(before, other)
            || other == name@ by {
            match entry_position(before, name@) {
                Some(k) => {
                    if is_in(before, other) {
                        let i = choose|i: int|
                            0 <= i < before.len() && (#[trigger] before[i]).0 == other;
                        assert(names@[i].0 == other);
                    }
                    if is_in(names@, other) {
                        let i = choose|i: int|
                            0 <= i < names@.len() && (#[trigger] names@[i]).0 == other;
                        assert(before[i].0 == other || other == name@);
                    }
                    assert(names@[k].0 == name@);
                },
                None => {
                    if is_in(before, other) {
                        let i = choose|i: int|
                            0 <= i < before.len() && (#[trigger] before[i]).0 == other;
                        assert(names@[i].0 == other);
                    }
                    if is_in(names@, other) {
                        let i = choose|i: int|
                            0 <= i < names@.len() && (#[trigger] names@[i]).0 == other;
                        if i < before.len() {
                            assert(before[i].0 == other);
                        }
                    }
                    assert(names@[before.len() as int].0 == name@);
                },
            }
        }
    }
}

/// The names in a table.
fn names_in(names: &FunctionTable<()>) -> (res: Vec<String>)
    ensures
        string_texts(res@).no_duplicates(),
        forall|name: Seq<char>| #[trigger]
            string_texts(res@).contains(name) <==> is_in(names@, name),
{
    let mut res: Vec<String> = Vec::new();
    let len: usize = names.len();
    let mut i: usize = 0;
    while i < len
        invariant
            len == names@.len(),
            i <= len,
            res@.len() == i,
            forall|j: int| 0 <= j < i ==> (#[trigger] res@[j])@ == names@[j].0,
        decreases len - i,
    {
        res.push(names.name(i).to_string());
        i += 1;
    }
    proof {
        let texts = string_texts(res@);
        assert forall|j: int, k: int| 0 <= j < texts.len() && 0 <= k < texts.len() && j
            != k implies texts[j] != texts[k] by {
            assert(names@[j].0 != names@[k].0);
        }
        assert forall|name: Seq<char>| #[trigger] texts.contains(name) <==> is_in(names@, name) by {
            if texts.contains(name) {
                let j = choose|j: int| 0 <= j < texts.len() && texts[j] == name;
                assert(names@[j].0 == name);
            }
            if is_in(names@, name) {
                let j = choose|j: int| 0 <= j < names@.len() && (#[trigger] names@[j]).0 == name;
                assert(texts[j] == name);
            }
        }
    }
    res
}

/// Names are unique, as they are cut out of the text.
proof fn lemma_ir_name_unique(bytes: Seq<u8>, at: int, a: Seq<char>, b: Seq<char>)
    requires
        is_ir_name(bytes, at, a),
        is_ir_name(bytes, at, b),
    ensures
        a == b,
{
    let (s, e) = choose|s: int, e: int| #[trigger]
        is_next(bytes, 0x40, at, s) && #[trigger] is_next(bytes, 0x28, s + 1, e) && encode_utf8(a)
            == bytes.subrange(s + 1, e);
    let (t, f) = choose|t: int, f: int| #[trigger]
        is_next(bytes, 0x40, at, t) && #[trigger] is_next(bytes, 0x28, t + 1, f) && encode_utf8(b)
            == bytes.subrange(t + 1, f);
    assert(s == t);
    assert(e == f);
    lemma_encode_injective(a, b);
}

proof fn lemma_machine_name_unique(bytes: Seq<u8>, at: int, a: Seq<char>, b: Seq<char>)
    requires
        is_machine_name(bytes, at, a),
        is_machine_name(bytes, at, b),
    ensures
        a == b,
{
    let from = at + machine_mark().len();
    let e = choose|e: int| #[trigger]
        is_next(bytes, 0x3a, from, e) && encode_utf8(a) == bytes.subrange(from, e);
    let f = choose|f: int| #[trigger]
        is_next(bytes, 0x3a, from, f) && encode_utf8(b) == bytes.subrange(from, f);
    assert(e == f);
    lemma_encode_injective(a, b);
}

/// Adds the functions that lines of a dump open in IR, but not by `define`. A line without a name
/// opens none.
fn add_dialect_names(names: &mut FunctionTable<()>, dump: &str)
    ensures
        forall|name: Seq<char>| #[trigger]
            is_in(final(names)@, name) <==> is_in(old(names)@, name) || in_dialect(dump@, name),
{
    let all = lines_of(dump);
    let ghost texts = lines(dump@);
    let ghost before = names@;
    let mut i: usize = 0;
    while i < all.len()
        invariant
            texts == lines(dump@),
            all@.len() == texts.len(),
            forall|j: int| 0 <= j < all@.len() ==> (#[trigger] all@[j])@ == texts[j],
            i <= all@.len(),
            forall|name: Seq<char>| #[trigger]
                is_in(names@, name) <==> is_in(before, name) || exists|j: int|
                    0 <= j < i && names_dialect(#[trigger] texts[j], name),
        decreases all@.len() - i,
    {
        let line = all[i];
        let ghost last = names@;
        assert(texts[i as int] == line@);
        if is_ir_function_line(line) && !starts_with(line, "define ") {
            if let Some(name) = read_ir_function_name(line) {
                add_name(names, name);
                assert(names_dialect(texts[i as int], name@));
            }
        }
        proof {
            assert forall|name: Seq<char>| #[trigger] is_in(names@, name) <==> is_in(before, name)
                || exists|j: int| 0 <= j < i + 1 && names_dialect(#[trigger] texts[j], name) by {
                assert(is_in(last, name) ==> is_in(names@, name));
                if is_in(names@, name) {
                    if is_in(last, name) && !is_in(before, name) {
                        let j = choose|j: int|
                            0 <= j < i && names_dialect(#[trigger] texts[j], name);
                        assert(0 <= j < i + 1);
                    }
                } else if exists|j: int|
                    0 <= j < i + 1 && names_dialect(#[trigger] texts[j], name) {
                    let j = choose|j: int|
                        0 <= j < i + 1 && names_dialect(#[trigger] texts[j], name);
                    assert(!is_in(last, name));
                    assert(j == i);
                }
            }
        }
        i += 1;
    }
}

/// Lists the functions that a dump opens. It is `None` where a name cannot be read.
pub fn try_list_functions(dump: &str) -> (res: Option<Vec<String>>)
    ensures
        match res {
            Some(names) => {
                &&& names_readable(encode_utf8(dump@))
                &&& lists_functions(dump@, string_texts(names@))
            },
            None => !names_readable(encode_utf8(dump@)),
        },
{
    let bytes = dump.as_bytes();
    proof {
        lemma_marks();
    }
    let mut names: FunctionTable<()> = FunctionTable::new();
    let defined = needle_positions(bytes, "define ".as_bytes());
    let mut k: usize = 0;
    while k < defined.len()
        invariant
            bytes@ == encode_utf8(dump@),
            k <= defined@.len(),
            forall|j: int|
                0 <= j < defined@.len() ==> bytes_at(
                    bytes@,
                    define_mark(),
                    #[trigger] defined@[j] as int,
                ),
            forall|j: int| 0 <= j < k ==> has_ir_name(bytes@, #[trigger] defined@[j] as int),
            forall|name: Seq<char>| #[trigger]
                is_in(names@, name) <==> exists|j: int|
                    0 <= j < k && is_ir_name(bytes@, #[trigger] defined@[j] as int, name),
        decreases defined@.len() - k,
    {
        let ghost before = names@;
        match read_ir_name(dump, defined[k]) {
            Some(name) => {
                add_name(&mut names, name);
                proof {
                    assert forall|other: Seq<char>| #[trigger] is_in(names@, other) <==> exists|j: int|
                        0 <= j < k + 1 && is_ir_name(bytes@, #[trigger] defined@[j] as int, other) by {
                        if is_in(names@, other) {
                            if is_in(before, other) {
                                let j = choose|j: int|
                                    0 <= j < k && is_ir_name(
                                        bytes@,
                                        #[trigger] defined@[j] as int,
                                        other,
                                    );
                                assert(0 <= j < k + 1);
                            } else {
                                assert(is_ir_name(bytes@, defined@[k as int] as int, other));
                            }
                        } else if exists|j: int|
                            0 <= j < k + 1 && is_ir_name(
                                bytes@,
                                #[trigger] defined@[j] as int,
                                other,
                            ) {
                            let j = choose|j: int|
                                0 <= j < k + 1 && is_ir_name(
                                    bytes@,
                                    #[trigger] defined@[j] as int,
                                    other,
                                );
                            if j == k {
                                lemma_ir_name_unique(bytes@, defined@[j] as int, other, name@);
                            } else {
                                assert(is_in(before, other));
                            }
                        }
                    }
                }
            },
            None => {
                assert(bytes_at(bytes@, define_mark(), defined@[k as int] as int));
                return None;
            },
        }
        k += 1;
    }
    let ghost ir_names = names@;
    let opened = needle_positions(bytes, "# Machine code for function ".as_bytes());
    let mut m: usize = 0;
    while m < opened.len()
        invariant
            bytes@ == encode_utf8(dump@),
            m <= opened@.len(),
            forall|j: int|
                0 <= j < opened@.len() ==> bytes_at(
                    bytes@,
                    machine_mark(),
                    #[trigger] opened@[j] as int,
                ),
            forall|j: int| 0 <= j < m ==> has_machine_name(bytes@, #[trigger] opened@[j] as int),
            forall|name: Seq<char>| #[trigger]
                is_in(names@, name) <==> is_in(ir_names, name) || exists|j: int|
                    0 <= j < m && is_machine_name(bytes@, #[trigger] opened@[j] as int, name),
        decreases opened@.len() - m,
    {
        let ghost before = names@;
        match read_machine_name(dump, opened[m]) {
            Some(name) => {
                add_name(&mut names, name);
                proof {
                    assert forall|other: Seq<char>| #[trigger] is_in(names@, other) <==> is_in(
                        ir_names,
                        other,
                    ) || exists|j: int|
                        0 <= j < m + 1 && is_machine_name(
                            bytes@,
                            #[trigger] opened@[j] as int,
                            other,
                        ) by {
                        if is_in(names@, other) {
                            if is_in(before, other) {
                                if !is_in(ir_names, other) {
                                    let j = choose|j: int|
                                        0 <= j < m && is_machine_name(
                                            bytes@,
                                            #[trigger] opened@[j] as int,
                                            other,
                                        );
                                    assert(0 <= j < m + 1);
                                }
                            } else {
                                assert(is_machine_name(bytes@, opened@[m as int] as int, other));
                            }
                        } else if exists|j: int|
                            0 <= j < m + 1 && is_machine_name(
                                bytes@,
                                #[trigger] opened@[j] as int,
                                other,
                            ) {
                            let j = choose|j: int|
                                0 <= j < m + 1 && is_machine_name(
                                    bytes@,
                                    #[trigger] opened@[j] as int,
                                    other,
                                );
                            if j == m {
                                lemma_machine_name_unique(bytes@, opened@[j] as int, other, name@);
                            } else {
                                assert(is_in(before, other));
                            }
                        } else if is_in(ir_names, other) {
                            assert(is_in(before, other));
                        }
                    }
                }
            },
            None => {
                assert(bytes_at(bytes@, machine_mark(), opened@[m as int] as int));
                return None;
            },
        }
        m += 1;
    }
    proof {
        lemma_marks();
        assert forall|at: int| #[trigger] bytes_at(bytes@, define_mark(), at) implies exists|j: int|
            0 <= j < defined@.len() && #[trigger] defined@[j] == at by {
            let j = choose|j: int|
                0 <= j < defined@.len() && (#[trigger] defined@[j]) <= at < defined@[j]
                    + define_mark().len();
            lemma_no_overlap(bytes@, define_mark(), defined@[j] as int, at);
        }
        assert forall|at: int| #[trigger] bytes_at(bytes@, machine_mark(), at) implies exists|j: int|
            0 <= j < opened@.len() && #[trigger] opened@[j] == at by {
            let j = choose|j: int|
                0 <= j < opened@.len() && (#[trigger] opened@[j]) <= at < opened@[j]
                    + machine_mark().len();
            lemma_no_overlap(bytes@, machine_mark(), opened@[j] as int, at);
        }
        assert forall|name: Seq<char>| #[trigger] is_in(names@, name) <==> mentions(
            bytes@,
            name,
        ) by {
            if is_in(names@, name) {
                if is_in(ir_names, name) {
                    let j = choose|j: int|
                        0 <= j < k && is_ir_name(bytes@, #[trigger] defined@[j] as int, name);
                    assert(bytes_at(bytes@, define_mark(), defined@[j] as int));
                } else {
                    let j = choose|j: int|
                        0 <= j < m && is_machine_name(bytes@, #[trigger] opened@[j] as int, name);
                    assert(bytes_at(bytes@, machine_mark(), opened@[j] as int));
                }
            }
            if mentions(bytes@, name) {
                if exists|at: int| #[trigger]
                    bytes_at(bytes@, define_mark(), at) && is_ir_name(bytes@, at, name) {
                    let at = choose|at: int| #[trigger]
                        bytes_at(bytes@, define_mark(), at) && is_ir_name(bytes@, at, name);
                    let j = choose|j: int| 0 <= j < defined@.len() && #[trigger] defined@[j] == at;
                    assert(is_in(ir_names, name));
                } else {
                    let at = choose|at: int| #[trigger]
                        bytes_at(bytes@, machine_mark(), at) && is_machine_name(bytes@, at, name);
                    let j = choose|j: int| 0 <= j < opened@.len() && #[trigger] opened@[j] == at;
                    assert(is_in(names@, name));
                }
            }
        }
    }
    add_dialect_names(&mut names, dump);
    Some(names_in(&names))
}

/// Lists the functions that a dump opens.
pub fn list_functions(dump: &str) -> (res: Vec<String>)
    requires
        names_readable(encode_utf8(dump@)),
    ensures
        lists_functions(dump@, string_texts(res@)),
{
    try_list_functions(dump).unwrap()
}

/// A list of names in ascending order, each of them once.
pub open spec fn is_listing(listing: Seq<Seq<char>>, names: Seq<Seq<char>>) -> bool {
    &&& ascending(listing)
    &&& listing.no_duplicates()
    &&& forall|name: Seq<char>| #[trigger] listing.contains(name) <==> names.contains(name)
}

/// Lists names as they are shown, in ascending order and each of them once. `outcomes` is what the
/// demangler has written for each of them, where it was run.
pub fn listed_names(
    names: &Vec<String>,
    should_demangle: bool,
    outcomes: &Vec<Option<Vec<u8>>>,
) -> (res: Vec<String>)
    ensures
        is_listing(
            string_texts(res@),
            demangled_texts(string_texts(names@), should_demangle, outcomes@),
        ),
{
    let shown = demangle_names(names, should_demangle, outcomes);
    let ghost texts = string_texts(shown@);
    let mut distinct: FunctionTable<()> = FunctionTable::new();
    let mut i: usize = 0;
    while i < shown.len()
        invariant
            texts == string_texts(shown@),
            i <= shown@.len(),
            forall|name: Seq<char>| #[trigger]
                is_in(distinct@, name) <==> texts.take(i as int).contains(name),
        decreases shown@.len() - i,
    {
        let ghost before = distinct@;
        add_name(&mut distinct, shown[i].as_str());
        proof {
            let less = texts.take(i as int);
            let more = texts.take(i + 1);
            assert(more =~= less.push(texts[i as int]));
            assert forall|name: Seq<char>| #[trigger] is_in(distinct@, name) <==> more.contains(
                name,
            ) by {
                assert(is_in(before, name) <==> less.contains(name));
                if less.contains(name) {
                    let k = choose|k: int| 0 <= k < less.len() && less[k] == name;
                    assert(more[k] == name);
                }
                assert(more[i as int] == texts[i as int]);
                if more.contains(name) {
                    let k = choose|k: int| 0 <= k < more.len() && more[k] == name;
                    if k < i {
                        assert(less[k] == name);
                    }
                }
            }
        }
        i += 1;
    }
    proof {
        assert(texts.take(i as int) =~= texts);
    }
    let names = names_in(&distinct);
    let ghost unsorted = string_texts(names@);
    let res = sort_names(names);
    proof {
        lemma_same_names(string_texts(res@), unsorted);
        assert forall|name: Seq<char>| #[trigger] string_texts(res@).contains(name)
            <==> texts.contains(name) by {
            assert(unsorted.contains(name) <==> is_in(distinct@, name));
        }
    }
    res
}

/// The bytes of a text end in a line feed where the text does.
proof fn lemma_ends_in_line_feed(text: Seq<char>)
    requires
        text.len() > 0,
        text.last() == '\n',
    ensures
        encode_utf8(text).len() > 0,
        encode_utf8(text).last() == 0x0a,
{
    let feed = seq!['\n'];
    assert(text =~= text.drop_last() + feed);
    lemma_encode_concat(text.drop_last(), feed);
    assert(is_ascii_chars(feed));
    is_ascii_chars_encode_utf8(feed);
    assert(feed[0] as u8 == encode_utf8(feed)[0]);
}

/// The marks hold no line feed.
proof fn lemma_marks_within_line()
    ensures
        !define_mark().contains(0x0a),
        !machine_mark().contains(0x0a),
{
    reveal_strlit("define ");
    reveal_strlit("# Machine code for function ");
    let define = "define "@;
    let machine = "# Machine code for function "@;
    assert(is_ascii_chars(define));
    assert(is_ascii_chars(machine));
    is_ascii_chars_encode_utf8(define);
    is_ascii_chars_encode_utf8(machine);
    assert forall|i: int| 0 <= i < define_mark().len() implies define_mark()[i] != 0x0a by {
        assert(define[i] as u8 == define_mark()[i]);
    }
    assert forall|i: int| 0 <= i < machine_mark().len() implies machine_mark()[i] != 0x0a by {
        assert(machine[i] as u8 == machine_mark()[i]);
    }
}

/// A mark without a line feed stands in one of two parts, where the first one ends in a line feed.
proof fn lemma_mark_in_part(first: Seq<u8>, second: Seq<u8>, mark: Seq<u8>, at: int)
    requires
        first.len() == 0 || first.last() == 0x0a,
        !mark.contains(0x0a),
        mark.len() > 0,
    ensures
        bytes_at(first + second, mark, at) <==> bytes_at(first, mark, at) || bytes_at(
            second,
            mark,
            at - first.len(),
        ),
{
    let whole = first + second;
    let len = first.len() as int;
    let end = at + mark.len();
    if bytes_at(whole, mark, at) {
        if end <= len {
            assert(first.subrange(at, end) =~= whole.subrange(at, end));
        } else if at >= len {
            assert(second.subrange(at - len, end - len) =~= whole.subrange(at, end));
        } else {
            assert(whole.subrange(at, end)[len - 1 - at] == first.last());
            assert(mark.contains(0x0a));
        }
    }
    if bytes_at(first, mark, at) {
        assert(first.subrange(at, end) =~= whole.subrange(at, end));
    }
    if bytes_at(second, mark, at - len) {
        assert(second.subrange(at - len, end - len) =~= whole.subrange(at, end));
    }
}

proof fn lemma_next_in_first(first: Seq<u8>, second: Seq<u8>, byte: u8, from: int, at: int)
    requires
        0 <= from,
        is_next(first, byte, from, at),
    ensures
        is_next(first + second, byte, from, at),
{
}

proof fn lemma_next_in_second(first: Seq<u8>, second: Seq<u8>, byte: u8, from: int, at: int)
    requires
        0 <= from,
        is_next(second, byte, from, at),
    ensures
        is_next(first + second, byte, first.len() + from, first.len() + at),
{
    let whole = first + second;
    let len = first.len() as int;
    assert forall|i: int| len + from <= i < len + at implies whole[i] != byte by {
        assert(second[i - len] != byte);
    }
}

/// A name that is read in the first part is read in the whole.
proof fn lemma_name_in_first(first: Seq<u8>, second: Seq<u8>, at: int, name: Seq<char>)
    requires
        0 <= at,
    ensures
        is_ir_name(first, at, name) ==> is_ir_name(first + second, at, name),
        is_machine_name(first, at, name) ==> is_machine_name(first + second, at, name),
{
    let whole = first + second;
    if is_ir_name(first, at, name) {
        let (s, e) = choose|s: int, e: int| #[trigger]
            is_next(first, 0x40, at, s) && #[trigger] is_next(first, 0x28, s + 1, e) && encode_utf8(
                name,
            ) == first.subrange(s + 1, e);
        lemma_next_in_first(first, second, 0x40, at, s);
        lemma_next_in_first(first, second, 0x28, s + 1, e);
        assert(first.subrange(s + 1, e) =~= whole.subrange(s + 1, e));
    }
    if is_machine_name(first, at, name) {
        let from = at + machine_mark().len();
        let e = choose|e: int| #[trigger]
            is_next(first, 0x3a, from, e) && encode_utf8(name) == first.subrange(from, e);
        lemma_next_in_first(first, second, 0x3a, from, e);
        assert(first.subrange(from, e) =~= whole.subrange(from, e));
    }
}

/// A name that is read in the second part is read in the whole.
proof fn lemma_name_in_second(first: Seq<u8>, second: Seq<u8>, at: int, name: Seq<char>)
    requires
        0 <= at,
    ensures
        is_ir_name(second, at, name) ==> is_ir_name(first + second, first.len() + at, name),
        is_machine_name(second, at, name) ==> is_machine_name(
            first + second,
            first.len() + at,
            name,
        ),
{
    let whole = first + second;
    let len = first.len() as int;
    if is_ir_name(second, at, name) {
        let (s, e) = choose|s: int, e: int| #[trigger]
            is_next(second, 0x40, at, s) && #[trigger] is_next(second, 0x28, s + 1, e)
                && encode_utf8(name) == second.subrange(s + 1, e);
        lemma_next_in_second(first, second, 0x40, at, s);
        lemma_next_in_second(first, second, 0x28, s + 1, e);
        assert(second.subrange(s + 1, e) =~= whole.subrange(len + s + 1, len + e));
        assert(is_next(whole, 0x40, len + at, len + s));
        assert(is_next(whole, 0x28, (len + s) + 1, len + e));
    }
    if is_machine_name(second, at, name) {
        let from = at + machine_mark().len();
        let e = choose|e: int| #[trigger]
            is_next(second, 0x3a, from, e) && encode_utf8(name) == second.subrange(from, e);
        lemma_next_in_second(first, second, 0x3a, from, e);
        assert(second.subrange(from, e) =~= whole.subrange(len + from, len + e));
        assert(is_next(whole, 0x3a, (len + at) + machine_mark().len(), len + e));
    }
}

/// A function that a part of a text opens is one that the text opens, where the part before it
/// ends in a line feed.
pub proof fn lemma_listed_in_whole(first: Seq<char>, second: Seq<char>, name: Seq<char>)
    requires
        first.len() == 0 || first.last() == '\n',
        is_listed(first, name) || is_listed(second, name),
    ensures
        is_listed(first + second, name),
{
    let a = encode_utf8(first);
    let b = encode_utf8(second);
    lemma_encode_concat(first, second);
    lemma_lines_concat(first, second);
    if in_dialect(first, name) {
        let i = choose|i: int|
            0 <= i < lines(first).len() && names_dialect(#[trigger] lines(first)[i], name);
        assert(lines(first + second)[i] == lines(first)[i]);
    } else if in_dialect(second, name) {
        let i = choose|i: int|
            0 <= i < lines(second).len() && names_dialect(#[trigger] lines(second)[i], name);
        assert(lines(first + second)[lines(first).len() + i] == lines(second)[i]);
    } else {
        lemma_line_feed_between(first);
        lemma_marks();
        if mentions(a, name) {
            if exists|at: int| #[trigger]
                bytes_at(a, define_mark(), at) && is_ir_name(a, at, name) {
                let at = choose|at: int| #[trigger]
                    bytes_at(a, define_mark(), at) && is_ir_name(a, at, name);
                lemma_mark_in_part(a, b, define_mark(), at);
                lemma_name_in_first(a, b, at, name);
            } else {
                let at = choose|at: int| #[trigger]
                    bytes_at(a, machine_mark(), at) && is_machine_name(a, at, name);
                lemma_mark_in_part(a, b, machine_mark(), at);
                lemma_name_in_first(a, b, at, name);
            }
        } else {
            if exists|at: int| #[trigger]
                bytes_at(b, define_mark(), at) && is_ir_name(b, at, name) {
                let at = choose|at: int| #[trigger]
                    bytes_at(b, define_mark(), at) && is_ir_name(b, at, name);
                lemma_mark_in_part(a, b, define_mark(), a.len() + at);
                lemma_name_in_second(a, b, at, name);
            } else {
                let at = choose|at: int| #[trigger]
                    bytes_at(b, machine_mark(), at) && is_machine_name(b, at, name);
                lemma_mark_in_part(a, b, machine_mark(), a.len() + at);
                lemma_name_in_second(a, b, at, name);
            }
        }
    }
}

/// A line feed at the end of a part of a text tells the marks in it from those behind it.
proof fn lemma_line_feed_between(first: Seq<char>)
    requires
        first.len() == 0 || first.last() == '\n',
    ensures
        encode_utf8(first).len() == 0 || encode_utf8(first).last() == 0x0a,
        !define_mark().contains(0x0a),
        !machine_mark().contains(0x0a),
{
    lemma_marks_within_line();
    if first.len() > 0 {
        lemma_ends_in_line_feed(first);
    } else {
        assert(encode_utf8(first) =~= Seq::<u8>::empty());
    }
}

/// The names in two parts of a text can be read in the whole, where the first one ends in a line
/// feed.
pub proof fn lemma_whole_readable(first: Seq<char>, second: Seq<char>)
    requires
        first.len() == 0 || first.last() == '\n',
        names_readable(encode_utf8(first)),
        names_readable(encode_utf8(second)),
    ensures
        names_readable(encode_utf8(first + second)),
{
    lemma_names_in_parts(first, second);
}

/// What the whole of a text mentions is mentioned in one of its parts.
proof fn lemma_names_in_parts(first: Seq<char>, second: Seq<char>)
    requires
        first.len() == 0 || first.last() == '\n',
        names_readable(encode_utf8(first)),
        names_readable(encode_utf8(second)),
    ensures
        names_readable(encode_utf8(first + second)),
        forall|at: int, name: Seq<char>| #[trigger]
            is_ir_name(encode_utf8(first + second), at, name) && bytes_at(
                encode_utf8(first + second),
                define_mark(),
                at,
            ) ==> mentions(encode_utf8(first), name) || mentions(encode_utf8(second), name),
        forall|at: int, name: Seq<char>| #[trigger]
            is_machine_name(encode_utf8(first + second), at, name) && bytes_at(
                encode_utf8(first + second),
                machine_mark(),
                at,
            ) ==> mentions(encode_utf8(first), name) || mentions(encode_utf8(second), name),
{
    let a = encode_utf8(first);
    let b = encode_utf8(second);
    let whole = encode_utf8(first + second);
    lemma_encode_concat(first, second);
    lemma_line_feed_between(first);
    lemma_marks();
    assert forall|at: int| #[trigger] bytes_at(whole, define_mark(), at) implies exists|
        own: Seq<char>,
    | is_ir_name(whole, at, own) && (mentions(a, own) || mentions(b, own)) by {
        lemma_mark_in_part(a, b, define_mark(), at);
        if bytes_at(a, define_mark(), at) {
            let own = choose|own: Seq<char>| is_ir_name(a, at, own);
            lemma_name_in_first(a, b, at, own);
            assert(mentions(a, own));
        } else {
            let from = at - a.len();
            let own = choose|own: Seq<char>| is_ir_name(b, from, own);
            lemma_name_in_second(a, b, from, own);
            assert(mentions(b, own));
        }
    }
    assert forall|at: int| #[trigger] bytes_at(whole, machine_mark(), at) implies exists|
        own: Seq<char>,
    | is_machine_name(whole, at, own) && (mentions(a, own) || mentions(b, own)) by {
        lemma_mark_in_part(a, b, machine_mark(), at);
        if bytes_at(a, machine_mark(), at) {
            let own = choose|own: Seq<char>| is_machine_name(a, at, own);
            lemma_name_in_first(a, b, at, own);
            assert(mentions(a, own));
        } else {
            let from = at - a.len();
            let own = choose|own: Seq<char>| is_machine_name(b, from, own);
            lemma_name_in_second(a, b, from, own);
            assert(mentions(b, own));
        }
    }
    assert forall|at: int, name: Seq<char>| #[trigger] is_ir_name(whole, at, name) && bytes_at(
        whole,
        define_mark(),
        at,
    ) implies mentions(a, name) || mentions(b, name) by {
        let own = choose|own: Seq<char>|
            is_ir_name(whole, at, own) && (mentions(a, own) || mentions(b, own));
        lemma_ir_name_unique(whole, at, name, own);
    }
    assert forall|at: int, name: Seq<char>| #[trigger] is_machine_name(whole, at, name) && bytes_at(
        whole,
        machine_mark(),
        at,
    ) implies mentions(a, name) || mentions(b, name) by {
        let own = choose|own: Seq<char>|
            is_machine_name(whole, at, own) && (mentions(a, own) || mentions(b, own));
        lemma_machine_name_unique(whole, at, name, own);
    }
}

/// The list of two texts put together, the first of which ends in a line feed, holds the names of
/// both lists and no others.
pub proof fn lemma_lists_of_parts(
    first: Seq<char>,
    second: Seq<char>,
    first_names: Seq<Seq<char>>,
    second_names: Seq<Seq<char>>,
    all_names: Seq<Seq<char>>,
)
    requires
        first.len() == 0 || first.last() == '\n',
        names_readable(encode_utf8(first)),
        names_readable(encode_utf8(second)),
        lists_functions(first, first_names),
        lists_functions(second, second_names),
        lists_functions(first + second, all_names),
    ensures
        forall|name: Seq<char>| #[trigger]
            all_names.contains(name) <==> first_names.contains(name) || second_names.contains(name),
{
    lemma_names_in_parts(first, second);
    lemma_lines_concat(first, second);
    let whole = first + second;
    assert forall|name: Seq<char>| #[trigger] all_names.contains(name) <==> first_names.contains(
        name,
    ) || second_names.contains(name) by {
        if is_listed(first, name) || is_listed(second, name) {
            lemma_listed_in_whole(first, second, name);
        }
        if in_dialect(whole, name) {
            let i = choose|i: int|
                0 <= i < lines(whole).len() && names_dialect(#[trigger] lines(whole)[i], name);
            if i < lines(first).len() {
                assert(lines(first)[i] == lines(whole)[i]);
            } else {
                assert(lines(second)[i - lines(first).len()] == lines(whole)[i]);
            }
        }
    }
}

/// There is one list of some names: in ascending order, each of them once.
pub proof fn lemma_one_listing(
    first: Seq<Seq<char>>,
    second: Seq<Seq<char>>,
    names: Seq<Seq<char>>,
)
    requires
        is_listing(first, names),
        is_listing(second, names),
    ensures
        first == second,
        forall|i: int, j: int|
            0 <= i < j < first.len() ==> first[i] != first[j] && in_order(
                #[trigger] first[i],
                #[trigger] first[j],
            ),
        forall|name: Seq<char>| #[trigger] first.contains(name) <==> names.contains(name),
{
    assert forall|name: Seq<char>| #[trigger] first.contains(name) <==> second.contains(name) by {
        assert(second.contains(name) <==> names.contains(name));
    }
    lemma_one_ascending_order(first, second);
}

/// A text names a function where a mark stands, then something, then a name between two more
/// marks.
pub open spec fn stands_between(
    text: Seq<char>,
    before: Seq<char>,
    between: Seq<char>,
    name: Seq<char>,
    after: Seq<char>,
) -> bool {
    &&& !between.contains('@')
    &&& !name.contains('(')
    &&& text == before + "define "@ + between + "@"@ + name + "("@ + after
}

/// A text names a function in machine code between a mark and a colon.
pub open spec fn stands_before_colon(
    text: Seq<char>,
    before: Seq<char>,
    name: Seq<char>,
    after: Seq<char>,
) -> bool {
    &&& !name.contains(':')
    &&& text == before + "# Machine code for function "@ + name + ":"@ + after
}

/// What the bytes of a text mention, told by its characters: the names between the first `@`
/// behind a `define` and the next bracket, and the names between the mark of machine code and the
/// next colon, wherever these stand in the text.
pub proof fn lemma_mentioned_names(text: Seq<char>, name: Seq<char>)
    ensures
        mentions(encode_utf8(text), name) <==> {
            ||| exists|before: Seq<char>, between: Seq<char>, after: Seq<char>| #[trigger]
                stands_between(text, before, between, name, after)
            ||| exists|before: Seq<char>, after: Seq<char>| #[trigger]
                stands_before_colon(text, before, name, after)
        },
{
    let bytes = encode_utf8(text);
    if mentions(bytes, name) {
        if exists|at: int| #[trigger] bytes_at(bytes, define_mark(), at) && is_ir_name(
            bytes,
            at,
            name,
        ) {
            let at = choose|at: int| #[trigger]
                bytes_at(bytes, define_mark(), at) && is_ir_name(bytes, at, name);
            lemma_ir_mention_in_text(text, at, name);
        } else {
            let at = choose|at: int| #[trigger]
                bytes_at(bytes, machine_mark(), at) && is_machine_name(bytes, at, name);
            lemma_machine_mention_in_text(text, at, name);
        }
    }
    if exists|before: Seq<char>, between: Seq<char>, after: Seq<char>| #[trigger]
        stands_between(text, before, between, name, after) {
        let (before, between, after) = choose|
            before: Seq<char>,
            between: Seq<char>,
            after: Seq<char>,
        | #[trigger] stands_between(text, before, between, name, after);
        lemma_text_mentions_ir(text, before, between, name, after);
    }
    if exists|before: Seq<char>, after: Seq<char>| #[trigger]
        stands_before_colon(text, before, name, after) {
        let (before, after) = choose|before: Seq<char>, after: Seq<char>| #[trigger]
            stands_before_colon(text, before, name, after);
        lemma_text_mentions_machine(text, before, name, after);
    }
}

/// A text without an ASCII character has bytes without its byte.
proof fn lemma_no_byte(text: Seq<char>, c: char)
    requires
        c <= '\u{7f}',
        !text.contains(c),
    ensures
        forall|i: int| 0 <= i < encode_utf8(text).len() ==> encode_utf8(text)[i] != c as u8,
{
    let mark = seq![c];
    let bytes = encode_utf8(text);
    assert(is_ascii_chars(mark));
    is_ascii_chars_encode_utf8(mark);
    assert(mark[0] as u8 == encode_utf8(mark)[0]);
    assert forall|i: int| 0 <= i < bytes.len() implies bytes[i] != c as u8 by {
        if bytes[i] == c as u8 {
            assert(bytes.subrange(i, i + 1) =~= encode_utf8(mark));
            let at = lemma_bytes_occurrence(text, mark, i);
            assert(text.subrange(at, at + 1)[0] == text[at]);
        }
    }
}

/// A text whose bytes hold no byte of an ASCII character holds no such character.
proof fn lemma_no_char(text: Seq<char>, c: char)
    requires
        c <= '\u{7f}',
        forall|i: int| 0 <= i < encode_utf8(text).len() ==> encode_utf8(text)[i] != c as u8,
    ensures
        !text.contains(c),
{
    if text.contains(c) {
        let k = choose|k: int| 0 <= k < text.len() && text[k] == c;
        let mark = seq![c];
        assert(is_ascii_chars(mark));
        is_ascii_chars_encode_utf8(mark);
        assert(mark[0] as u8 == encode_utf8(mark)[0]);
        assert(text.subrange(k, k + 1) =~= mark);
        lemma_occurrence_bytes(text, mark, k);
        let at = encode_utf8(text.take(k)).len() as int;
        assert(encode_utf8(text).subrange(at, at + 1)[0] == encode_utf8(text)[at]);
    }
}

/// The characters of a text before and behind a byte of an ASCII character.
proof fn lemma_split_at_byte(text: Seq<char>, c: char, at: int) -> (k: int)
    requires
        c <= '\u{7f}',
        0 <= at < encode_utf8(text).len(),
        encode_utf8(text)[at] == c as u8,
    ensures
        0 <= k < text.len(),
        text[k] == c,
        encode_utf8(text.take(k)) == encode_utf8(text).subrange(0, at),
        encode_utf8(text.skip(k + 1)) == encode_utf8(text).subrange(
            at + 1,
            encode_utf8(text).len() as int,
        ),
{
    let mark = seq![c];
    let bytes = encode_utf8(text);
    assert(is_ascii_chars(mark));
    is_ascii_chars_encode_utf8(mark);
    assert(mark[0] as u8 == encode_utf8(mark)[0]);
    assert(bytes.subrange(at, at + 1) =~= encode_utf8(mark));
    let k = lemma_bytes_occurrence(text, mark, at);
    assert(text.subrange(k, k + 1)[0] == text[k]);
    let rest = text.skip(k + 1);
    assert(text =~= text.take(k) + mark + rest);
    lemma_encode_concat(text.take(k) + mark, rest);
    lemma_encode_concat(text.take(k), mark);
    assert(encode_utf8(rest) =~= bytes.subrange(at + 1, bytes.len() as int));
    k
}

#[verifier::rlimit(30)]
proof fn lemma_ir_mention_in_text(text: Seq<char>, at: int, name: Seq<char>)
    requires
        bytes_at(encode_utf8(text), define_mark(), at),
        is_ir_name(encode_utf8(text), at, name),
    ensures
        exists|before: Seq<char>, between: Seq<char>, after: Seq<char>| #[trigger]
            stands_between(text, before, between, name, after),
{
    let bytes = encode_utf8(text);
    let mark = "define "@;
    reveal_strlit("define ");
    reveal_strlit("@");
    reveal_strlit("(");
    let (s, e) = choose|s: int, e: int| #[trigger]
        is_next(bytes, 0x40, at, s) && #[trigger] is_next(bytes, 0x28, s + 1, e) && encode_utf8(
            name,
        ) == bytes.subrange(s + 1, e);
    let start = lemma_bytes_occurrence(text, mark, at);
    let before = text.take(start);
    let tail = text.skip(start + mark.len());
    assert(text =~= before + mark + tail);
    lemma_encode_concat(before + mark, tail);
    lemma_encode_concat(before, mark);
    let from = at + define_mark().len();
    assert(encode_utf8(tail) =~= bytes.subrange(from, bytes.len() as int));
    assert(is_ascii_chars(mark));
    is_ascii_chars_encode_utf8(mark);
    assert(s >= from) by {
        if s < from {
            assert(bytes.subrange(at, from)[s - at] == bytes[s]);
            assert(mark[s - at] as u8 == define_mark()[s - at]);
        }
    }
    let k = lemma_split_at_byte(tail, '@', s - from);
    let between = tail.take(k);
    let rest = tail.skip(k + 1);
    assert(encode_utf8(rest) =~= bytes.subrange(s + 1, bytes.len() as int));
    assert forall|i: int| 0 <= i < encode_utf8(between).len() implies encode_utf8(between)[i]
        != '@' as u8 by {
        assert(encode_utf8(between)[i] == bytes[from + i]);
    }
    lemma_no_char(between, '@');
    let m = lemma_split_at_byte(rest, '(', e - s - 1);
    let own = rest.take(m);
    assert(encode_utf8(own) =~= bytes.subrange(s + 1, e));
    lemma_encode_injective(own, name);
    assert forall|i: int| 0 <= i < encode_utf8(name).len() implies encode_utf8(name)[i]
        != '(' as u8 by {
        assert(encode_utf8(name)[i] == bytes[s + 1 + i]);
    }
    lemma_no_char(name, '(');
    let after = rest.skip(m + 1);
    assert(tail =~= between + "@"@ + rest);
    assert(rest =~= name + "("@ + after);
    lemma_pieces_in_row(before + mark, between, "@"@, name + "("@ + after);
    lemma_pieces_in_row(before + mark + between + "@"@, name, "("@, after);
    assert(stands_between(text, before, between, name, after));
}

proof fn lemma_pieces_in_row(first: Seq<char>, a: Seq<char>, b: Seq<char>, c: Seq<char>)
    ensures
        first + (a + b + c) == first + a + b + c,
{
    assert(first + (a + b + c) =~= first + a + b + c);
}

proof fn lemma_machine_mention_in_text(text: Seq<char>, at: int, name: Seq<char>)
    requires
        bytes_at(encode_utf8(text), machine_mark(), at),
        is_machine_name(encode_utf8(text), at, name),
    ensures
        exists|before: Seq<char>, after: Seq<char>| #[trigger]
            stands_before_colon(text, before, name, after),
{
    let bytes = encode_utf8(text);
    let mark = "# Machine code for function "@;
    reveal_strlit("# Machine code for function ");
    reveal_strlit(":");
    let from = at + machine_mark().len();
    let e = choose|e: int| #[trigger]
        is_next(bytes, 0x3a, from, e) && encode_utf8(name) == bytes.subrange(from, e);
    let start = lemma_bytes_occurrence(text, mark, at);
    let before = text.take(start);
    let tail = text.skip(start + mark.len());
    assert(text =~= before + mark + tail);
    lemma_encode_concat(before + mark, tail);
    lemma_encode_concat(before, mark);
    assert(encode_utf8(tail) =~= bytes.subrange(from, bytes.len() as int));
    let m = lemma_split_at_byte(tail, ':', e - from);
    let own = tail.take(m);
    assert(encode_utf8(own) =~= bytes.subrange(from, e));
    lemma_encode_injective(own, name);
    assert forall|i: int| 0 <= i < encode_utf8(name).len() implies encode_utf8(name)[i]
        != ':' as u8 by {
        assert(encode_utf8(name)[i] == bytes[from + i]);
    }
    lemma_no_char(name, ':');
    let after = tail.skip(m + 1);
    assert(text =~= before + mark + name + ":"@ + after);
    assert(stands_before_colon(text, before, name, after));
}

proof fn lemma_text_mentions_ir(
    text: Seq<char>,
    before: Seq<char>,
    between: Seq<char>,
    name: Seq<char>,
    after: Seq<char>,
)
    requires
        stands_between(text, before, between, name, after),
    ensures
        mentions(encode_utf8(text), name),
{
    reveal_strlit("define ");
    reveal_strlit("@");
    reveal_strlit("(");
    let bytes = encode_utf8(text);
    let mark = "define "@;
    lemma_encode_concat(before + mark + between + "@"@ + name + "("@, after);
    lemma_encode_concat(before + mark + between + "@"@ + name, "("@);
    lemma_encode_concat(before + mark + between + "@"@, name);
    lemma_encode_concat(before + mark + between, "@"@);
    lemma_encode_concat(before + mark, between);
    lemma_encode_concat(before, mark);
    assert(is_ascii_chars("@"@) && is_ascii_chars("("@) && is_ascii_chars(mark));
    is_ascii_chars_encode_utf8("@"@);
    is_ascii_chars_encode_utf8("("@);
    is_ascii_chars_encode_utf8(mark);
    assert("@"@[0] as u8 == encode_utf8("@"@)[0]);
    assert("("@[0] as u8 == encode_utf8("("@)[0]);
    lemma_no_byte(between, '@');
    lemma_no_byte(name, '(');
    let at = encode_utf8(before).len() as int;
    let from = at + define_mark().len();
    let s = from + encode_utf8(between).len();
    let e = s + 1 + encode_utf8(name).len();
    assert(bytes.subrange(at, from) =~= define_mark());
    assert(bytes_at(bytes, define_mark(), at));
    assert forall|i: int| at <= i < s implies bytes[i] != 0x40 by {
        if i < from {
            assert(bytes[i] == define_mark()[i - at]);
            assert(mark[i - at] as u8 == define_mark()[i - at]);
        } else {
            assert(bytes[i] == encode_utf8(between)[i - from]);
        }
    }
    assert(is_next(bytes, 0x40, at, s));
    assert forall|i: int| s + 1 <= i < e implies bytes[i] != 0x28 by {
        assert(bytes[i] == encode_utf8(name)[i - s - 1]);
    }
    assert(is_next(bytes, 0x28, s + 1, e));
    assert(bytes.subrange(s + 1, e) =~= encode_utf8(name));
    assert(is_ir_name(bytes, at, name));
}

proof fn lemma_text_mentions_machine(
    text: Seq<char>,
    before: Seq<char>,
    name: Seq<char>,
    after: Seq<char>,
)
    requires
        stands_before_colon(text, before, name, after),
    ensures
        mentions(encode_utf8(text), name),
{
    reveal_strlit(":");
    let bytes = encode_utf8(text);
    let mark = "# Machine code for function "@;
    lemma_encode_concat(before + mark + name + ":"@, after);
    lemma_encode_concat(before + mark + name, ":"@);
    lemma_encode_concat(before + mark, name);
    lemma_encode_concat(before, mark);
    assert(is_ascii_chars(":"@));
    is_ascii_chars_encode_utf8(":"@);
    assert(":"@[0] as u8 == encode_utf8(":"@)[0]);
    lemma_no_byte(name, ':');
    let at = encode_utf8(before).len() as int;
    let from = at + machine_mark().len();
    let e = from + encode_utf8(name).len();
    assert(bytes.subrange(at, from) =~= machine_mark());
    assert(bytes_at(bytes, machine_mark(), at));
    assert forall|i: int| from <= i < e implies bytes[i] != 0x3a by {
        assert(bytes[i] == encode_utf8(name)[i - from]);
    }
    assert(is_next(bytes, 0x3a, from, e));
    assert(bytes.subrange(from, e) =~= encode_utf8(name));
    assert(is_machine_name(bytes, at, name));
}

/// The functions that a text lists are those it mentions, and those that its lines open in IR
/// without `define`.
pub proof fn lemma_listed_names(dump: Seq<char>, name: Seq<char>)
    ensures
        is_listed(dump, name) <==> {
            ||| mentions(encode_utf8(dump), name)
            ||| exists|i: int|
                0 <= i < lines(dump).len() && is_ir_function(#[trigger] lines(dump)[i])
                    && !"define "@.is_prefix_of(lines(dump)[i]) && ir_function_name(lines(dump)[i])
                    == Some(name)
        },
{
    if in_dialect(dump, name) {
        let i = choose|i: int|
            0 <= i < lines(dump).len() && names_dialect(#[trigger] lines(dump)[i], name);
        assert(is_ir_function(lines(dump)[i]));
    }
    if exists|i: int|
        0 <= i < lines(dump).len() && is_ir_function(#[trigger] lines(dump)[i])
            && !"define "@.is_prefix_of(lines(dump)[i]) && ir_function_name(lines(dump)[i]) == Some(
            name,
        ) {
        let i = choose|i: int|
            0 <= i < lines(dump).len() && is_ir_function(#[trigger] lines(dump)[i])
                && !"define "@.is_prefix_of(lines(dump)[i]) && ir_function_name(lines(dump)[i])
                == Some(name);
        assert(names_dialect(lines(dump)[i], name));
    }
}

} // verus!
