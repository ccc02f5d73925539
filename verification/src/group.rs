//! Gathers the dumps of each function.
use crate::dump::{dump_models, optional_text, PassDump, PassDumpModel};
use crate::split::{function_lines, loop_name, SplitModel, SplitPassDump};
use crate::table::{
    distinct_names, entry_position, lemma_entry_position, lemma_mapped_position,
    lemma_mapped_with_entry, lemma_with_entry_distinct, lemma_with_entry_found, mapped_entries,
    with_entry, FunctionTable,
};
use crate::text::{join_text, joined, same_text, starts_with, string_texts};
use vstd::prelude::*;
use vstd::string::*;

verus! {

/// The dumps of each function in a table.
pub open spec fn function_dumps(
    entries: Seq<(Seq<char>, Vec<PassDump>)>,
) -> Seq<(Seq<char>, Seq<PassDumpModel>)> {
    mapped_entries(entries, |dumps: Vec<PassDump>| dump_models(dumps@))
}

/// What a sequence of split dumps holds.
pub open spec fn split_models(splits: Seq<SplitPassDump>) -> Seq<SplitModel> {
    splits.map_values(|split: SplitPassDump| split@)
}

/// The functions that one pass shows, each with the dump of it.
pub open spec fn shown_by(split: SplitModel) -> Seq<(Seq<char>, PassDumpModel)> {
    split.functions.map_values(
        |function: (Seq<char>, Seq<Seq<char>>)|
            (
                function.0,
                PassDumpModel {
                    header: split.header,
                    affected_function: None,
                    machine: split.machine,
                    lines: joined(function.1, "\n"@),
                },
            ),
    )
}

/// The functions that all passes show, pass by pass.
pub open spec fn shown(splits: Seq<SplitModel>) -> Seq<(Seq<char>, PassDumpModel)>
    decreases splits.len(),
{
    if splits.len() == 0 {
        Seq::empty()
    } else {
        shown(splits.drop_last()) + shown_by(splits.last())
    }
}

/// The dumps with the name of the function that each belongs to.
/// A loop belongs to the function of the dump before it.
pub open spec fn owned(dumps: Seq<(Seq<char>, PassDumpModel)>) -> Seq<(Seq<char>, PassDumpModel)>
    decreases dumps.len(),
{
    if dumps.len() == 0 {
        Seq::empty()
    } else {
        let before = owned(dumps.drop_last());
        let (name, dump) = dumps.last();
        let owner = if name == loop_name() {
            before.last().0
        } else {
            name
        };
        before.push((owner, dump))
    }
}

/// Every loop has a dump before it to belong to.
pub open spec fn loops_have_owners(dumps: Seq<(Seq<char>, PassDumpModel)>) -> bool {
    dumps.len() > 0 ==> dumps[0].0 != loop_name()
}

/// The groups with one more item for `name`.
pub open spec fn with_item<A>(
    groups: Seq<(Seq<char>, Seq<A>)>,
    name: Seq<char>,
    item: A,
) -> Seq<(Seq<char>, Seq<A>)> {
    let items = match entry_position(groups, name) {
        Some(i) => groups[i].1,
        None => Seq::empty(),
    };
    with_entry(groups, name, items.push(item))
}

/// The items gathered by name. The names come in the order of their first items.
pub open spec fn grouped<A>(items: Seq<(Seq<char>, A)>) -> Seq<(Seq<char>, Seq<A>)>
    decreases items.len(),
{
    if items.len() == 0 {
        Seq::empty()
    } else {
        with_item(grouped(items.drop_last()), items.last().0, items.last().1)
    }
}

/// The dumps of each function, where every pass shows the functions that it has changed.
/// It is `None` where a loop comes before any function.
pub open spec fn dumps_by_function(
    splits: Seq<SplitModel>,
) -> Option<Seq<(Seq<char>, Seq<PassDumpModel>)>> {
    if loops_have_owners(shown(splits)) {
        Some(grouped(owned(shown(splits))))
    } else {
        None
    }
}

proof fn lemma_owned_len(dumps: Seq<(Seq<char>, PassDumpModel)>)
    ensures
        owned(dumps).len() == dumps.len(),
    decreases dumps.len(),
{
    if dumps.len() > 0 {
        lemma_owned_len(dumps.drop_last());
    }
}

/// What the first passes show comes first.
proof fn lemma_shown_prefix(splits: Seq<SplitModel>, n: int)
    requires
        0 <= n <= splits.len(),
    ensures
        shown(splits.take(n)).is_prefix_of(shown(splits)),
    decreases splits.len() - n,
{
    if n == splits.len() {
        assert(splits.take(n) =~= splits);
    } else {
        lemma_shown_prefix(splits, n + 1);
        assert(splits.take(n + 1).drop_last() =~= splits.take(n));
        let some = shown(splits.take(n));
        let more = shown(splits.take(n + 1));
        assert(more == some + shown_by(splits[n]));
        assert(some =~= more.take(some.len() as int));
        assert(some =~= shown(splits).take(some.len() as int));
    }
}

/// Adds a dump to those of a function.
fn add_dump(table: &mut FunctionTable<Vec<PassDump>>, name: &str, dump: PassDump)
    requires
        distinct_names(old(table)@),
    ensures
        distinct_names(final(table)@),
        function_dumps(final(table)@) == with_item(function_dumps(old(table)@), name@, dump@),
{
    let ghost f = |dumps: Vec<PassDump>| dump_models(dumps@);
    let ghost before = table@;
    proof {
        lemma_mapped_position(before, f, name@);
    }
    match table.position(name) {
        Some(i) => {
            table.push_at(i, dump);
            proof {
                assert(dump_models(table@[i as int].1@) =~= dump_models(before[i as int].1@).push(
                    dump@,
                ));
                assert(function_dumps(table@) =~= with_item(function_dumps(before), name@, dump@));
                assert forall|j: int, k: int| 0 <= j < k < table@.len() implies (
                #[trigger] table@[j]).0 != (#[trigger] table@[k]).0 by {
                    assert(before[j].0 != before[k].0);
                }
            }
        },
        None => {
            let mut dumps: Vec<PassDump> = Vec::new();
            dumps.push(dump);
            proof {
                assert(dump_models(dumps@) =~= Seq::empty().push(dump@));
                lemma_mapped_with_entry(before, f, name@, dumps);
            }
            table.insert(name.to_string(), dumps);
        },
    }
}

/// Gathers the dumps of each function, where every pass shows the functions that it has changed.
/// It is `None` where a loop comes before any function.
pub fn gather_by_function(pass_dumps: &Vec<SplitPassDump>) -> (res: Option<
    FunctionTable<Vec<PassDump>>,
>)
    ensures
        match res {
            Some(table) => {
                &&& dumps_by_function(split_models(pass_dumps@)) == Some(function_dumps(table@))
                &&& distinct_names(table@)
            },
            None => dumps_by_function(split_models(pass_dumps@)) is None,
        },
{
    let ghost splits = split_models(pass_dumps@);
    let mut table: FunctionTable<Vec<PassDump>> = FunctionTable::new();
    let mut previous_function: Option<String> = None;
    let mut s: usize = 0;
    proof {
        assert(splits.take(0) =~= Seq::<SplitModel>::empty());
        assert(function_dumps(table@) =~= grouped(owned(shown(splits.take(0)))));
    }
    while s < pass_dumps.len()
        invariant
            splits == split_models(pass_dumps@),
            s <= pass_dumps@.len(),
            distinct_names(table@),
            function_dumps(table@) == grouped(owned(shown(splits.take(s as int)))),
            loops_have_owners(shown(splits.take(s as int))),
            optional_text(previous_function) == if shown(splits.take(s as int)).len() == 0 {
                None
            } else {
                Some(owned(shown(splits.take(s as int))).last().0)
            },
        decreases pass_dumps@.len() - s,
    {
        let pass = &pass_dumps[s];
        let ghost before = shown(splits.take(s as int));
        let ghost own = shown_by(splits[s as int]);
        let functions: usize = pass.functions.len();
        proof {
            assert(splits.take(s + 1).drop_last() =~= splits.take(s as int));
            assert(own.take(0) =~= Seq::<(Seq<char>, PassDumpModel)>::empty());
            assert(before + own.take(0) =~= before);
            lemma_shown_prefix(splits, s + 1);
        }
        let mut e: usize = 0;
        while e < functions
            invariant
                splits == split_models(pass_dumps@),
                s < pass_dumps@.len(),
                pass == pass_dumps@[s as int],
                functions == pass.functions@.len(),
                before == shown(splits.take(s as int)),
                own == shown_by(splits[s as int]),
                own.len() == functions,
                shown(splits.take(s + 1)) == before + own,
                (before + own).is_prefix_of(shown(splits)),
                e <= functions,
                distinct_names(table@),
                function_dumps(table@) == grouped(owned(before + own.take(e as int))),
                loops_have_owners(before + own.take(e as int)),
                optional_text(previous_function) == if (before + own.take(e as int)).len() == 0 {
                    None
                } else {
                    Some(owned(before + own.take(e as int)).last().0)
                },
            decreases functions - e,
        {
            let function_name = pass.functions.name(e);
            let lines = pass.functions.value(e);
            let ghost seen = before + own.take(e as int);
            let ghost more = before + own.take(e + 1);
            let is_loop = same_text(function_name, "<loop>");
            proof {
                assert(own[e as int].0 == function_name@);
                assert(more =~= seen.push(own[e as int]));
                assert(more.drop_last() =~= seen);
                lemma_owned_len(seen);
                assert(function_lines(pass.functions@)[e as int].1 == string_texts(lines@));
            }
            let name = if is_loop {
                match &previous_function {
                    Some(name) => name.clone(),
                    None => {
                        proof {
                            assert(shown(splits)[0] == (before + own)[0]);
                            assert((before + own)[0] == more[0]);
                            assert(more[0] == own[e as int]);
                        }
                        return None;
                    },
                }
            } else {
                function_name.to_string()
            };
            let dump = PassDump {
                header: pass.header.clone(),
                affected_function: None,
                machine: pass.machine,
                lines: join_text(lines, "\n"),
            };
            proof {
                assert(dump@ =~= own[e as int].1);
                assert(owned(more) == owned(seen).push((name@, dump@)));
                assert(owned(more).drop_last() =~= owned(seen));
            }
            add_dump(&mut table, name.as_str(), dump);
            if !is_loop {
                previous_function = Some(name);
            }
            e += 1;
        }
        proof {
            assert(own.take(e as int) =~= own);
        }
        s += 1;
    }
    proof {
        assert(splits.take(s as int) =~= splits);
    }
    Some(table)
}

/// The name under which the whole module is gathered.
pub open spec fn full_module() -> Seq<char> {
    "<Full Module>"@
}

/// The names without those that came before.
pub open spec fn first_names(names: Seq<Seq<char>>) -> Seq<Seq<char>>
    decreases names.len(),
{
    if names.len() == 0 {
        Seq::empty()
    } else {
        let before = first_names(names.drop_last());
        if before.contains(names.last()) {
            before
        } else {
            before.push(names.last())
        }
    }
}

/// The functions that dumps name, in the order of the dumps.
pub open spec fn named_functions(dumps: Seq<PassDumpModel>) -> Seq<Seq<char>>
    decreases dumps.len(),
{
    if dumps.len() == 0 {
        Seq::empty()
    } else {
        let before = named_functions(dumps.drop_last());
        match dumps.last().affected_function {
            Some(name) => before.push(name),
            None => before,
        }
    }
}

/// The names under which dumps of whole modules are gathered.
pub open spec fn module_names(dumps: Seq<PassDumpModel>) -> Seq<Seq<char>> {
    first_names(named_functions(dumps).push(full_module()))
}

/// The function that a dump is about. A loop, whose name begins with `%`, stands for the function
/// of the dump before it.
pub open spec fn subject(dumps: Seq<PassDumpModel>, i: int) -> Option<Seq<char>>
    decreases i,
{
    match dumps[i].affected_function {
        Some(name) => if "%"@.is_prefix_of(name) {
            if i > 0 {
                subject(dumps, i - 1)
            } else {
                None
            }
        } else {
            Some(name)
        },
        None => None,
    }
}

/// Every loop stands for a function.
pub open spec fn subjects_known(dumps: Seq<PassDumpModel>) -> bool {
    forall|i: int|
        0 <= i < dumps.len() && (#[trigger] dumps[i]).affected_function is Some ==> subject(
            dumps,
            i,
        ) is Some
}

/// The dump of a whole module as it is gathered under the function that it is about.
pub open spec fn about(dump: PassDumpModel, name: Seq<char>) -> PassDumpModel {
    PassDumpModel {
        header: dump.header + " ("@ + name + ")"@,
        affected_function: Some(name),
        ..dump
    }
}

/// The first `count` dumps as they are gathered under a name: those about the function of that
/// name, and those about no function.
pub open spec fn module_dumps(
    dumps: Seq<PassDumpModel>,
    count: int,
    name: Seq<char>,
) -> Seq<PassDumpModel>
    decreases count,
{
    if count <= 0 {
        Seq::empty()
    } else {
        let before = module_dumps(dumps, count - 1, name);
        let dump = dumps[count - 1];
        if dump.affected_function is None {
            before.push(dump)
        } else if subject(dumps, count - 1) == Some(name) {
            before.push(about(dump, name))
        } else {
            before
        }
    }
}

/// The dumps of each function, where every pass shows the whole module.
/// It is `None` where a loop stands for no function.
pub open spec fn dumps_by_module(
    dumps: Seq<PassDumpModel>,
) -> Option<Seq<(Seq<char>, Seq<PassDumpModel>)>> {
    if subjects_known(dumps) {
        Some(
            module_names(dumps).map_values(
                |name: Seq<char>| (name, module_dumps(dumps, dumps.len() as int, name)),
            ),
        )
    } else {
        None
    }
}

/// The names in a list of entries.
pub open spec fn entry_names<A>(entries: Seq<(Seq<char>, A)>) -> Seq<Seq<char>> {
    entries.map_values(|entry: (Seq<char>, A)| entry.0)
}

/// Leaving out repeated names keeps every name.
proof fn lemma_first_names_contains(names: Seq<Seq<char>>, i: int)
    requires
        0 <= i < names.len(),
    ensures
        first_names(names).contains(names[i]),
    decreases names.len(),
{
    let before = first_names(names.drop_last());
    if i < names.len() - 1 {
        lemma_first_names_contains(names.drop_last(), i);
        let k = choose|k: int| 0 <= k < before.len() && before[k] == names[i];
        assert(first_names(names)[k] == names[i]);
    } else if !before.contains(names.last()) {
        assert(first_names(names)[before.len() as int] == names.last());
    }
}

/// The function of a dump is one that some dump names.
proof fn lemma_named_functions_contains(dumps: Seq<PassDumpModel>, i: int)
    requires
        0 <= i < dumps.len(),
        dumps[i].affected_function is Some,
    ensures
        named_functions(dumps).contains(dumps[i].affected_function->0),
    decreases dumps.len(),
{
    let before = named_functions(dumps.drop_last());
    let all = named_functions(dumps);
    let name = dumps[i].affected_function->0;
    if i < dumps.len() - 1 {
        lemma_named_functions_contains(dumps.drop_last(), i);
        let k = choose|k: int| 0 <= k < before.len() && before[k] == name;
        assert(all[k] == name);
    } else {
        assert(all[before.len() as int] == name);
    }
}

/// What a dump is about is a name under which dumps are gathered.
proof fn lemma_subject_named(dumps: Seq<PassDumpModel>, i: int)
    requires
        0 <= i < dumps.len(),
        subject(dumps, i) is Some,
    ensures
        module_names(dumps).contains(subject(dumps, i)->0),
    decreases i,
{
    let name = dumps[i].affected_function->0;
    if "%"@.is_prefix_of(name) {
        lemma_subject_named(dumps, i - 1);
    } else {
        lemma_named_functions_contains(dumps, i);
        let named = named_functions(dumps);
        let k = choose|k: int| 0 <= k < named.len() && named[k] == name;
        let all = named.push(full_module());
        assert(all[k] == name);
        lemma_first_names_contains(all, k);
    }
}

/// Makes sure that there is a list for a name.
fn add_name(table: &mut FunctionTable<Vec<PassDump>>, name: &str)
    requires
        distinct_names(old(table)@),
        forall|k: int| 0 <= k < old(table)@.len() ==> (#[trigger] old(table)@[k]).1@.len() == 0,
    ensures
        distinct_names(final(table)@),
        forall|k: int| 0 <= k < final(table)@.len() ==> (#[trigger] final(table)@[k]).1@.len() == 0,
        entry_names(final(table)@) == if entry_names(old(table)@).contains(name@) {
            entry_names(old(table)@)
        } else {
            entry_names(old(table)@).push(name@)
        },
{
    let ghost before = table@;
    match table.position(name) {
        Some(i) => {
            assert(entry_names(before)[i as int] == name@);
        },
        None => {
            proof {
                assert forall|k: int| 0 <= k < entry_names(before).len() implies entry_names(
                    before,
                )[k] != name@ by {
                    assert(before[k].0 != name@);
                }
            }
            table.insert(name.to_string(), Vec::new());
            assert(entry_names(table@) =~= entry_names(before).push(name@));
        },
    }
}

/// A copy of a dump.
fn copy_dump(dump: &PassDump) -> (res: PassDump)
    ensures
        res@ == dump@,
{
    PassDump {
        header: dump.header.clone(),
        affected_function: match &dump.affected_function {
            Some(name) => Some(name.clone()),
            None => None,
        },
        machine: dump.machine,
        lines: dump.lines.clone(),
    }
}

/// Gathers the dumps of each function, where every pass shows the whole module.
/// It is `None` where a loop stands for no function.
pub fn gather_by_module(pass_dumps: &Vec<PassDump>) -> (res: Option<FunctionTable<Vec<PassDump>>>)
    ensures
        match res {
            Some(table) => {
                &&& dumps_by_module(dump_models(pass_dumps@)) == Some(function_dumps(table@))
                &&& distinct_names(table@)
            },
            None => dumps_by_module(dump_models(pass_dumps@)) is None,
        },
{
    let ghost dumps = dump_models(pass_dumps@);
    let mut table: FunctionTable<Vec<PassDump>> = FunctionTable::new();
    let mut i: usize = 0;
    proof {
        assert(dumps.take(0) =~= Seq::<PassDumpModel>::empty());
        assert(entry_names(table@) =~= first_names(named_functions(dumps.take(0))));
    }
    while i < pass_dumps.len()
        invariant
            dumps == dump_models(pass_dumps@),
            i <= pass_dumps@.len(),
            distinct_names(table@),
            forall|k: int| 0 <= k < table@.len() ==> (#[trigger] table@[k]).1@.len() == 0,
            entry_names(table@) == first_names(named_functions(dumps.take(i as int))),
        decreases pass_dumps@.len() - i,
    {
        let pass = &pass_dumps[i];
        let ghost named = named_functions(dumps.take(i as int));
        proof {
            let more = dumps.take(i + 1);
            assert(more.drop_last() =~= dumps.take(i as int));
            assert(more.last() == pass@);
        }
        if let Some(func) = &pass.affected_function {
            add_name(&mut table, func.as_str());
            assert(named.push(func@).drop_last() =~= named);
        }
        i += 1;
    }
    proof {
        assert(dumps.take(i as int) =~= dumps);
        assert(named_functions(dumps).push(full_module()).drop_last() =~= named_functions(dumps));
    }
    add_name(&mut table, "<Full Module>");
    let names: usize = table.len();
    assert(forall|k: int|
        0 <= k < table@.len() ==> dump_models((#[trigger] table@[k]).1@) =~= Seq::<
            PassDumpModel,
        >::empty());
    let mut previous_function: Option<String> = None;
    let mut i: usize = 0;
    while i < pass_dumps.len()
        invariant
            dumps == dump_models(pass_dumps@),
            i <= pass_dumps@.len(),
            names == table@.len(),
            distinct_names(table@),
            entry_names(table@) == module_names(dumps),
            forall|k: int|
                0 <= k < table@.len() ==> dump_models((#[trigger] table@[k]).1@) == module_dumps(
                    dumps,
                    i as int,
                    table@[k].0,
                ),
            forall|j: int|
                0 <= j < i && (#[trigger] dumps[j]).affected_function is Some ==> subject(
                    dumps,
                    j,
                ) is Some,
            optional_text(previous_function) == if i == 0 {
                None
            } else {
                subject(dumps, i - 1)
            },
        decreases pass_dumps@.len() - i,
    {
        let pass = &pass_dumps[i];
        let ghost before = table@;
        assert(dumps[i as int] == pass@);
        if let Some(func) = &pass.affected_function {
            let func_name = if starts_with(func.as_str(), "%") {
                match &previous_function {
                    Some(name) => name.clone(),
                    None => {
                        assert(dumps[i as int].affected_function is Some);
                        return None;
                    },
                }
            } else {
                func.clone()
            };
            assert(subject(dumps, i as int) == Some(func_name@));
            let mut header = pass.header.clone();
            header.append(" (");
            header.append(func_name.as_str());
            header.append(")");
            let dump = PassDump {
                header,
                affected_function: Some(func_name.clone()),
                machine: pass.machine,
                lines: pass.lines.clone(),
            };
            assert(dump@ =~= about(pass@, func_name@));
            let at = match table.position(func_name.as_str()) {
                Some(at) => at,
                None => {
                    proof {
                        lemma_subject_named(dumps, i as int);
                        let all = entry_names(before);
                        let k = choose|k: int| 0 <= k < all.len() && all[k] == func_name@;
                        assert(before[k].0 == func_name@);
                    }
                    return None;
                },
            };
            table.push_at(at, dump);
            proof {
                assert(dump_models(table@[at as int].1@) =~= dump_models(
                    before[at as int].1@,
                ).push(dump@));
                assert forall|k: int| 0 <= k < table@.len() implies dump_models(
                    (#[trigger] table@[k]).1@,
                ) == module_dumps(dumps, i + 1, table@[k].0) by {
                    assert(dump_models(before[k].1@) == module_dumps(
                        dumps,
                        i as int,
                        before[k].0,
                    ));
                    if k < at {
                        assert(before[k].0 != before[at as int].0);
                    } else if at < k {
                        assert(before[at as int].0 != before[k].0);
                    }
                }
                assert(entry_names(table@) =~= entry_names(before));
                assert forall|j: int, k: int| 0 <= j < k < table@.len() implies (
                #[trigger] table@[j]).0 != (#[trigger] table@[k]).0 by {
                    assert(before[j].0 != before[k].0);
                }
            }
            previous_function = Some(func_name);
        } else {
            let mut k: usize = 0;
            while k < names
                invariant
                    i < pass_dumps@.len(),
                    dumps == dump_models(pass_dumps@),
                    pass == pass_dumps@[i as int],
                    dumps[i as int] == pass@,
                    pass@.affected_function is None,
                    k <= names,
                    names == table@.len(),
                    names == before.len(),
                    distinct_names(before),
                    forall|j: int| 0 <= j < names ==> (#[trigger] table@[j]).0 == before[j].0,
                    forall|j: int|
                        0 <= j < names ==> dump_models((#[trigger] before[j]).1@) == module_dumps(
                            dumps,
                            i as int,
                            before[j].0,
                        ),
                    forall|j: int|
                        0 <= j < k ==> dump_models((#[trigger] table@[j]).1@) == module_dumps(
                            dumps,
                            i + 1,
                            table@[j].0,
                        ),
                    forall|j: int| k <= j < names ==> (#[trigger] table@[j]).1 == before[j].1,
                decreases names - k,
            {
                let ghost last = table@;
                let dump = copy_dump(pass);
                table.push_at(k, dump);
                proof {
                    assert(last[k as int].1 == before[k as int].1);
                    assert(dump_models(table@[k as int].1@) =~= dump_models(
                        last[k as int].1@,
                    ).push(dump@));
                    assert(table@[k as int].0 == before[k as int].0);
                    assert forall|j: int| 0 <= j < k + 1 implies dump_models(
                        (#[trigger] table@[j]).1@,
                    ) == module_dumps(dumps, i + 1, table@[j].0) by {
                        if j < k {
                            assert(table@[j].1 == last[j].1);
                            assert(table@[j].0 == last[j].0);
                        }
                    }
                    assert forall|j: int| k + 1 <= j < names implies (#[trigger] table@[j]).1
                        == before[j].1 by {
                        assert(table@[j].1 == last[j].1);
                    }
                }
                k += 1;
            }
            proof {
                assert(entry_names(table@) =~= entry_names(before));
                assert forall|j: int, k: int| 0 <= j < k < table@.len() implies (
                #[trigger] table@[j]).0 != (#[trigger] table@[k]).0 by {
                    assert(before[j].0 != before[k].0);
                }
            }
            previous_function = None;
        }
        i += 1;
    }
    proof {
        let names = module_names(dumps);
        let all = names.map_values(
            |name: Seq<char>| (name, module_dumps(dumps, dumps.len() as int, name)),
        );
        assert forall|k: int| 0 <= k < all.len() implies function_dumps(table@)[k] == all[k] by {
            assert(entry_names(table@)[k] == names[k]);
            assert(table@[k].0 == names[k]);
        }
        assert(function_dumps(table@) =~= all);
    }
    Some(table)
}

/// A loop belongs to the function of the dump before it; every other dump belongs to the function
/// that it names. The dumps stay as they are.
pub proof fn lemma_owners(dumps: Seq<(Seq<char>, PassDumpModel)>, i: int)
    requires
        0 <= i < dumps.len(),
    ensures
        owned(dumps).len() == dumps.len(),
        owned(dumps)[i].1 == dumps[i].1,
        dumps[i].0 != loop_name() ==> owned(dumps)[i].0 == dumps[i].0,
        dumps[i].0 == loop_name() && i > 0 ==> owned(dumps)[i].0 == owned(dumps)[i - 1].0,
    decreases dumps.len(),
{
    lemma_owned_len(dumps);
    let less = dumps.drop_last();
    lemma_owned_len(less);
    if i < dumps.len() - 1 {
        lemma_owners(less, i);
    }
}

/// The items with a name, in their order.
pub open spec fn items_named<A>(items: Seq<(Seq<char>, A)>, name: Seq<char>) -> Seq<A>
    decreases items.len(),
{
    if items.len() == 0 {
        Seq::empty()
    } else {
        let before = items_named(items.drop_last(), name);
        if items.last().0 == name {
            before.push(items.last().1)
        } else {
            before
        }
    }
}

/// Under each name stand the items of that name, in their order. Every name of an item is there,
/// once, and there is no other name.
pub proof fn lemma_grouped_by_name<A>(items: Seq<(Seq<char>, A)>)
    ensures
        distinct_names(grouped(items)),
        forall|i: int|
            0 <= i < grouped(items).len() ==> {
                &&& (#[trigger] grouped(items)[i]).1 == items_named(items, grouped(items)[i].0)
                &&& grouped(items)[i].1.len() > 0
            },
        forall|name: Seq<char>| #[trigger]
            entry_position(grouped(items), name) is Some <==> items_named(items, name).len() > 0,
    decreases items.len(),
{
    if items.len() > 0 {
        let less = items.drop_last();
        let (name, item) = items.last();
        lemma_grouped_by_name(less);
        let before = grouped(less);
        let list = match entry_position(before, name) {
            Some(i) => before[i].1,
            None => Seq::empty(),
        };
        assert(list == items_named(less, name)) by {
            if entry_position(before, name) is None {
                assert(items_named(less, name).len() == 0);
                assert(list =~= items_named(less, name));
            }
        }
        let after = grouped(items);
        assert(after == with_entry(before, name, list.push(item)));
        lemma_with_entry_distinct(before, name, list.push(item));
        lemma_with_entry_found(before, name, list.push(item));
        assert forall|i: int| 0 <= i < after.len() implies {
            &&& (#[trigger] after[i]).1 == items_named(items, after[i].0)
            &&& after[i].1.len() > 0
        } by {
            if after[i].0 == name {
                lemma_entry_position(after, i);
            } else {
                assert(i < before.len());
                assert(before[i].0 != name);
                assert(after[i] == before[i]);
            }
        }
        assert forall|other: Seq<char>| #[trigger] entry_position(after, other) is Some
            <==> items_named(items, other).len() > 0 by {
            if other != name {
                assert(entry_position(after, other) == entry_position(before, other));
            }
        }
    }
}

/// Leaving out repeated names leaves each name once, and no name that was not there.
proof fn lemma_first_names_once(names: Seq<Seq<char>>)
    ensures
        first_names(names).no_duplicates(),
        forall|name: Seq<char>| #[trigger]
            first_names(names).contains(name) ==> names.contains(name),
    decreases names.len(),
{
    if names.len() > 0 {
        let less = names.drop_last();
        lemma_first_names_once(less);
        let all = first_names(names);
        assert forall|name: Seq<char>| #[trigger] all.contains(name) implies names.contains(
            name,
        ) by {
            let k = choose|k: int| 0 <= k < all.len() && all[k] == name;
            if first_names(less).contains(name) {
                let j = choose|j: int| 0 <= j < less.len() && less[j] == name;
                assert(names[j] == name);
            } else {
                assert(k == first_names(less).len()) by {
                    if k < first_names(less).len() {
                        assert(first_names(less)[k] == name);
                    }
                }
                assert(names[names.len() - 1] == name);
            }
        }
    }
}

/// Where every pass shows the whole module, there is one entry for the module, one for each
/// function that a dump names, and no other.
pub proof fn lemma_module_entries(
    dumps: Seq<PassDumpModel>,
    entries: Seq<(Seq<char>, Seq<PassDumpModel>)>,
)
    requires
        dumps_by_module(dumps) == Some(entries),
    ensures
        distinct_names(entries),
        entry_position(entries, full_module()) is Some,
        forall|i: int|
            0 <= i < dumps.len() && (#[trigger] dumps[i]).affected_function is Some
                ==> entry_position(entries, dumps[i].affected_function->0) is Some,
        forall|k: int|
            0 <= k < entries.len() ==> {
                ||| (#[trigger] entries[k]).0 == full_module()
                ||| named_functions(dumps).contains(entries[k].0)
            },
{
    let named = named_functions(dumps);
    let all = named.push(full_module());
    let names = module_names(dumps);
    lemma_first_names_once(all);
    assert(entries.len() == names.len());
    assert forall|i: int, j: int| 0 <= i < j < entries.len() implies (#[trigger] entries[i]).0 != (
    #[trigger] entries[j]).0 by {
        assert(names[i] != names[j]);
    }
    lemma_first_names_contains(all, named.len() as int);
    let k = choose|k: int| 0 <= k < names.len() && names[k] == full_module();
    assert(entries[k].0 == full_module());
    assert forall|i: int|
        0 <= i < dumps.len() && (#[trigger] dumps[i]).affected_function is Some implies entry_position(
        entries,
        dumps[i].affected_function->0,
    ) is Some by {
        let name = dumps[i].affected_function->0;
        lemma_named_functions_contains(dumps, i);
        let j = choose|j: int| 0 <= j < named.len() && named[j] == name;
        assert(all[j] == name);
        lemma_first_names_contains(all, j);
        let k = choose|k: int| 0 <= k < names.len() && names[k] == name;
        assert(entries[k].0 == name);
    }
    assert forall|k: int| 0 <= k < entries.len() implies {
        ||| (#[trigger] entries[k]).0 == full_module()
        ||| named.contains(entries[k].0)
    } by {
        assert(names.contains(names[k]));
        assert(all.contains(names[k]));
        let j = choose|j: int| 0 <= j < all.len() && all[j] == names[k];
        if j < named.len() {
            assert(named[j] == names[k]);
        }
    }
}

/// The dumps about no function.
pub open spec fn unattached(dumps: Seq<PassDumpModel>, count: int) -> Seq<PassDumpModel>
    decreases count,
{
    if count <= 0 {
        Seq::empty()
    } else {
        let before = unattached(dumps, count - 1);
        if dumps[count - 1].affected_function is None {
            before.push(dumps[count - 1])
        } else {
            before
        }
    }
}

/// A name that no dump is about gathers the dumps about no function, and those alone. So does the
/// name of the module, where no function is called that.
pub proof fn lemma_unattached_dumps(dumps: Seq<PassDumpModel>, count: int, name: Seq<char>)
    requires
        forall|i: int| #![trigger dumps[i]]
            0 <= i < count ==> subject(dumps, i) != Some(name),
    ensures
        module_dumps(dumps, count, name) == unattached(dumps, count),
    decreases count,
{
    if count > 0 {
        lemma_unattached_dumps(dumps, count - 1, name);
    }
}

proof fn lemma_gathered_under(dumps: Seq<PassDumpModel>, count: int, name: Seq<char>, i: int)
    requires
        0 <= i < count,
    ensures
        dumps[i].affected_function is None ==> module_dumps(dumps, count, name).contains(dumps[i]),
        dumps[i].affected_function is Some && subject(dumps, i) == Some(name) ==> module_dumps(
            dumps,
            count,
            name,
        ).contains(about(dumps[i], name)),
    decreases count,
{
    let before = module_dumps(dumps, count - 1, name);
    let all = module_dumps(dumps, count, name);
    let dump = if dumps[i].affected_function is None {
        dumps[i]
    } else {
        about(dumps[i], name)
    };
    if i < count - 1 {
        lemma_gathered_under(dumps, count - 1, name, i);
        if before.contains(dump) {
            let k = choose|k: int| 0 <= k < before.len() && before[k] == dump;
            assert(all[k] == dump);
        }
    } else if all.len() > before.len() {
        assert(all[before.len() as int] == dumps[i] || all[before.len() as int] == about(
            dumps[i],
            name,
        ));
    }
}

/// Where every pass shows the whole module, a dump about no function is gathered under every
/// name, and a dump about a function under the name of that function.
pub proof fn lemma_every_dump_gathered(
    dumps: Seq<PassDumpModel>,
    entries: Seq<(Seq<char>, Seq<PassDumpModel>)>,
    i: int,
)
    requires
        dumps_by_module(dumps) == Some(entries),
        0 <= i < dumps.len(),
    ensures
        dumps[i].affected_function is None ==> forall|k: int|
            0 <= k < entries.len() ==> (#[trigger] entries[k]).1.contains(dumps[i]),
        dumps[i].affected_function is Some ==> exists|k: int|
            0 <= k < entries.len() && subject(dumps, i) == Some((#[trigger] entries[k]).0)
                && entries[k].1.contains(about(dumps[i], entries[k].0)),
{
    let names = module_names(dumps);
    if dumps[i].affected_function is None {
        assert forall|k: int| 0 <= k < entries.len() implies (#[trigger] entries[k]).1.contains(
            dumps[i],
        ) by {
            lemma_gathered_under(dumps, dumps.len() as int, names[k], i);
        }
    } else {
        lemma_subject_named(dumps, i);
        let name = subject(dumps, i)->0;
        let k = choose|k: int| 0 <= k < names.len() && names[k] == name;
        assert(entries[k].0 == name);
        lemma_gathered_under(dumps, dumps.len() as int, name, i);
    }
}

/// The owner of a dump is named by a dump that is no loop.
pub(crate) proof fn lemma_owner_shown(dumps: Seq<(Seq<char>, PassDumpModel)>, j: int) -> (found: int)
    requires
        loops_have_owners(dumps),
        0 <= j < dumps.len(),
    ensures
        0 <= found <= j,
        dumps[found].0 != loop_name(),
        dumps[found].0 == owned(dumps)[j].0,
    decreases j,
{
    lemma_owners(dumps, j);
    if dumps[j].0 != loop_name() {
        j
    } else {
        lemma_owner_shown(dumps, j - 1)
    }
}

/// A name under which there is an item is the name of an item.
pub(crate) proof fn lemma_named_item<A>(items: Seq<(Seq<char>, A)>, name: Seq<char>) -> (found: int)
    requires
        items_named(items, name).len() > 0,
    ensures
        0 <= found < items.len(),
        items[found].0 == name,
    decreases items.len(),
{
    if items.last().0 == name {
        items.len() - 1
    } else {
        lemma_named_item(items.drop_last(), name)
    }
}

/// No dumps are gathered under the name of a loop.
pub proof fn lemma_no_loop_gathered(
    splits: Seq<SplitModel>,
    entries: Seq<(Seq<char>, Seq<PassDumpModel>)>,
)
    requires
        dumps_by_function(splits) == Some(entries),
    ensures
        entry_position(entries, loop_name()) is None,
{
    let dumps = shown(splits);
    lemma_grouped_by_name(owned(dumps));
    if entry_position(entries, loop_name()) is Some {
        let j = lemma_named_item(owned(dumps), loop_name());
        lemma_owned_len(dumps);
        let owner = lemma_owner_shown(dumps, j);
    }
}

/// How many items there are under all names.
pub open spec fn total_items<A>(groups: Seq<(Seq<char>, Seq<A>)>) -> nat
    decreases groups.len(),
{
    if groups.len() == 0 {
        0
    } else {
        total_items(groups.drop_last()) + groups.last().1.len()
    }
}

/// How many functions all passes show, where a function counts once for each pass that shows it.
pub open spec fn total_shown(splits: Seq<SplitModel>) -> nat
    decreases splits.len(),
{
    if splits.len() == 0 {
        0
    } else {
        total_shown(splits.drop_last()) + splits.last().functions.len()
    }
}

/// One more item under a name is one more item.
proof fn lemma_longer_group<A>(groups: Seq<(Seq<char>, Seq<A>)>, i: int, item: A)
    requires
        0 <= i < groups.len(),
    ensures
        total_items(groups.update(i, (groups[i].0, groups[i].1.push(item)))) == total_items(groups)
            + 1,
    decreases groups.len(),
{
    let after = groups.update(i, (groups[i].0, groups[i].1.push(item)));
    let less = groups.drop_last();
    if i < groups.len() - 1 {
        lemma_longer_group(less, i, item);
        assert(after.drop_last() =~= less.update(i, (less[i].0, less[i].1.push(item))));
    } else {
        assert(after.drop_last() =~= less);
    }
}

/// Gathering keeps the number of items.
proof fn lemma_grouped_total<A>(items: Seq<(Seq<char>, A)>)
    ensures
        total_items(grouped(items)) == items.len(),
    decreases items.len(),
{
    if items.len() > 0 {
        let less = items.drop_last();
        let (name, item) = items.last();
        lemma_grouped_total(less);
        let before = grouped(less);
        match entry_position(before, name) {
            Some(i) => {
                assert(before[i].0 == name);
                lemma_longer_group(before, i, item);
            },
            None => {
                let one = Seq::<A>::empty().push(item);
                assert(before.push((name, one)).drop_last() =~= before);
            },
        }
    }
}

proof fn lemma_shown_total(splits: Seq<SplitModel>)
    ensures
        shown(splits).len() == total_shown(splits),
    decreases splits.len(),
{
    if splits.len() > 0 {
        lemma_shown_total(splits.drop_last());
    }
}

/// Gathering by function loses no dump and doubles none: there are as many dumps under all names
/// as there are functions that the passes show.
pub proof fn lemma_no_dump_lost(
    splits: Seq<SplitModel>,
    entries: Seq<(Seq<char>, Seq<PassDumpModel>)>,
)
    requires
        dumps_by_function(splits) == Some(entries),
    ensures
        total_items(entries) == total_shown(splits),
{
    lemma_shown_total(splits);
    lemma_owned_len(shown(splits));
    lemma_grouped_total(owned(shown(splits)));
}

/// The dump at `j` names the function, and all dumps behind it up to `i` name loops.
pub open spec fn leads_to(dumps: Seq<PassDumpModel>, j: int, i: int, name: Seq<char>) -> bool {
    &&& 0 <= j <= i
    &&& dumps[j].affected_function == Some(name)
    &&& !"%"@.is_prefix_of(name)
    &&& forall|k: int|
        j < k <= i ==> (#[trigger] dumps[k]).affected_function is Some && "%"@.is_prefix_of(
            dumps[k].affected_function->0,
        )
}

/// A dump is about the function that it names, or, where it names a loop, about the function of
/// the last dump before it that names no loop, if all dumps between them name loops too.
pub proof fn lemma_subject_of_dump(dumps: Seq<PassDumpModel>, i: int, name: Seq<char>)
    requires
        0 <= i < dumps.len(),
    ensures
        subject(dumps, i) == Some(name) <==> exists|j: int| #[trigger] leads_to(dumps, j, i, name),
    decreases i,
{
    if i > 0 {
        lemma_subject_of_dump(dumps, i - 1, name);
    }
    if subject(dumps, i) == Some(name) {
        if dumps[i].affected_function == Some(name) && !"%"@.is_prefix_of(name) {
            assert(leads_to(dumps, i, i, name));
        } else {
            let j = choose|j: int| #[trigger] leads_to(dumps, j, i - 1, name);
            assert(leads_to(dumps, j, i, name));
        }
    }
    if exists|j: int| #[trigger] leads_to(dumps, j, i, name) {
        let j = choose|j: int| #[trigger] leads_to(dumps, j, i, name);
        if j < i {
            assert(dumps[i].affected_function is Some);
            assert(leads_to(dumps, j, i - 1, name));
        }
    }
}

/// A dump is gathered under a name: it is about no function, or about that one.
pub open spec fn belongs_under(dumps: Seq<PassDumpModel>, i: int, name: Seq<char>) -> bool {
    dumps[i].affected_function is None || exists|j: int| #[trigger] leads_to(dumps, j, i, name)
}

/// A dump as it is gathered: as it is where it is about no function, else with the function that
/// it is about in its header.
pub open spec fn is_gathered(
    dump: PassDumpModel,
    gathered: PassDumpModel,
    name: Seq<char>,
) -> bool {
    if dump.affected_function is None {
        gathered == dump
    } else {
        &&& gathered.header == dump.header + " ("@ + name + ")"@
        &&& gathered.affected_function == Some(name)
        &&& gathered.machine == dump.machine
        &&& gathered.lines == dump.lines
    }
}

/// The positions `at` of dumps, one behind the other, are those of the dumps before `count` that
/// belong under a name, and the list holds these dumps in that order.
pub open spec fn lists_in_order(
    dumps: Seq<PassDumpModel>,
    count: int,
    name: Seq<char>,
    list: Seq<PassDumpModel>,
    at: Seq<int>,
) -> bool {
    &&& at.len() == list.len()
    &&& forall|j: int, k: int| 0 <= j < k < at.len() ==> (#[trigger] at[j]) < (#[trigger] at[k])
    &&& forall|i: int| #[trigger]
        at.contains(i) <==> 0 <= i < count && belongs_under(dumps, i, name)
    &&& forall|j: int|
        0 <= j < at.len() ==> is_gathered(dumps[#[trigger] at[j]], list[j], name)
}

proof fn lemma_list_in_order(dumps: Seq<PassDumpModel>, count: int, name: Seq<char>) -> (at: Seq<
    int,
>)
    requires
        0 <= count <= dumps.len(),
    ensures
        lists_in_order(dumps, count, name, module_dumps(dumps, count, name), at),
    decreases count,
{
    if count == 0 {
        Seq::empty()
    } else {
        let last = count - 1;
        let before = lemma_list_in_order(dumps, last, name);
        let list = module_dumps(dumps, count, name);
        lemma_subject_of_dump(dumps, last, name);
        if belongs_under(dumps, last, name) {
            let at = before.push(last);
            assert forall|i: int| #[trigger] at.contains(i) <==> 0 <= i < count && belongs_under(
                dumps,
                i,
                name,
            ) by {
                if at.contains(i) {
                    let j = choose|j: int| 0 <= j < at.len() && at[j] == i;
                    if j < before.len() {
                        assert(before[j] == i);
                        assert(before.contains(i));
                    }
                }
                if 0 <= i < count && belongs_under(dumps, i, name) {
                    if i < last {
                        assert(before.contains(i));
                        let j = choose|j: int| 0 <= j < before.len() && before[j] == i;
                        assert(at[j] == i);
                    } else {
                        assert(at[before.len() as int] == i);
                    }
                }
            }
            assert forall|j: int, k: int| 0 <= j < k < at.len() implies (#[trigger] at[j]) < (
            #[trigger] at[k]) by {
                assert(before.contains(before[j]));
            }
            assert forall|j: int| 0 <= j < at.len() implies is_gathered(
                dumps[#[trigger] at[j]],
                list[j],
                name,
            ) by {
                if j < before.len() {
                    assert(before[j] == at[j]);
                }
            }
            at
        } else {
            assert(list == module_dumps(dumps, last, name));
            before
        }
    }
}

/// The list under a name holds, in the order of all dumps and each of them once, the dumps that
/// belong under that name.
pub open spec fn is_ordered_list(
    dumps: Seq<PassDumpModel>,
    entry: (Seq<char>, Seq<PassDumpModel>),
) -> bool {
    exists|at: Seq<int>| lists_in_order(dumps, dumps.len() as int, entry.0, entry.1, at)
}

/// Where every pass shows the whole module, the dumps under a name are, in the order of all dumps
/// and each of them once, those about no function and those about the function of that name. The
/// dumps can be gathered if and only if each dump that names a loop follows on one that names a
/// function, with none between them that names neither.
pub proof fn lemma_module_dumps_in_order(dumps: Seq<PassDumpModel>)
    ensures
        match dumps_by_module(dumps) {
            Some(entries) => forall|k: int|
                0 <= k < entries.len() ==> is_ordered_list(dumps, #[trigger] entries[k]),
            None => true,
        },
        dumps_by_module(dumps) is Some <==> forall|i: int|
            0 <= i < dumps.len() && (#[trigger] dumps[i]).affected_function is Some
                ==> exists|j: int, name: Seq<char>| #[trigger] leads_to(dumps, j, i, name),
{
    if let Some(entries) = dumps_by_module(dumps) {
        let names = module_names(dumps);
        assert forall|k: int| 0 <= k < entries.len() implies is_ordered_list(
            dumps,
            #[trigger] entries[k],
        ) by {
            let at = lemma_list_in_order(dumps, dumps.len() as int, names[k]);
            assert(lists_in_order(
                dumps,
                dumps.len() as int,
                entries[k].0,
                entries[k].1,
                at,
            ));
        }
        assert forall|i: int|
            0 <= i < dumps.len() && (
            #[trigger] dumps[i]).affected_function is Some implies exists|j: int, name: Seq<char>|
            #[trigger] leads_to(dumps, j, i, name) by {
            let name = subject(dumps, i)->0;
            lemma_subject_of_dump(dumps, i, name);
            let j = choose|j: int| #[trigger] leads_to(dumps, j, i, name);
        }
    } else {
        let i = choose|i: int|
            0 <= i < dumps.len() && (#[trigger] dumps[i]).affected_function is Some && subject(
                dumps,
                i,
            ) is None;
        assert forall|j: int, name: Seq<char>| !#[trigger] leads_to(dumps, j, i, name) by {
            lemma_subject_of_dump(dumps, i, name);
        }
    }
}

/// What is gathered under a name.
pub open spec fn gathered_under<A>(groups: Seq<(Seq<char>, Seq<A>)>, name: Seq<char>) -> Seq<A> {
    match entry_position(groups, name) {
        Some(i) => groups[i].1,
        None => Seq::empty(),
    }
}

proof fn lemma_items_concat<A>(
    first: Seq<(Seq<char>, A)>,
    second: Seq<(Seq<char>, A)>,
    name: Seq<char>,
)
    ensures
        items_named(first + second, name) == items_named(first, name) + items_named(second, name),
    decreases second.len(),
{
    if second.len() == 0 {
        assert(first + second =~= first);
        assert(items_named(first, name) + items_named(second, name) =~= items_named(first, name));
    } else {
        let less = second.drop_last();
        assert((first + second).drop_last() =~= first + less);
        lemma_items_concat(first, less, name);
        let (own, item) = second.last();
        if own == name {
            assert(items_named(first, name) + items_named(less, name).push(item) =~= (items_named(
                first,
                name,
            ) + items_named(less, name)).push(item));
        }
    }
}

proof fn lemma_gathered_is_named<A>(items: Seq<(Seq<char>, A)>, name: Seq<char>)
    ensures
        gathered_under(grouped(items), name) == items_named(items, name),
{
    lemma_grouped_by_name(items);
    match entry_position(grouped(items), name) {
        Some(i) => {
            assert(grouped(items)[i].0 == name);
        },
        None => {
            assert(items_named(items, name).len() == 0);
            assert(items_named(items, name) =~= Seq::empty());
        },
    }
}

/// Items that come later are gathered behind those that come earlier, and a single item is
/// gathered under its own name alone.
pub proof fn lemma_gathered_in_order<A>(
    first: Seq<(Seq<char>, A)>,
    second: Seq<(Seq<char>, A)>,
    own: Seq<char>,
    item: A,
    name: Seq<char>,
)
    ensures
        gathered_under(grouped(first + second), name) == gathered_under(grouped(first), name)
            + gathered_under(grouped(second), name),
        gathered_under(grouped(seq![(own, item)]), name) == if own == name {
            seq![item]
        } else {
            Seq::empty()
        },
{
    lemma_gathered_is_named(first + second, name);
    lemma_gathered_is_named(first, name);
    lemma_gathered_is_named(second, name);
    lemma_items_concat(first, second, name);
    let one = seq![(own, item)];
    lemma_gathered_is_named(one, name);
    assert(one.drop_last() =~= Seq::<(Seq<char>, A)>::empty());
    assert(items_named(one.drop_last(), name) =~= Seq::<A>::empty());
    assert(Seq::<A>::empty().push(item) =~= seq![item]);
}

/// Passes show their functions one behind the other. Each function is shown under its name, with
/// the header of the pass and its lines, joined by line feeds.
pub proof fn lemma_shown_in_order(first: Seq<SplitModel>, second: Seq<SplitModel>, split: SplitModel)
    ensures
        shown(first + second) == shown(first) + shown(second),
        shown(seq![split]).len() == split.functions.len(),
        forall|i: int|
            0 <= i < split.functions.len() ==> {
                let (name, dump) = #[trigger] shown(seq![split])[i];
                &&& name == split.functions[i].0
                &&& dump.header == split.header
                &&& dump.machine == split.machine
                &&& dump.affected_function is None
                &&& dump.lines == joined(split.functions[i].1, "\n"@)
            },
    decreases second.len(),
{
    let one = seq![split];
    assert(one.drop_last() =~= Seq::<SplitModel>::empty());
    assert(shown(one.drop_last()) =~= Seq::<(Seq<char>, PassDumpModel)>::empty());
    assert(shown(one) =~= shown_by(split));
    if second.len() == 0 {
        assert(first + second =~= first);
        assert(shown(first) + shown(second) =~= shown(first));
    } else {
        let less = second.drop_last();
        assert((first + second).drop_last() =~= first + less);
        lemma_shown_in_order(first, less, split);
        assert(shown(first) + (shown(less) + shown_by(second.last())) =~= shown(first) + shown(less)
            + shown_by(second.last()));
    }
}

proof fn lemma_owned_concat(
    first: Seq<(Seq<char>, PassDumpModel)>,
    second: Seq<(Seq<char>, PassDumpModel)>,
)
    requires
        loops_have_owners(second),
    ensures
        owned(first + second) == owned(first) + owned(second),
    decreases second.len(),
{
    if second.len() == 0 {
        assert(first + second =~= first);
        assert(owned(first) + owned(second) =~= owned(first));
    } else {
        let less = second.drop_last();
        assert((first + second).drop_last() =~= first + less);
        if less.len() > 0 {
            assert(less[0] == second[0]);
        }
        lemma_owned_concat(first, less);
        lemma_owned_len(less);
        lemma_owned_len(first);
        if less.len() > 0 {
            assert((owned(first) + owned(less)).last() == owned(less).last());
        }
        assert(owned(first) + owned(second) =~= owned(first + second));
    }
}

/// The dumps of later passes are gathered behind those of earlier passes, where the later ones do
/// not begin with a loop. They can be gathered if and only if those of the earlier ones can.
pub proof fn lemma_dumps_in_order(
    first: Seq<SplitModel>,
    second: Seq<SplitModel>,
    name: Seq<char>,
)
    requires
        shown(first).len() > 0,
        dumps_by_function(second) is Some,
    ensures
        dumps_by_function(first + second) is Some <==> dumps_by_function(first) is Some,
        dumps_by_function(first) is Some ==> gathered_under(
            dumps_by_function(first + second)->0,
            name,
        ) == gathered_under(dumps_by_function(first)->0, name) + gathered_under(
            dumps_by_function(second)->0,
            name,
        ),
{
    let empty = SplitModel { header: Seq::empty(), machine: false, functions: Seq::empty() };
    lemma_shown_in_order(first, second, empty);
    let whole = shown(first) + shown(second);
    assert(whole[0] == shown(first)[0]);
    lemma_owned_concat(shown(first), shown(second));
    let one = shown(first)[0];
    lemma_gathered_in_order(owned(shown(first)), owned(shown(second)), one.0, one.1, name);
}

} // verus!
