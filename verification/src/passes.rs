//! Pairs the dumps before and after each pass.
use crate::dump::{dump_models, PassDump, PassDumpModel};
use crate::group::function_dumps;
use crate::table::{
    distinct_names, entry_position, lemma_mapped_with_entry, mapped_entries, FunctionTable,
};
use crate::text::{same_text, starts_with, strip_prefix, strip_suffix};
use vstd::prelude::*;
use vstd::string::*;

verus! {

/// A pass over a function: its name, whether it works on machine code, and the function before
/// and after it.
#[derive(Debug)]
pub struct Pass {
    pub name: String,
    pub machine: bool,
    pub after: String,
    pub before: String,
    pub ir_changed: bool,
}

/// What a `Pass` holds.
#[verifier::ext_equal]
pub struct PassModel {
    pub name: Seq<char>,
    pub machine: bool,
    pub after: Seq<char>,
    pub before: Seq<char>,
    pub ir_changed: bool,
}

impl View for Pass {
    type V = PassModel;

    open spec fn view(&self) -> PassModel {
        PassModel {
            name: self.name@,
            machine: self.machine,
            after: self.after@,
            before: self.before@,
            ir_changed: self.ir_changed,
        }
    }
}

/// What a sequence of passes holds.
pub open spec fn pass_models(passes: Seq<Pass>) -> Seq<PassModel> {
    passes.map_values(|pass: Pass| pass@)
}

/// The passes of each function.
pub type OptPipelineResults = FunctionTable<Vec<Pass>>;

/// The passes of each function in a table.
pub open spec fn function_passes(
    entries: Seq<(Seq<char>, Vec<Pass>)>,
) -> Seq<(Seq<char>, Seq<PassModel>)> {
    mapped_entries(entries, |passes: Vec<Pass>| pass_models(passes@))
}

/// Why dumps cannot be paired.
#[derive(Debug)]
pub enum PassDumpError {
    /// A dump before one pass is followed by the dump after another pass.
    PassMismatch { before_header: String, after_header: String },
}

/// What a `PassDumpError` holds.
#[verifier::ext_equal]
pub struct MismatchModel {
    pub before_header: Seq<char>,
    pub after_header: Seq<char>,
}

impl View for PassDumpError {
    type V = MismatchModel;

    open spec fn view(&self) -> MismatchModel {
        match self {
            PassDumpError::PassMismatch { before_header, after_header } => MismatchModel {
                before_header: before_header@,
                after_header: after_header@,
            },
        }
    }
}

/// The message for dumps that do not match.
pub open spec fn mismatch_message(mismatch: MismatchModel) -> Seq<char> {
    "Consecutive pass headers in dump file do not match:\nFirst:  '"@ + mismatch.before_header
        + "'\nSecond: '"@ + mismatch.after_header
        + "'\n\n'optdiff' compares each pass dump with its immediate next dump in the file.\nThis error typically occurs when multiple compiler instances write to the same dump file.\nPlease run a single compiler instance at a time."@
}

impl PassDumpError {
    /// The message for the user.
    pub fn message(&self) -> (res: String)
        ensures
            res@ == mismatch_message(self@),
    {
        match self {
            PassDumpError::PassMismatch { before_header, after_header } => {
                let mut res =
                    "Consecutive pass headers in dump file do not match:\nFirst:  '".to_string();
                res.append(before_header.as_str());
                res.append("'\nSecond: '");
                res.append(after_header.as_str());
                res.append(
                    "'\n\n'optdiff' compares each pass dump with its immediate next dump in the file.\nThis error typically occurs when multiple compiler instances write to the same dump file.\nPlease run a single compiler instance at a time.",
                );
                res
            },
        }
    }
}

/// The header of a dump that was printed before a pass.
pub open spec fn is_before(header: Seq<char>) -> bool {
    "IR Dump Before "@.is_prefix_of(header)
}

/// The header of a dump that was printed after a pass.
pub open spec fn is_after(header: Seq<char>) -> bool {
    "IR Dump After "@.is_prefix_of(header)
}

/// The name of the pass in the header of a dump before it.
pub open spec fn before_name(header: Seq<char>) -> Seq<char> {
    header.skip("IR Dump Before "@.len() as int)
}

/// The name of the pass in the header of a dump after it.
pub open spec fn after_name(header: Seq<char>) -> Seq<char> {
    header.skip("IR Dump After "@.len() as int)
}

/// A name without the mark of a pass that left nothing behind.
pub open spec fn without_invalidated(name: Seq<char>) -> Seq<char> {
    if " (invalidated)"@.is_suffix_of(name) {
        name.take(name.len() - " (invalidated)"@.len())
    } else {
        name
    }
}

/// How two headers in a row differ: the names of their passes, where these are not the same.
pub open spec fn mismatch(before: Seq<char>, after: Seq<char>) -> Option<MismatchModel> {
    let first = before_name(before);
    let second = without_invalidated(after_name(after));
    if first == second {
        None
    } else {
        Some(MismatchModel { before_header: first, after_header: second })
    }
}

/// Checks that two headers in a row are about the same pass.
pub fn passes_match(before: &str, after: &str) -> (res: Result<(), PassDumpError>)
    requires
        is_before(before@),
        is_after(after@),
    ensures
        match res {
            Ok(()) => mismatch(before@, after@) is None,
            Err(error) => mismatch(before@, after@) == Some(error@),
        },
{
    let before = strip_prefix(before, "IR Dump Before ").unwrap();
    let after = strip_prefix(after, "IR Dump After ").unwrap();
    let after = match strip_suffix(after, " (invalidated)") {
        Some(bare) => bare,
        None => after,
    };
    if same_text(before, after) {
        Ok(())
    } else {
        Err(
            PassDumpError::PassMismatch {
                before_header: before.to_string(),
                after_header: after.to_string(),
            },
        )
    }
}

/// A pass as the dumps show it.
#[verifier::ext_equal]
pub struct ShownPass {
    pub name: Seq<char>,
    pub machine: bool,
    pub before: Seq<char>,
    pub after: Seq<char>,
}

/// The pass that a dump after it shows.
pub open spec fn shown_after(dump: PassDumpModel) -> ShownPass {
    ShownPass {
        name: after_name(dump.header),
        machine: dump.machine,
        before: Seq::empty(),
        after: dump.lines,
    }
}

/// The pass that a dump before it shows.
pub open spec fn shown_before(dump: PassDumpModel) -> ShownPass {
    ShownPass {
        name: before_name(dump.header),
        machine: dump.machine,
        before: dump.lines,
        after: Seq::empty(),
    }
}

/// The pass that the dumps before and after it show.
pub open spec fn shown_both(first: PassDumpModel, second: PassDumpModel) -> ShownPass {
    ShownPass {
        name: before_name(first.header),
        machine: first.machine,
        before: first.lines,
        after: second.lines,
    }
}

/// What comes of pairing dumps: the passes, or the first two dumps that do not match.
/// It is `None` where the dumps cannot be read.
pub type Pairing<A> = Option<Result<Seq<A>, MismatchModel>>;

/// `done` and what follows it.
pub open spec fn followed_by<A>(done: Seq<A>, rest: Pairing<A>) -> Pairing<A> {
    match rest {
        Some(Ok(rest)) => Some(Ok(done + rest)),
        Some(Err(mismatch)) => Some(Err(mismatch)),
        None => None,
    }
}

/// The passes that dumps show. A dump after a pass that follows a dump before one is about the
/// same pass, or the dumps do not match. Every other dump stands for a pass alone.
/// A header that is neither before nor after a pass cannot be read, nor can two dumps of one
/// pass of which a single one is machine code.
pub open spec fn paired(dumps: Seq<PassDumpModel>) -> Pairing<ShownPass>
    decreases dumps.len(),
{
    if dumps.len() == 0 {
        Some(Ok(Seq::empty()))
    } else if is_after(dumps[0].header) {
        followed_by(seq![shown_after(dumps[0])], paired(dumps.skip(1)))
    } else if !is_before(dumps[0].header) {
        None
    } else if dumps.len() > 1 && is_after(dumps[1].header) {
        match mismatch(dumps[0].header, dumps[1].header) {
            Some(mismatch) => Some(Err(mismatch)),
            None => if dumps[0].machine == dumps[1].machine {
                followed_by(seq![shown_both(dumps[0], dumps[1])], paired(dumps.skip(2)))
            } else {
                None
            },
        }
    } else {
        followed_by(seq![shown_before(dumps[0])], paired(dumps.skip(1)))
    }
}

/// The function before a pass. Where instruction selection turns IR into machine code, this is
/// the IR after the pass before.
pub open spec fn selected_before(passes: Seq<ShownPass>, i: int) -> Seq<char> {
    if i > 0 && !passes[i - 1].machine && passes[i].machine && passes[i].before != passes[i].after {
        passes[i - 1].after
    } else {
        passes[i].before
    }
}

/// The function after a pass. Where no dump shows it, it is the function before the next pass.
pub open spec fn filled_after(passes: Seq<ShownPass>, i: int) -> Seq<char> {
    if passes[i].after.len() == 0 && i < passes.len() - 1 {
        selected_before(passes, i + 1)
    } else {
        passes[i].after
    }
}

/// The function before a pass. Where no dump shows it, it is the function after the pass before.
pub open spec fn filled_before(passes: Seq<ShownPass>, i: int) -> Seq<char> {
    if selected_before(passes, i).len() == 0 && i > 0 {
        filled_after(passes, i - 1)
    } else {
        selected_before(passes, i)
    }
}

/// A pass with what the passes around it tell of it.
pub open spec fn filled(passes: Seq<ShownPass>, i: int) -> PassModel {
    PassModel {
        name: passes[i].name,
        machine: passes[i].machine,
        after: filled_after(passes, i),
        before: filled_before(passes, i),
        ir_changed: filled_before(passes, i) != filled_after(passes, i),
    }
}

/// The passes with what the passes around them tell of them.
pub open spec fn all_filled(passes: Seq<ShownPass>) -> Seq<PassModel> {
    Seq::new(passes.len(), |i: int| filled(passes, i))
}

/// The pipeline that the dumps of one function show.
pub open spec fn pipeline(dumps: Seq<PassDumpModel>) -> Pairing<PassModel> {
    match paired(dumps) {
        Some(Ok(passes)) => Some(Ok(all_filled(passes))),
        Some(Err(mismatch)) => Some(Err(mismatch)),
        None => None,
    }
}

/// The pipelines of all functions, or the first two dumps that do not match.
pub open spec fn pipelines(
    entries: Seq<(Seq<char>, Seq<PassDumpModel>)>,
) -> Pairing<(Seq<char>, Seq<PassModel>)>
    decreases entries.len(),
{
    if entries.len() == 0 {
        Some(Ok(Seq::empty()))
    } else {
        match pipeline(entries[0].1) {
            Some(Ok(passes)) => followed_by(
                seq![(entries[0].0, passes)],
                pipelines(entries.drop_first()),
            ),
            Some(Err(mismatch)) => Some(Err(mismatch)),
            None => None,
        }
    }
}

/// A pass before the passes around it have been looked at.
spec fn selected(passes: Seq<ShownPass>, i: int, pass: Pass) -> bool {
    &&& pass.name@ == passes[i].name
    &&& pass.machine == passes[i].machine
    &&& pass.before@ == selected_before(passes, i)
    &&& pass.after@ == passes[i].after
}

proof fn lemma_followed_twice<A>(done: Seq<A>, next: Seq<A>, rest: Pairing<A>)
    ensures
        followed_by(done, followed_by(next, rest)) == followed_by(done + next, rest),
{
    if let Some(Ok(more)) = rest {
        assert(done + (next + more) =~= done + next + more);
    }
}

/// Reads the pass or passes that start at `at`: the pass, and how many dumps it takes.
fn read_pass(dumps: &Vec<PassDump>, at: usize) -> (res: Option<Result<(Pass, usize), PassDumpError>>)
    requires
        at < dumps@.len(),
    ensures
        ({
            let rest = dump_models(dumps@).skip(at as int);
            match res {
                Some(Ok((pass, taken))) => {
                    let shown = ShownPass {
                        name: pass.name@,
                        machine: pass.machine,
                        before: pass.before@,
                        after: pass.after@,
                    };
                    &&& 1 <= taken <= rest.len()
                    &&& paired(rest) == followed_by(
                        seq![shown],
                        paired(dump_models(dumps@).skip(at + taken)),
                    )
                },
                Some(Err(error)) => paired(rest) == Some(Err::<Seq<ShownPass>, _>(error@)),
                None => paired(rest) is None,
            }
        }),
{
    let ghost models = dump_models(dumps@);
    let ghost rest = models.skip(at as int);
    let current = &dumps[at];
    proof {
        assert(rest[0] == current@);
        assert(rest.skip(1) =~= models.skip(at + 1));
        if rest.len() > 1 {
            assert(rest[1] == dumps@[at + 1]@);
            assert(rest.skip(2) =~= models.skip(at + 2));
        }
    }
    let mut pass = Pass {
        name: String::new(),
        machine: current.machine,
        after: String::new(),
        before: String::new(),
        ir_changed: true,
    };
    if let Some(name) = strip_prefix(current.header.as_str(), "IR Dump After ") {
        pass.name = name.to_string();
        pass.after = current.lines.clone();
        assert(shown_after(rest[0]).before =~= pass.before@);
        return Some(Ok((pass, 1)));
    }
    match strip_prefix(current.header.as_str(), "IR Dump Before ") {
        Some(name) => {
            pass.name = name.to_string();
            pass.before = current.lines.clone();
        },
        None => {
            return None;
        },
    }
    if at < dumps.len() - 1 && starts_with(dumps[at + 1].header.as_str(), "IR Dump After ") {
        let next = &dumps[at + 1];
        match passes_match(current.header.as_str(), next.header.as_str()) {
            Ok(()) => {},
            Err(error) => {
                return Some(Err(error));
            },
        }
        if current.machine != next.machine {
            return None;
        }
        pass.after = next.lines.clone();
        Some(Ok((pass, 2)))
    } else {
        assert(shown_before(rest[0]).after =~= pass.after@);
        Some(Ok((pass, 1)))
    }
}

/// Fills in what the passes around a pass tell of it.
fn fill_passes(passes: Vec<Pass>, Ghost(shown): Ghost<Seq<ShownPass>>) -> (res: Vec<Pass>)
    requires
        passes@.len() == shown.len(),
        forall|i: int| 0 <= i < shown.len() ==> selected(shown, i, #[trigger] passes@[i]),
    ensures
        pass_models(res@) == all_filled(shown),
{
    let mut passes = passes;
    let len: usize = passes.len();
    let mut i: usize = 0;
    while i < len
        invariant
            len == shown.len(),
            passes@.len() == len,
            i <= len,
            forall|j: int| 0 <= j < i ==> (#[trigger] passes@[j])@ == filled(shown, j),
            forall|j: int| i <= j < len ==> selected(shown, j, #[trigger] passes@[j]),
        decreases len - i,
    {
        let ghost before = passes@;
        assert(selected(shown, i as int, passes@[i as int]));
        if passes[i].before.as_str().is_empty() && i > 0 {
            assert(passes@[i - 1]@ == filled(shown, i - 1));
            let text = passes[i - 1].after.clone();
            passes[i].before = text;
        }
        if passes[i].after.as_str().is_empty() && i < len - 1 {
            assert(selected(shown, i + 1, passes@[i + 1]));
            let text = passes[i + 1].before.clone();
            passes[i].after = text;
        }
        let same = same_text(passes[i].before.as_str(), passes[i].after.as_str());
        passes[i].ir_changed = !same;
        proof {
            assert(passes@[i as int]@ =~= filled(shown, i as int));
            assert forall|j: int| i + 1 <= j < len implies selected(
                shown,
                j,
                #[trigger] passes@[j],
            ) by {
                assert(selected(shown, j, before[j]));
            }
        }
        i += 1;
    }
    assert(pass_models(passes@) =~= all_filled(shown));
    passes
}

/// Pairs the dumps of one function. It is `None` where a dump cannot be read.
pub fn pair_dumps(dumps: &Vec<PassDump>) -> (res: Option<Result<Vec<Pass>, PassDumpError>>)
    ensures
        match res {
            Some(Ok(passes)) => pipeline(dump_models(dumps@)) == Some(
                Ok::<_, MismatchModel>(pass_models(passes@)),
            ),
            Some(Err(error)) => pipeline(dump_models(dumps@)) == Some(
                Err::<Seq<PassModel>, _>(error@),
            ),
            None => pipeline(dump_models(dumps@)) is None,
        },
{
    let ghost models = dump_models(dumps@);
    let ghost mut shown: Seq<ShownPass> = Seq::empty();
    let mut passes: Vec<Pass> = Vec::new();
    let mut i: usize = 0;
    proof {
        assert(models.skip(0) =~= models);
        if let Some(Ok(all)) = paired(models) {
            assert(Seq::<ShownPass>::empty() + all =~= all);
        }
    }
    while i < dumps.len()
        invariant
            models == dump_models(dumps@),
            i <= dumps@.len(),
            passes@.len() == shown.len(),
            forall|j: int| 0 <= j < shown.len() ==> selected(shown, j, #[trigger] passes@[j]),
            followed_by(shown, paired(models.skip(i as int))) == paired(models),
        decreases dumps@.len() - i,
    {
        let (mut pass, taken) = match read_pass(dumps, i) {
            Some(Ok(read)) => read,
            Some(Err(error)) => {
                return Some(Err(error));
            },
            None => {
                return None;
            },
        };
        let ghost next = ShownPass {
            name: pass.name@,
            machine: pass.machine,
            before: pass.before@,
            after: pass.after@,
        };
        let ghost old_shown = shown;
        let ghost old_passes = passes@;
        proof {
            lemma_followed_twice(shown, seq![next], paired(models.skip(i + taken)));
            assert(shown + seq![next] =~= shown.push(next));
            shown = shown.push(next);
        }
        // Instruction selection is shown against the IR before it. The machine outliner, whose
        // dumps are the same, is not.
        if passes.len() > 0 {
            let previous = &passes[passes.len() - 1];
            assert(selected(old_shown, old_shown.len() - 1, old_passes[old_shown.len() - 1]));
            if !previous.machine && pass.machine && !same_text(
                pass.before.as_str(),
                pass.after.as_str(),
            ) {
                pass.before = previous.after.clone();
            }
        }
        passes.push(pass);
        proof {
            assert forall|j: int| 0 <= j < shown.len() implies selected(
                shown,
                j,
                #[trigger] passes@[j],
            ) by {
                if j < old_shown.len() {
                    assert(selected(old_shown, j, old_passes[j]));
                }
            }
        }
        i += taken;
    }
    proof {
        assert(models.skip(i as int) =~= Seq::<PassDumpModel>::empty());
        assert(shown + Seq::<ShownPass>::empty() =~= shown);
    }
    Some(Ok(fill_passes(passes, Ghost(shown))))
}

/// Pairs the dumps of all functions. It is `None` where a dump cannot be read.
pub fn pair_all_dumps(table: &FunctionTable<Vec<PassDump>>) -> (res: Option<
    Result<OptPipelineResults, PassDumpError>,
>)
    ensures
        match res {
            Some(Ok(results)) => {
                &&& pipelines(function_dumps(table@)) == Some(
                    Ok::<_, MismatchModel>(function_passes(results@)),
                )
                &&& distinct_names(results@)
            },
            Some(Err(error)) => pipelines(function_dumps(table@)) == Some(
                Err::<Seq<(Seq<char>, Seq<PassModel>)>, _>(error@),
            ),
            None => pipelines(function_dumps(table@)) is None,
        },
{
    let ghost entries = function_dumps(table@);
    let len: usize = table.len();
    let mut results: OptPipelineResults = FunctionTable::new();
    let mut i: usize = 0;
    proof {
        assert(entries.skip(0) =~= entries);
        assert(function_passes(results@) =~= Seq::<(Seq<char>, Seq<PassModel>)>::empty());
        if let Some(Ok(all)) = pipelines(entries) {
            assert(Seq::<(Seq<char>, Seq<PassModel>)>::empty() + all =~= all);
        }
    }
    while i < len
        invariant
            entries == function_dumps(table@),
            len == table@.len(),
            distinct_names(table@),
            i <= table@.len(),
            distinct_names(results@),
            results@.len() == i,
            forall|j: int| 0 <= j < i ==> (#[trigger] results@[j]).0 == table@[j].0,
            followed_by(function_passes(results@), pipelines(entries.skip(i as int))) == pipelines(
                entries,
            ),
        decreases table@.len() - i,
    {
        let name = table.name(i);
        let ghost rest = entries.skip(i as int);
        let ghost before = results@;
        proof {
            assert(rest[0] == entries[i as int]);
            assert(rest.drop_first() =~= entries.skip(i + 1));
        }
        match pair_dumps(table.value(i)) {
            Some(Ok(passes)) => {
                proof {
                    let f = |passes: Vec<Pass>| pass_models(passes@);
                    lemma_mapped_with_entry(before, f, name@, passes);
                    if entry_position(before, name@) is Some {
                        let k = entry_position(before, name@)->0;
                        assert(before[k].0 == table@[k].0);
                        assert(table@[k].0 != table@[i as int].0);
                    }
                    let one = (name@, pass_models(passes@));
                    assert(function_passes(before.push((name@, passes))) =~= function_passes(
                        before,
                    ) + seq![one]);
                    lemma_followed_twice(
                        function_passes(before),
                        seq![one],
                        pipelines(rest.drop_first()),
                    );
                }
                results.insert(name.to_string(), passes);
            },
            Some(Err(error)) => {
                return Some(Err(error));
            },
            None => {
                return None;
            },
        }
        i += 1;
    }
    proof {
        assert(entries.skip(i as int) =~= Seq::<(Seq<char>, Seq<PassDumpModel>)>::empty());
        let all = function_passes(results@);
        assert(all + Seq::<(Seq<char>, Seq<PassModel>)>::empty() =~= all);
    }
    Some(Ok(results))
}

/// A dump after a pass that directly follows a dump before one.
pub open spec fn closes_pass(dumps: Seq<PassDumpModel>, i: int) -> bool {
    0 < i < dumps.len() && is_after(dumps[i].header) && is_before(dumps[i - 1].header)
}

/// Two dumps of one pass: their headers match, and both of them or none are machine code.
pub open spec fn dumps_agree(first: PassDumpModel, second: PassDumpModel) -> bool {
    mismatch(first.header, second.header) is None && first.machine == second.machine
}

/// The header of a dump before or after a pass.
pub open spec fn is_readable(header: Seq<char>) -> bool {
    is_before(header) || is_after(header)
}

/// No header is one before and one after a pass.
pub proof fn lemma_before_or_after(header: Seq<char>)
    ensures
        !(is_before(header) && is_after(header)),
{
    reveal_strlit("IR Dump Before ");
    reveal_strlit("IR Dump After ");
    if is_before(header) && is_after(header) {
        assert("IR Dump Before "@[8] == header[8]);
        assert("IR Dump After "@[8] == header[8]);
    }
}

/// Dumps can be paired if and only if every header can be read and a dump after a pass that
/// directly follows a dump before one is about the same pass.
pub proof fn lemma_paired_if_all_agree(dumps: Seq<PassDumpModel>)
    ensures
        paired(dumps) matches Some(Ok(_)) <==> {
            &&& forall|i: int| 0 <= i < dumps.len() ==> is_readable((#[trigger] dumps[i]).header)
            &&& forall|i: int| #[trigger]
                closes_pass(dumps, i) ==> dumps_agree(dumps[i - 1], dumps[i])
        },
    decreases dumps.len(),
{
    let good = {
        &&& forall|i: int| 0 <= i < dumps.len() ==> is_readable((#[trigger] dumps[i]).header)
        &&& forall|i: int| #[trigger] closes_pass(dumps, i) ==> dumps_agree(dumps[i - 1], dumps[i])
    };
    if dumps.len() == 0 {
    } else {
        let taken = if is_before(dumps[0].header) && closes_pass(dumps, 1) {
            2int
        } else {
            1int
        };
        let rest = dumps.skip(taken);
        lemma_before_or_after(dumps[0].header);
        if taken == 2 {
            lemma_before_or_after(dumps[1].header);
        }
        lemma_paired_if_all_agree(rest);
        let rest_good = {
            &&& forall|i: int| 0 <= i < rest.len() ==> is_readable((#[trigger] rest[i]).header)
            &&& forall|i: int| #[trigger] closes_pass(rest, i) ==> dumps_agree(rest[i - 1], rest[i])
        };
        if good {
            assert forall|i: int| 0 <= i < rest.len() implies is_readable(
                (#[trigger] rest[i]).header,
            ) by {
                assert(rest[i] == dumps[i + taken]);
            }
            assert forall|i: int| #[trigger] closes_pass(rest, i) implies dumps_agree(
                rest[i - 1],
                rest[i],
            ) by {
                assert(closes_pass(dumps, i + taken));
            }
            assert(is_readable(dumps[0].header));
        }
        if rest_good && is_readable(dumps[0].header) && (taken == 2 ==> dumps_agree(
            dumps[0],
            dumps[1],
        )) {
            assert forall|i: int| 0 <= i < dumps.len() implies is_readable(
                (#[trigger] dumps[i]).header,
            ) by {
                if i >= taken {
                    assert(rest[i - taken] == dumps[i]);
                }
            }
            assert forall|i: int| #[trigger] closes_pass(dumps, i) implies dumps_agree(
                dumps[i - 1],
                dumps[i],
            ) by {
                if i > taken {
                    assert(closes_pass(rest, i - taken));
                }
            }
        }
    }
}

/// The pass that opens at a dump.
pub open spec fn shown_at(dumps: Seq<PassDumpModel>, i: int) -> ShownPass {
    if is_after(dumps[i].header) {
        shown_after(dumps[i])
    } else if closes_pass(dumps, i + 1) {
        shown_both(dumps[i], dumps[i + 1])
    } else {
        shown_before(dumps[i])
    }
}

/// The passes that open at the dumps from `from` on: one at each dump that does not close a pass.
pub open spec fn shown_from(dumps: Seq<PassDumpModel>, from: int) -> Seq<ShownPass>
    decreases dumps.len() - from,
{
    if from >= dumps.len() {
        Seq::empty()
    } else if closes_pass(dumps, from) {
        shown_from(dumps, from + 1)
    } else {
        seq![shown_at(dumps, from)] + shown_from(dumps, from + 1)
    }
}

/// Every dump is part of one pass: it opens a pass, or closes the one that the dump before it has
/// opened. The passes come in the order of the dumps.
pub proof fn lemma_every_dump_paired(dumps: Seq<PassDumpModel>, passes: Seq<ShownPass>)
    requires
        paired(dumps) == Some(Ok::<_, MismatchModel>(passes)),
    ensures
        passes == shown_from(dumps, 0),
    decreases dumps.len(),
{
    if dumps.len() > 0 {
        let taken = if is_before(dumps[0].header) && closes_pass(dumps, 1) {
            2int
        } else {
            1int
        };
        let rest = dumps.skip(taken);
        lemma_before_or_after(dumps[0].header);
        if taken == 2 {
            lemma_before_or_after(dumps[1].header);
        }
        let more = paired(rest)->0->Ok_0;
        lemma_every_dump_paired(rest, more);
        assert(!closes_pass(dumps, taken));
        lemma_shown_from_skip(dumps, taken, 0);
        if taken == 2 {
            assert(shown_from(dumps, 1) == shown_from(dumps, 2));
        }
        assert(passes == seq![shown_at(dumps, 0)] + more);
    }
}

/// The passes that open behind some dumps are the same without those dumps.
proof fn lemma_shown_from_skip(dumps: Seq<PassDumpModel>, taken: int, from: int)
    requires
        0 <= taken <= dumps.len(),
        0 <= from,
        !closes_pass(dumps, taken),
    ensures
        shown_from(dumps.skip(taken), from) == shown_from(dumps, from + taken),
    decreases dumps.len() - from,
{
    let rest = dumps.skip(taken);
    if from < rest.len() {
        lemma_shown_from_skip(dumps, taken, from + 1);
        assert(closes_pass(rest, from) == closes_pass(dumps, from + taken));
        assert(closes_pass(rest, from + 1) == closes_pass(dumps, from + 1 + taken));
        assert(rest[from] == dumps[from + taken]);
    }
}

/// Where dumps do not match, the error names a dump before a pass and the dump that directly
/// follows it. The two names differ, and all dumps before them match.
pub proof fn lemma_mismatch_is_first(dumps: Seq<PassDumpModel>, error: MismatchModel) -> (at: int)
    requires
        paired(dumps) == Some(Err::<Seq<ShownPass>, _>(error)),
    ensures
        closes_pass(dumps, at),
        mismatch(dumps[at - 1].header, dumps[at].header) == Some(error),
        error.before_header != error.after_header,
        forall|i: int| #![trigger closes_pass(dumps, i)]
            i < at && closes_pass(dumps, i) ==> dumps_agree(dumps[i - 1], dumps[i]),
    decreases dumps.len(),
{
    let taken = if is_before(dumps[0].header) && closes_pass(dumps, 1) {
        2int
    } else {
        1int
    };
    lemma_before_or_after(dumps[0].header);
    if taken == 2 && mismatch(dumps[0].header, dumps[1].header) is Some {
        1
    } else {
        let rest = dumps.skip(taken);
        let at = lemma_mismatch_is_first(rest, error);
        assert forall|i: int| #![trigger closes_pass(dumps, i)]
            i < at + taken && closes_pass(dumps, i) implies dumps_agree(dumps[i - 1], dumps[i]) by {
            if i > taken {
                assert(closes_pass(rest, i - taken));
            } else if taken == 2 && i == 2 {
                lemma_before_or_after(dumps[1].header);
            }
        }
        assert(closes_pass(dumps, at + taken));
        at + taken
    }
}

/// A pass keeps its name whether or not it has left something behind: the mark of a pass that has
/// not is no part of the name.
pub proof fn lemma_same_pass_matches(name: Seq<char>)
    ensures
        mismatch(
            "IR Dump Before "@ + name,
            "IR Dump After "@ + name + " (invalidated)"@,
        ) is None,
        !" (invalidated)"@.is_suffix_of(name) ==> mismatch(
            "IR Dump Before "@ + name,
            "IR Dump After "@ + name,
        ) is None,
{
    let mark = " (invalidated)"@;
    let before = "IR Dump Before "@ + name;
    let plain = "IR Dump After "@ + name;
    assert(before_name(before) =~= name);
    assert(after_name(plain) =~= name);
    assert(after_name(plain + mark) =~= name + mark);
    assert(mark.is_suffix_of(name + mark)) by {
        assert((name + mark).subrange(name.len() as int, (name + mark).len() as int) =~= mark);
    }
    assert((name + mark).take(name.len() as int) =~= name);
}

/// A pass is marked as one that has changed its function if and only if the function after it is
/// not the function before it.
pub proof fn lemma_changed_is_different(dumps: Seq<PassDumpModel>, passes: Seq<PassModel>, i: int)
    requires
        pipeline(dumps) == Some(Ok::<_, MismatchModel>(passes)),
        0 <= i < passes.len(),
    ensures
        passes[i].ir_changed == (passes[i].before != passes[i].after),
{
}

/// Where no dump shows the function after a pass, or none shows it before the next pass, the
/// function after the one is the function before the other.
pub proof fn lemma_gaps_are_filled(shown: Seq<ShownPass>, i: int)
    requires
        0 <= i < shown.len() - 1,
        shown[i].after.len() == 0 || selected_before(shown, i + 1).len() == 0,
    ensures
        all_filled(shown)[i].after == all_filled(shown)[i + 1].before,
{
}

/// What the dumps show is kept: the names of the passes, and the function after a pass where a
/// dump shows it. So is the function before it, where the pass does not turn IR into machine code.
pub proof fn lemma_shown_is_kept(shown: Seq<ShownPass>, i: int)
    requires
        0 <= i < shown.len(),
    ensures
        all_filled(shown).len() == shown.len(),
        all_filled(shown)[i].name == shown[i].name,
        all_filled(shown)[i].machine == shown[i].machine,
        shown[i].after.len() > 0 ==> all_filled(shown)[i].after == shown[i].after,
        shown[i].before.len() > 0 && (i == 0 || shown[i - 1].machine || !shown[i].machine)
            ==> all_filled(shown)[i].before == shown[i].before,
{
}

/// The passes of all functions can be read if and only if those of each function can. The passes
/// of a function are those that its own dumps show, whatever the dumps of other functions are.
pub proof fn lemma_functions_are_independent(entries: Seq<(Seq<char>, Seq<PassDumpModel>)>)
    ensures
        match pipelines(entries) {
            Some(Ok(results)) => {
                &&& results.len() == entries.len()
                &&& forall|i: int|
                    0 <= i < entries.len() ==> pipeline((#[trigger] entries[i]).1) == Some(
                        Ok::<_, MismatchModel>(results[i].1),
                    ) && results[i].0 == entries[i].0
            },
            Some(Err(error)) => exists|i: int|
                0 <= i < entries.len() && pipeline((#[trigger] entries[i]).1) == Some(
                    Err::<Seq<PassModel>, _>(error),
                ),
            None => exists|i: int|
                0 <= i < entries.len() && pipeline((#[trigger] entries[i]).1) is None,
        },
    decreases entries.len(),
{
    if entries.len() > 0 {
        let rest = entries.drop_first();
        lemma_functions_are_independent(rest);
        match pipelines(entries) {
            Some(Ok(results)) => {
                assert forall|i: int| 0 <= i < entries.len() implies pipeline(
                    (#[trigger] entries[i]).1,
                ) == Some(Ok::<_, MismatchModel>(results[i].1)) && results[i].0 == entries[i].0 by {
                    if i > 0 {
                        assert(rest[i - 1] == entries[i]);
                    }
                }
            },
            Some(Err(error)) => {
                if pipeline(entries[0].1) is Some && pipeline(entries[0].1)->0 is Ok {
                    let i = choose|i: int|
                        0 <= i < rest.len() && pipeline((#[trigger] rest[i]).1) == Some(
                            Err::<Seq<PassModel>, _>(error),
                        );
                    assert(entries[i + 1] == rest[i]);
                }
            },
            None => {
                if pipeline(entries[0].1) is Some {
                    let i = choose|i: int|
                        0 <= i < rest.len() && pipeline((#[trigger] rest[i]).1) is None;
                    assert(entries[i + 1] == rest[i]);
                }
            },
        }
    }
}

/// The first function whose dumps cannot be paired decides what comes of all functions.
pub proof fn lemma_first_failure_counts(entries: Seq<(Seq<char>, Seq<PassDumpModel>)>, i: int)
    requires
        0 <= i < entries.len(),
        forall|j: int|
            0 <= j < i ==> pipeline((#[trigger] entries[j]).1) is Some && pipeline(
                entries[j].1,
            )->0 is Ok,
    ensures
        pipeline(entries[i].1) is None ==> pipelines(entries) is None,
        pipeline(entries[i].1) matches Some(Err(error)) ==> pipelines(entries) == Some(
            Err::<Seq<(Seq<char>, Seq<PassModel>)>, _>(error),
        ),
    decreases i,
{
    if i > 0 {
        let rest = entries.drop_first();
        assert(pipeline(entries[0].1) is Some);
        assert(rest[i - 1] == entries[i]);
        assert forall|j: int| 0 <= j < i - 1 implies pipeline((#[trigger] rest[j]).1) is Some
            && pipeline(rest[j].1)->0 is Ok by {
            assert(rest[j] == entries[j + 1]);
        }
        lemma_first_failure_counts(rest, i - 1);
    }
}

/// The header of a dump before a pass is that mark and a name, and nothing else is one. So is the
/// header of a dump after a pass.
pub proof fn lemma_header_names_pass(header: Seq<char>)
    ensures
        is_before(header) <==> exists|name: Seq<char>| #[trigger]
            ("IR Dump Before "@ + name) == header,
        is_after(header) <==> exists|name: Seq<char>| #[trigger]
            ("IR Dump After "@ + name) == header,
        forall|name: Seq<char>| before_name(#[trigger] ("IR Dump Before "@ + name)) == name,
        forall|name: Seq<char>| after_name(#[trigger] ("IR Dump After "@ + name)) == name,
{
    let first = "IR Dump Before "@;
    let second = "IR Dump After "@;
    if is_before(header) {
        assert(first + before_name(header) =~= header);
    }
    if is_after(header) {
        assert(second + after_name(header) =~= header);
    }
    assert forall|name: Seq<char>| before_name(#[trigger] (first + name)) == name by {
        assert(before_name(first + name) =~= name);
        assert(first =~= (first + name).take(first.len() as int));
    }
    assert forall|name: Seq<char>| after_name(#[trigger] (second + name)) == name by {
        assert(after_name(second + name) =~= name);
        assert(second =~= (second + name).take(second.len() as int));
    }
    if exists|name: Seq<char>| #[trigger] (first + name) == header {
        let name = choose|name: Seq<char>| #[trigger] (first + name) == header;
        assert(first =~= header.take(first.len() as int));
    }
    if exists|name: Seq<char>| #[trigger] (second + name) == header {
        let name = choose|name: Seq<char>| #[trigger] (second + name) == header;
        assert(second =~= header.take(second.len() as int));
    }
}

/// Two headers in a row match if and only if they name the same pass, but for the mark of a pass
/// that has left nothing behind. Where they do not, the error holds the two names without it.
pub proof fn lemma_mismatch_of_names(first: Seq<char>, second: Seq<char>)
    requires
        !" (invalidated)"@.is_suffix_of(second),
    ensures
        ({
            let expected = if first == second {
                None
            } else {
                Some(MismatchModel { before_header: first, after_header: second })
            };
            &&& mismatch("IR Dump Before "@ + first, "IR Dump After "@ + second) == expected
            &&& mismatch(
                "IR Dump Before "@ + first,
                "IR Dump After "@ + (second + " (invalidated)"@),
            ) == expected
        }),
{
    let mark = " (invalidated)"@;
    lemma_header_names_pass("IR Dump Before "@ + first);
    assert(before_name("IR Dump Before "@ + first) == first);
    assert(after_name("IR Dump After "@ + second) == second);
    assert(after_name("IR Dump After "@ + (second + mark)) == second + mark);
    assert(mark.is_suffix_of(second + mark)) by {
        assert((second + mark).subrange(second.len() as int, (second + mark).len() as int)
            =~= mark);
    }
    assert((second + mark).take(second.len() as int) =~= second);
}

/// The text that a dump shows of the function before the pass that opens there.
pub open spec fn text_before(dumps: Seq<PassDumpModel>, at: int) -> Seq<char> {
    if is_before(dumps[at].header) {
        dumps[at].lines
    } else {
        Seq::empty()
    }
}

/// The text that a dump shows of the function after the pass that opens there.
pub open spec fn text_after(dumps: Seq<PassDumpModel>, at: int) -> Seq<char> {
    if is_after(dumps[at].header) {
        dumps[at].lines
    } else if closes_pass(dumps, at + 1) {
        dumps[at + 1].lines
    } else {
        Seq::empty()
    }
}

/// A pass opens at each of these dumps, one behind the other, and at no other dump.
pub open spec fn are_openings(dumps: Seq<PassDumpModel>, openings: Seq<int>) -> bool {
    &&& forall|i: int, j: int|
        0 <= i < j < openings.len() ==> (#[trigger] openings[i]) < (#[trigger] openings[j])
    &&& forall|at: int| #[trigger]
        openings.contains(at) <==> 0 <= at < dumps.len() && !closes_pass(dumps, at)
}

/// The pass at position `i` turns IR into machine code: it works on machine code, the pass
/// directly before it does not, and the dumps show two texts for it.
pub open spec fn selects_instructions(
    dumps: Seq<PassDumpModel>,
    openings: Seq<int>,
    i: int,
) -> bool {
    &&& i > 0
    &&& !dumps[openings[i - 1]].machine
    &&& dumps[openings[i]].machine
    &&& text_before(dumps, openings[i]) != text_after(dumps, openings[i])
}

/// The dumps at which passes open from `from` on.
spec fn openings_from(dumps: Seq<PassDumpModel>, from: int) -> Seq<int>
    decreases dumps.len() - from,
{
    if from >= dumps.len() {
        Seq::empty()
    } else if closes_pass(dumps, from) {
        openings_from(dumps, from + 1)
    } else {
        seq![from] + openings_from(dumps, from + 1)
    }
}

proof fn lemma_openings_from(dumps: Seq<PassDumpModel>, from: int)
    requires
        0 <= from,
    ensures
        ({
            let openings = openings_from(dumps, from);
            let shown = shown_from(dumps, from);
            &&& openings.len() == shown.len()
            &&& forall|i: int|
                0 <= i < openings.len() ==> from <= (#[trigger] openings[i]) < dumps.len()
            &&& forall|i: int, j: int|
                0 <= i < j < openings.len() ==> (#[trigger] openings[i]) < (#[trigger] openings[j])
            &&& forall|at: int| #[trigger]
                openings.contains(at) <==> from <= at < dumps.len() && !closes_pass(dumps, at)
            &&& forall|i: int|
                0 <= i < openings.len() ==> shown[i] == shown_at(dumps, #[trigger] openings[i])
        }),
    decreases dumps.len() - from,
{
    if from < dumps.len() {
        lemma_openings_from(dumps, from + 1);
        let rest = openings_from(dumps, from + 1);
        let openings = openings_from(dumps, from);
        if !closes_pass(dumps, from) {
            assert(openings[0] == from);
            assert forall|at: int| #[trigger] openings.contains(at) <==> from <= at < dumps.len()
                && !closes_pass(dumps, at) by {
                if openings.contains(at) {
                    let i = choose|i: int| 0 <= i < openings.len() && openings[i] == at;
                    if i > 0 {
                        assert(rest[i - 1] == at);
                        assert(rest.contains(at));
                    }
                }
                if rest.contains(at) {
                    let i = choose|i: int| 0 <= i < rest.len() && rest[i] == at;
                    assert(openings[i + 1] == at);
                }
            }
            assert forall|i: int| 0 <= i < openings.len() implies shown_from(dumps, from)[i]
                == shown_at(dumps, #[trigger] openings[i]) by {
                if i > 0 {
                    assert(rest[i - 1] == openings[i]);
                }
            }
            assert forall|i: int| 0 <= i < openings.len() implies from <= (#[trigger] openings[i])
                < dumps.len() by {
                if i > 0 {
                    assert(rest[i - 1] == openings[i]);
                }
            }
            assert forall|i: int, j: int| 0 <= i < j < openings.len() implies (
            #[trigger] openings[i]) < (#[trigger] openings[j]) by {
                assert(rest[j - 1] == openings[j]);
                if i > 0 {
                    assert(rest[i - 1] == openings[i]);
                }
            }
        }
    }
}

/// The pipeline of a function, told by its dumps and by the passes next to each other.
///
/// There is a pass for each dump that opens one, in the order of the dumps, with the name in its
/// header. The function after a pass is what a dump shows of it, or else what a dump shows of it
/// before the next pass. The function before a pass is what a dump shows of it, or else the
/// function after the pass directly before it. For a pass that turns IR into machine code it is
/// the function after the pass directly before it in any case.
pub proof fn lemma_pipeline_of_dumps(dumps: Seq<PassDumpModel>, passes: Seq<PassModel>) -> (openings:
    Seq<int>)
    requires
        pipeline(dumps) == Some(Ok::<_, MismatchModel>(passes)),
    ensures
        are_openings(dumps, openings),
        openings.len() == passes.len(),
        forall|i: int|
            0 <= i < passes.len() ==> {
                let header = dumps[openings[i]].header;
                &&& header == "IR Dump Before "@ + (#[trigger] passes[i]).name || header
                    == "IR Dump After "@ + passes[i].name
                &&& passes[i].machine == dumps[openings[i]].machine
                &&& passes[i].ir_changed == (passes[i].before != passes[i].after)
            },
        forall|i: int|
            0 <= i < passes.len() && selects_instructions(dumps, openings, i) ==> (
            #[trigger] passes[i]).before == passes[i - 1].after,
        forall|i: int|
            0 <= i < passes.len() && !selects_instructions(dumps, openings, i) ==> (
            #[trigger] passes[i]).before == if text_before(dumps, openings[i]).len() > 0 {
                text_before(dumps, openings[i])
            } else if i > 0 {
                passes[i - 1].after
            } else {
                Seq::empty()
            },
        forall|i: int|
            0 <= i < passes.len() ==> (#[trigger] passes[i]).after == if text_after(
                dumps,
                openings[i],
            ).len() > 0 {
                text_after(dumps, openings[i])
            } else if i < passes.len() - 1 && !selects_instructions(dumps, openings, i + 1) {
                text_before(dumps, openings[i + 1])
            } else {
                Seq::empty()
            },
{
    let shown = paired(dumps)->0->Ok_0;
    lemma_every_dump_paired(dumps, shown);
    let openings = openings_from(dumps, 0);
    lemma_openings_from(dumps, 0);
    lemma_paired_if_all_agree(dumps);
    assert forall|i: int| 0 <= i < openings.len() implies {
        &&& shown[i].before == text_before(dumps, #[trigger] openings[i])
        &&& shown[i].after == text_after(dumps, openings[i])
        &&& shown[i].machine == dumps[openings[i]].machine
        &&& is_readable(dumps[openings[i]].header)
    } by {
        let at = openings[i];
        lemma_before_or_after(dumps[at].header);
        assert(shown[i] == shown_at(dumps, at));
        assert(is_readable(dumps[at].header));
        assert(shown[i].before =~= text_before(dumps, at));
        assert(shown[i].after =~= text_after(dumps, at));
    }
    assert forall|i: int| 0 <= i < passes.len() implies {
        let header = dumps[openings[i]].header;
        &&& header == "IR Dump Before "@ + (#[trigger] passes[i]).name || header
            == "IR Dump After "@ + passes[i].name
        &&& passes[i].machine == dumps[openings[i]].machine
        &&& passes[i].ir_changed == (passes[i].before != passes[i].after)
    } by {
        let header = dumps[openings[i]].header;
        assert(shown[i] == shown_at(dumps, openings[i]));
        lemma_before_or_after(header);
        if is_after(header) {
            assert("IR Dump After "@ + after_name(header) =~= header);
        } else {
            assert("IR Dump Before "@ + before_name(header) =~= header);
        }
    }
    assert forall|i: int| 0 < i < passes.len() implies #[trigger] selects_instructions(
        dumps,
        openings,
        i,
    ) == (!shown[i - 1].machine && shown[i].machine && shown[i].before != shown[i].after) by {
        assert(shown[i - 1].machine == dumps[openings[i - 1]].machine);
        assert(shown[i].machine == dumps[openings[i]].machine);
    }
    assert forall|i: int| 0 <= i < passes.len() implies (#[trigger] passes[i]).after
        == if text_after(dumps, openings[i]).len() > 0 {
        text_after(dumps, openings[i])
    } else if i < passes.len() - 1 && !selects_instructions(dumps, openings, i + 1) {
        text_before(dumps, openings[i + 1])
    } else {
        Seq::empty()
    } by {
        assert(shown[i].after == text_after(dumps, openings[i]));
        if i < passes.len() - 1 {
            assert(shown[i + 1].before == text_before(dumps, openings[i + 1]));
            assert(shown[i].after.len() == 0 ==> shown[i].after =~= Seq::<char>::empty());
        } else {
            assert(shown[i].after.len() == 0 ==> shown[i].after =~= Seq::<char>::empty());
        }
    }
    assert forall|i: int| 0 <= i < passes.len() && selects_instructions(
        dumps,
        openings,
        i,
    ) implies (#[trigger] passes[i]).before == passes[i - 1].after by {
        assert(selected_before(shown, i) == shown[i - 1].after);
    }
    assert forall|i: int| 0 <= i < passes.len() && !selects_instructions(
        dumps,
        openings,
        i,
    ) implies (#[trigger] passes[i]).before == if text_before(dumps, openings[i]).len() > 0 {
        text_before(dumps, openings[i])
    } else if i > 0 {
        passes[i - 1].after
    } else {
        Seq::empty()
    } by {
        assert(shown[i].before == text_before(dumps, openings[i]));
        assert(shown[i].before.len() == 0 ==> shown[i].before =~= Seq::<char>::empty());
    }
    openings
}

/// The message for two dumps that do not match tells the pass of the first one and the pass of the
/// second one, in this order, between texts that are the same for all dumps.
pub proof fn lemma_mismatch_messages() -> (parts: (Seq<char>, Seq<char>, Seq<char>))
    ensures
        forall|first: Seq<char>, second: Seq<char>| #[trigger]
            mismatch_message(MismatchModel { before_header: first, after_header: second })
                == parts.0 + first + parts.1 + second + parts.2,
{
    (
        "Consecutive pass headers in dump file do not match:\nFirst:  '"@,
        "'\nSecond: '"@,
        "'\n\n'optdiff' compares each pass dump with its immediate next dump in the file.\nThis error typically occurs when multiple compiler instances write to the same dump file.\nPlease run a single compiler instance at a time."@,
    )
}

proof fn lemma_nothing_followed<A>(rest: Pairing<A>)
    ensures
        followed_by(Seq::empty(), rest) == rest,
{
    if let Some(Ok(more)) = rest {
        assert(Seq::<A>::empty() + more =~= more);
    }
}

/// Dumps in front of a dump before a pass are paired by themselves: what follows them has no part
/// in their passes, and they have none in the passes of what follows.
pub proof fn lemma_paired_in_front(
    first: Seq<PassDumpModel>,
    second: Seq<PassDumpModel>,
    passes: Seq<ShownPass>,
)
    requires
        paired(first) == Some(Ok::<_, MismatchModel>(passes)),
        second.len() > 0,
        is_before(second[0].header),
    ensures
        paired(first + second) == followed_by(passes, paired(second)),
    decreases first.len(),
{
    let all = first + second;
    lemma_before_or_after(second[0].header);
    if first.len() == 0 {
        assert(all =~= second);
        lemma_nothing_followed(paired(second));
    } else {
        assert(all[0] == first[0]);
        assert(first.len() == 1 ==> all[1] == second[0]);
        assert(first.len() > 1 ==> all[1] == first[1]);
        let pairs = first.len() > 1 && !is_after(first[0].header) && is_after(first[1].header);
        let taken: int = if pairs {
            2
        } else {
            1
        };
        let head = if is_after(first[0].header) {
            shown_after(first[0])
        } else if pairs {
            shown_both(first[0], first[1])
        } else {
            shown_before(first[0])
        };
        let less = first.skip(taken);
        assert(all.skip(taken) =~= less + second);
        assert(paired(first) == followed_by(seq![head], paired(less)));
        let more = paired(less)->0->Ok_0;
        lemma_paired_in_front(less, second, more);
        assert(paired(all) == followed_by(seq![head], paired(less + second)));
        lemma_followed_twice(seq![head], more, paired(second));
    }
}

/// Where a dump before one pass is followed by a dump after another one, and all dumps in front of
/// them can be paired, the error tells the names of the two passes, without the mark of a pass
/// that left nothing behind.
pub proof fn lemma_mismatch_is_told(
    dumps: Seq<PassDumpModel>,
    at: int,
    passes: Seq<ShownPass>,
    first: Seq<char>,
    second: Seq<char>,
)
    requires
        0 <= at < dumps.len() - 1,
        paired(dumps.take(at)) == Some(Ok::<_, MismatchModel>(passes)),
        dumps[at].header == "IR Dump Before "@ + first,
        dumps[at + 1].header == "IR Dump After "@ + second || dumps[at + 1].header
            == "IR Dump After "@ + (second + " (invalidated)"@),
        !" (invalidated)"@.is_suffix_of(second),
        first != second,
    ensures
        pipeline(dumps) == Some(
            Err::<Seq<PassModel>, _>(MismatchModel { before_header: first, after_header: second }),
        ),
{
    let rest = dumps.skip(at);
    let before = dumps[at].header;
    let after = dumps[at + 1].header;
    assert(dumps =~= dumps.take(at) + rest);
    assert(rest[0].header == before && rest[1].header == after);
    assert(before.take("IR Dump Before "@.len() as int) =~= "IR Dump Before "@);
    assert(is_before(before));
    assert(after.take("IR Dump After "@.len() as int) =~= "IR Dump After "@);
    assert(is_after(after));
    lemma_mismatch_of_names(first, second);
    lemma_before_or_after(before);
    lemma_paired_in_front(dumps.take(at), rest, passes);
}

} // verus!
