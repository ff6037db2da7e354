//! What the verdict on a file rests on, what a tally counts, and what is said of every
//! module.
use crate::check::{
    all_early, all_files, all_late, cannot_declare_a_module, check_group, check_models, count,
    declares_none, group_files, incomplete, late_lines, members, module_error_text, module_fine,
    module_lines, modules_lines, shape_text, status, uses_approximation, verdict_on, CheckTally,
    CheckedFile, ModuleOutcome, ParseOutcome, Verdict,
};
use crate::listing::{said, skipped_text, Line, LineView};
use crate::refusal::{has_keyword, is_keyword, Token};
use crate::text::{contains_text, texts};
use vstd::prelude::*;

verus! {

// ---- verdicts -------------------------------------------------------------

/// A text is made of something, the word, and something else.
pub open spec fn occurs(word: Seq<char>, text: Seq<char>) -> bool {
    exists|before: Seq<char>, after: Seq<char>| text == #[trigger] (before + word + after)
}

proof fn lemma_occurs(word: Seq<char>, text: Seq<char>)
    ensures
        occurs(word, text) == contains_text(text, word),
{
    if occurs(word, text) {
        let (before, after) = choose|before: Seq<char>, after: Seq<char>|
            text == #[trigger] (before + word + after);
        let i = before.len() as int;
        assert(text.subrange(i, i + word.len()) =~= word);
    }
    if contains_text(text, word) {
        let i = choose|i: int|
            0 <= i <= text.len() - word.len() && #[trigger] text.subrange(i, i + word.len()) == word;
        let before = text.subrange(0, i);
        let after = text.subrange(i + word.len(), text.len() as int);
        assert(text =~= before + word + after);
    }
}

/// The file may declare a module: it cannot be read, or the word `module` or a directive
/// that could bring one in stands in it.
pub open spec fn may_declare(f: CheckedFile) -> bool {
    f.source matches Some(s) ==> occurs("module"@, s@) || occurs("`include"@, s@)
}

/// The module did not elaborate, or no instance of it can be generated and that is asked
/// for.
pub open spec fn broken(m: ModuleOutcome, codegen: bool) -> bool {
    match m {
        ModuleOutcome::Failed { .. } => true,
        ModuleOutcome::Elaborated { fault: Some(_), .. } => codegen,
        ModuleOutcome::Elaborated { fault: None, .. } => false,
    }
}

/// The file may declare a module, was parsed and has one, and none of its modules is
/// broken.
pub open spec fn passes(f: CheckedFile, codegen: bool) -> bool {
    &&& may_declare(f)
    &&& f.outcome matches ParseOutcome::Parsed { modules, .. } && modules@.len() > 0 && forall|i: int|
        0 <= i < modules@.len() ==> !broken(#[trigger] modules@[i], codegen)
}

/// The file may declare a module and was not parsed, or some module of it is broken.
pub open spec fn fails(f: CheckedFile, codegen: bool) -> bool {
    &&& may_declare(f)
    &&& f.outcome matches ParseOutcome::Parsed { modules, .. } ==> exists|i: int|
        0 <= i < modules@.len() && broken(#[trigger] modules@[i], codegen)
}

/// The file cannot declare a module, or was parsed and has none.
pub open spec fn is_moduleless(f: CheckedFile) -> bool {
    ||| !may_declare(f)
    ||| f.outcome matches ParseOutcome::Parsed { modules, .. } && modules@.len() == 0
}

/// Some directive of the file could not be resolved.
pub open spec fn cut_short(f: CheckedFile) -> bool {
    match f.outcome {
        ParseOutcome::Unreadable { .. } => false,
        ParseOutcome::NotPreprocessed { skipped, .. } => skipped@.len() > 0,
        ParseOutcome::NotLexed { skipped, .. } => skipped@.len() > 0,
        ParseOutcome::NotParsed { skipped, .. } => skipped@.len() > 0,
        ParseOutcome::Parsed { skipped, .. } => skipped@.len() > 0,
    }
}

/// The operator `absdelay` stands among the tokens of the file.
pub open spec fn delays(f: CheckedFile) -> bool {
    exists|i: int|
        0 <= i < f.tokens@.len() && (#[trigger] f.tokens@[i] matches Token::Keyword(k) && k@
            == "absdelay"@)
}

/// Whether a file may declare a module is what the check goes by.
pub proof fn lemma_may_declare(f: CheckedFile)
    ensures
        may_declare(f) == !declares_none(f.source),
{
    if let Some(s) = f.source {
        lemma_occurs("module"@, s@);
        lemma_occurs("`include"@, s@);
    }
}

/// The verdict on a file is the one that its modules give.
pub proof fn lemma_verdict(f: CheckedFile, codegen: bool)
    ensures
        verdict_on(f, codegen) == Verdict::Passed <==> passes(f, codegen),
        verdict_on(f, codegen) == Verdict::Failed <==> fails(f, codegen),
        verdict_on(f, codegen) == Verdict::NoModule <==> is_moduleless(f),
        incomplete(f) == cut_short(f),
        uses_approximation(f) == delays(f),
{
    if let Some(s) = f.source {
        lemma_occurs("module"@, s@);
        lemma_occurs("`include"@, s@);
    }
    if let ParseOutcome::Parsed { modules, .. } = f.outcome {
        assert forall|i: int| 0 <= i < modules@.len() implies module_fine(
            #[trigger] modules@[i],
            codegen,
        ) == !broken(modules@[i], codegen) by {}
        if exists|i: int| 0 <= i < modules@.len() && broken(#[trigger] modules@[i], codegen) {
            let i = choose|i: int| 0 <= i < modules@.len() && broken(#[trigger] modules@[i], codegen);
            assert(!module_fine(modules@[i], codegen));
        }
    }
    if delays(f) {
        let i = choose|i: int|
            0 <= i < f.tokens@.len() && (#[trigger] f.tokens@[i] matches Token::Keyword(k) && k@
                == "absdelay"@);
        assert(is_keyword(f.tokens@[i], "absdelay"@));
    }
    if has_keyword(f.tokens@, "absdelay"@) {
        let i = choose|i: int|
            0 <= i < f.tokens@.len() && is_keyword(#[trigger] f.tokens@[i], "absdelay"@);
        assert(f.tokens@[i] matches Token::Keyword(k) && k@ == "absdelay"@);
    }
}

// ---- tallies --------------------------------------------------------------

/// The number of files that are in a class.
pub open spec fn how_many(files: Seq<CheckedFile>, class: spec_fn(CheckedFile) -> bool) -> int
    decreases files.len(),
{
    if files.len() == 0 {
        0
    } else {
        how_many(files.drop_last(), class) + if class(files.last()) {
            1int
        } else {
            0int
        }
    }
}

proof fn lemma_same_count(
    files: Seq<CheckedFile>,
    a: spec_fn(CheckedFile) -> bool,
    b: spec_fn(CheckedFile) -> bool,
)
    requires
        forall|f: CheckedFile| #[trigger] a(f) == b(f),
    ensures
        count(files, a) == how_many(files, b),
    decreases files.len(),
{
    if files.len() > 0 {
        lemma_same_count(files.drop_last(), a, b);
        assert(a(files.last()) == b(files.last()));
    }
}

/// The numbers of a tally are those of the files that pass, that fail and that have no
/// module, and of those among them that are cut short or delay.
pub open spec fn tallies(tally: CheckTally, files: Seq<CheckedFile>, codegen: bool) -> bool {
    &&& tally.passed == how_many(files, |f: CheckedFile| passes(f, codegen))
    &&& tally.passed_incomplete == how_many(
        files,
        |f: CheckedFile| passes(f, codegen) && cut_short(f),
    )
    &&& tally.failed == how_many(files, |f: CheckedFile| fails(f, codegen))
    &&& tally.failed_incomplete == how_many(
        files,
        |f: CheckedFile| fails(f, codegen) && cut_short(f),
    )
    &&& tally.no_module == how_many(files, |f: CheckedFile| is_moduleless(f))
    &&& tally.passed_approximated == how_many(
        files,
        |f: CheckedFile| passes(f, codegen) && delays(f),
    )
}

proof fn lemma_tallies(tally: CheckTally, files: Seq<CheckedFile>, codegen: bool)
    requires
        tally.counts(files, codegen),
    ensures
        tallies(tally, files, codegen),
{
    assert forall|f: CheckedFile| true implies #[trigger] verdict_on(f, codegen) == Verdict::Passed
        <==> passes(f, codegen) by {
        lemma_verdict(f, codegen);
    }
    assert forall|f: CheckedFile| true implies #[trigger] verdict_on(f, codegen) == Verdict::Failed
        <==> fails(f, codegen) by {
        lemma_verdict(f, codegen);
    }
    assert forall|f: CheckedFile| true implies #[trigger] verdict_on(f, codegen)
        == Verdict::NoModule <==> is_moduleless(f) by {
        lemma_verdict(f, codegen);
    }
    assert forall|f: CheckedFile| true implies #[trigger] incomplete(f) == cut_short(f) by {
        lemma_verdict(f, codegen);
    }
    assert forall|f: CheckedFile| true implies #[trigger] uses_approximation(f) == delays(f) by {
        lemma_verdict(f, codegen);
    }
    lemma_same_count(
        files,
        |f: CheckedFile| verdict_on(f, codegen) == Verdict::Passed,
        |f: CheckedFile| passes(f, codegen),
    );
    lemma_same_count(
        files,
        |f: CheckedFile| verdict_on(f, codegen) == Verdict::Passed && incomplete(f),
        |f: CheckedFile| passes(f, codegen) && cut_short(f),
    );
    lemma_same_count(
        files,
        |f: CheckedFile| verdict_on(f, codegen) == Verdict::Failed,
        |f: CheckedFile| fails(f, codegen),
    );
    lemma_same_count(
        files,
        |f: CheckedFile| verdict_on(f, codegen) == Verdict::Failed && incomplete(f),
        |f: CheckedFile| fails(f, codegen) && cut_short(f),
    );
    lemma_same_count(
        files,
        |f: CheckedFile| verdict_on(f, codegen) == Verdict::NoModule,
        |f: CheckedFile| is_moduleless(f),
    );
    lemma_same_count(
        files,
        |f: CheckedFile| verdict_on(f, codegen) == Verdict::Passed && uses_approximation(f),
        |f: CheckedFile| passes(f, codegen) && delays(f),
    );
}

/// The tally of a directory counts a file as passed exactly if it may declare a module,
/// has one and none of its modules is broken, and as failed exactly if it may declare one
/// and was not parsed, or any of its modules is broken.
pub proof fn a_group_is_tallied_by_every_module(
    group: &Vec<CheckedFile>,
    codegen: bool,
    r: (CheckTally, Vec<Line>),
)
    requires
        call_ensures(check_group, (group, codegen), r),
    ensures
        tallies(r.0, group@, codegen),
{
    lemma_tallies(r.0, group@, codegen);
}

/// The same holds of the tally over all directories.
pub proof fn a_run_is_tallied_by_every_module(
    groups: &Vec<Vec<CheckedFile>>,
    codegen: bool,
    r: (CheckTally, Vec<Line>),
    flat: Seq<CheckedFile>,
)
    requires
        call_ensures(check_models, (groups, codegen), r),
        flat == Seq::new(groups@.len(), |g: int| groups@[g]@).flatten(),
    ensures
        tallies(r.0, flat, codegen),
{
    lemma_flat(groups@);
    lemma_tallies(r.0, flat, codegen);
}

proof fn lemma_flat(groups: Seq<Vec<CheckedFile>>)
    ensures
        all_files(groups) == Seq::new(groups.len(), |g: int| groups[g]@).flatten(),
    decreases groups.len(),
{
    let parts = Seq::new(groups.len(), |g: int| groups[g]@);
    if groups.len() > 0 {
        lemma_flat(groups.drop_last());
        let fewer = Seq::new(groups.drop_last().len(), |g: int| groups.drop_last()[g]@);
        assert(parts =~= fewer.push(groups.last()@));
        fewer.lemma_flatten_push(groups.last()@);
    }
}

/// A file that may declare a module fails, whatever its other modules are and wherever the
/// broken one stands.
pub proof fn one_broken_module_fails_a_file(
    group: &Vec<CheckedFile>,
    codegen: bool,
    r: (CheckTally, Vec<Line>),
    modules: Vec<ModuleOutcome>,
    skipped: Vec<String>,
    i: int,
)
    requires
        call_ensures(check_group, (group, codegen), r),
        group@.len() == 1,
        may_declare(group@[0]),
        group@[0].outcome == (ParseOutcome::Parsed { modules, skipped }),
        0 <= i < modules@.len(),
        broken(modules@[i], codegen),
    ensures
        r.0.failed == 1,
        r.0.passed == 0,
        r.0.no_module == 0,
{
    lemma_tallies(r.0, group@, codegen);
    reveal_with_fuel(how_many, 2);
    assert(fails(group@[0], codegen));
    assert(!passes(group@[0], codegen));
    assert(group@.last() == group@[0]);
}

/// The verdict on a file does not depend on the order of its modules: two files with the
/// same modules, in whatever order and however often, are tallied alike.
pub proof fn the_order_of_modules_makes_no_difference(
    one: &Vec<CheckedFile>,
    other: &Vec<CheckedFile>,
    codegen: bool,
    a: (CheckTally, Vec<Line>),
    b: (CheckTally, Vec<Line>),
    modules: Vec<ModuleOutcome>,
    shuffled: Vec<ModuleOutcome>,
    skipped: Vec<String>,
)
    requires
        call_ensures(check_group, (one, codegen), a),
        call_ensures(check_group, (other, codegen), b),
        one@.len() == 1,
        other@.len() == 1,
        one@[0].source == other@[0].source,
        one@[0].tokens == other@[0].tokens,
        one@[0].outcome == (ParseOutcome::Parsed { modules, skipped }),
        other@[0].outcome == (ParseOutcome::Parsed { modules: shuffled, skipped }),
        forall|m: ModuleOutcome| #[trigger] modules@.contains(m) <==> shuffled@.contains(m),
    ensures
        a.0 == b.0,
{
    lemma_tallies(a.0, one@, codegen);
    lemma_tallies(b.0, other@, codegen);
    reveal_with_fuel(how_many, 2);
    let (f, g) = (one@[0], other@[0]);
    assert(one@.last() == f && other@.last() == g);
    assert forall|i: int| 0 <= i < modules@.len() implies shuffled@.contains(
        #[trigger] modules@[i],
    ) by {
        assert(modules@.contains(modules@[i]));
    }
    assert forall|i: int| 0 <= i < shuffled@.len() implies modules@.contains(
        #[trigger] shuffled@[i],
    ) by {
        assert(shuffled@.contains(shuffled@[i]));
    }
    assert(modules@.len() > 0 <==> shuffled@.len() > 0) by {
        if modules@.len() > 0 {
            assert(shuffled@.contains(modules@[0]));
        }
        if shuffled@.len() > 0 {
            assert(modules@.contains(shuffled@[0]));
        }
    }
    if exists|i: int| 0 <= i < modules@.len() && broken(#[trigger] modules@[i], codegen) {
        let i = choose|i: int| 0 <= i < modules@.len() && broken(#[trigger] modules@[i], codegen);
        let j = choose|j: int| 0 <= j < shuffled@.len() && shuffled@[j] == modules@[i];
        assert(broken(shuffled@[j], codegen));
    }
    if exists|i: int| 0 <= i < shuffled@.len() && broken(#[trigger] shuffled@[i], codegen) {
        let i = choose|i: int| 0 <= i < shuffled@.len() && broken(#[trigger] shuffled@[i], codegen);
        let j = choose|j: int| 0 <= j < modules@.len() && modules@[j] == shuffled@[i];
        assert(broken(modules@[j], codegen));
    }
    assert(passes(f, codegen) == passes(g, codegen));
    assert(fails(f, codegen) == fails(g, codegen));
    assert(is_moduleless(f) == is_moduleless(g));
    assert(delays(f) == delays(g));
}

/// A file can be proved to declare no module exactly if neither the word nor a directive
/// stands in its text.
pub proof fn a_file_without_the_word_declares_nothing(source: &Option<String>, r: bool)
    requires
        call_ensures(cannot_declare_a_module, (source,), r),
    ensures
        source is None ==> !r,
        source matches Some(s) ==> (r <==> !occurs("module"@, s@) && !occurs("`include"@, s@)),
{
    if let Some(s) = source {
        lemma_occurs("module"@, s@);
        lemma_occurs("`include"@, s@);
    }
}

// ---- what is said of every module ----------------------------------------

proof fn lemma_module_said(
    path: Seq<char>,
    modules: Seq<ModuleOutcome>,
    skipped: Seq<String>,
    codegen: bool,
    upto: int,
    i: int,
    line: LineView,
)
    requires
        0 <= i < upto <= modules.len(),
        module_lines(path, modules[i], skipped, codegen).contains(line),
    ensures
        modules_lines(path, modules, skipped, codegen, upto).contains(line),
    decreases upto,
{
    let before = modules_lines(path, modules, skipped, codegen, upto - 1);
    let own = module_lines(path, modules[upto - 1], skipped, codegen);
    if i == upto - 1 {
        let k = choose|k: int| 0 <= k < own.len() && own[k] == line;
        assert((before + own)[before.len() + k] == line);
    } else {
        lemma_module_said(path, modules, skipped, codegen, upto - 1, i, line);
        let k = choose|k: int| 0 <= k < before.len() && before[k] == line;
        assert((before + own)[k] == line);
    }
}

proof fn lemma_file_said(files: Seq<CheckedFile>, codegen: bool, k: int, line: LineView)
    requires
        0 <= k < files.len(),
        late_lines(files[k], codegen).contains(line),
    ensures
        all_late(files, codegen).contains(line),
    decreases files.len(),
{
    let before = all_late(files.drop_last(), codegen);
    let own = late_lines(files.last(), codegen);
    if k == files.len() - 1 {
        let j = choose|j: int| 0 <= j < own.len() && own[j] == line;
        assert((before + own)[before.len() + j] == line);
    } else {
        lemma_file_said(files.drop_last(), codegen, k, line);
        let j = choose|j: int| 0 <= j < before.len() && before[j] == line;
        assert((before + own)[j] == line);
    }
}

/// Every module of every parsed file has a line of its own: one that did not elaborate
/// with its error, one that no instance can be generated for, where that is asked for,
/// with the reason, and every other with its counts.
pub proof fn every_module_is_reported(
    group: &Vec<CheckedFile>,
    codegen: bool,
    r: (CheckTally, Vec<Line>),
    k: int,
    modules: Vec<ModuleOutcome>,
    skipped: Vec<String>,
    i: int,
)
    requires
        call_ensures(check_group, (group, codegen), r),
        0 <= k < group@.len(),
        may_declare(group@[k]),
        group@[k].outcome == (ParseOutcome::Parsed { modules, skipped }),
        0 <= i < modules@.len(),
    ensures
        said(r.1@).contains(
            LineView::Listing(
                (match modules@[i] {
                    ModuleOutcome::Failed { name, error } => "  [elab ] "@ + group@[k].path@ + ": "@
                        + ("module `"@ + name@ + "`: "@ + error@),
                    ModuleOutcome::Elaborated { shape, fault } => if codegen && fault is Some {
                        "  [cgen ] "@ + group@[k].path@ + ": "@ + ("module `"@ + shape.name@ + "`: "@
                            + fault->0.error@)
                    } else {
                        "  [ok   ] "@ + group@[k].path@ + ": "@ + shape_text(shape, skipped@.len())
                    },
                }) + skipped_text(texts(skipped@)),
            ),
        ),
{
    let f = group@[k];
    lemma_verdict(f, codegen);
    if let Some(s) = f.source {
        lemma_occurs("module"@, s@);
        lemma_occurs("`include"@, s@);
    }
    let own = module_lines(f.path@, modules@[i], skipped@, codegen);
    let line = match modules@[i] {
        ModuleOutcome::Failed { name, error } => {
            let line = status(
                "  [elab ] "@,
                f.path@,
                module_error_text(name@, error@),
                skipped@,
            );
            assert(own[0] == line);
            line
        },
        ModuleOutcome::Elaborated { shape, fault } => {
            let before = if shape.scales_by_mfactor {
                crate::listing::mfactor_texts(shape.name@, f.path@)
            } else {
                Seq::empty()
            };
            let line = if codegen && fault is Some {
                status(
                    "  [cgen ] "@,
                    f.path@,
                    module_error_text(shape.name@, fault->0.error@),
                    skipped@,
                )
            } else {
                status("  [ok   ] "@, f.path@, shape_text(shape, skipped@.len()), skipped@)
            };
            assert(own[before.len() as int] == line);
            line
        },
    };
    assert(own.contains(line));
    let n = modules@.len() as int;
    lemma_module_said(f.path@, modules@, skipped@, codegen, n, i, line);
    let all = modules_lines(f.path@, modules@, skipped@, codegen, n);
    let j = choose|j: int| 0 <= j < all.len() && all[j] == line;
    assert(late_lines(f, codegen)[j] == line);
    lemma_file_said(group@, codegen, k, line);
    let late = all_late(group@, codegen);
    let early = all_early(group@);
    let m = choose|m: int| 0 <= m < late.len() && late[m] == line;
    assert((early + late)[early.len() + m] == line);
}

// ---- directories ----------------------------------------------------------

proof fn lemma_members(group_of: Seq<usize>, g: int, upto: int)
    requires
        0 <= upto <= group_of.len(),
        group_of.len() <= usize::MAX,
    ensures
        forall|k: int|
            0 <= k < members(group_of, g, upto).len() ==> {
                let file = #[trigger] members(group_of, g, upto)[k];
                file < upto && group_of[file as int] == g
            },
        forall|k: int, l: int|
            0 <= k < l < members(group_of, g, upto).len() ==> members(group_of, g, upto)[k] < members(
                group_of,
                g,
                upto,
            )[l],
        forall|i: int|
            0 <= i < upto && group_of[i] == g ==> #[trigger] members(group_of, g, upto).contains(
                i as usize,
            ),
    decreases upto,
{
    if upto > 0 {
        lemma_members(group_of, g, upto - 1);
        let before = members(group_of, g, upto - 1);
        let all = members(group_of, g, upto);
        assert forall|i: int| 0 <= i < upto && group_of[i] == g implies #[trigger] all.contains(
            i as usize,
        ) by {
            if i < upto - 1 {
                assert(before.contains(i as usize));
                let k = choose|k: int| 0 <= k < before.len() && before[k] == i as usize;
                assert(all[k] == i as usize);
            } else {
                assert(all.last() == i as usize);
            }
        }
    }
}

/// Every file is listed in its own directory and in no other, and the files of a
/// directory keep their order.
pub proof fn every_file_is_in_its_own_group(group_of: &Vec<usize>, count: usize, r: Vec<Vec<usize>>)
    requires
        call_ensures(group_files, (group_of, count), r),
        forall|i: int| 0 <= i < group_of@.len() ==> #[trigger] group_of@[i] < count,
    ensures
        r@.len() == count,
        forall|i: int|
            0 <= i < group_of@.len() ==> r@[#[trigger] group_of@[i] as int]@.contains(i as usize),
        forall|g: int, k: int|
            0 <= g < count && 0 <= k < r@[g]@.len() ==> group_of@[(#[trigger] r@[g]@[k]) as int]
                == g,
        forall|g: int, k: int, l: int|
            0 <= g < count && 0 <= k < l < r@[g]@.len() ==> r@[g]@[k] < r@[g]@[l],
{
    let n = group_of@.len() as int;
    assert(group_of.len() == n);
    assert forall|i: int| 0 <= i < n implies r@[#[trigger] group_of@[i] as int]@.contains(
        i as usize,
    ) by {
        let g = group_of@[i] as int;
        lemma_members(group_of@, g, n);
        assert(r@[g]@ == members(group_of@, g, n));
    }
    assert forall|g: int, k: int| 0 <= g < count && 0 <= k < r@[g]@.len() implies group_of@[(
    #[trigger] r@[g]@[k]) as int] == g by {
        lemma_members(group_of@, g, n);
        assert(r@[g]@ == members(group_of@, g, n));
    }
    assert forall|g: int, k: int, l: int| 0 <= g < count && 0 <= k < l < r@[g]@.len() implies r@[g]@[k]
        < r@[g]@[l] by {
        lemma_members(group_of@, g, n);
        assert(r@[g]@ == members(group_of@, g, n));
    }
}

/// Adding a tally to another adds every count.
pub proof fn tallies_are_added_count_by_count(tally: &mut CheckTally, more: CheckTally)
    requires
        call_ensures(CheckTally::add_assign, (tally, more), ()),
    ensures
        final(tally).passed == old(tally).passed + more.passed,
        final(tally).failed == old(tally).failed + more.failed,
        final(tally).no_module == old(tally).no_module + more.no_module,
        final(tally).passed_incomplete == old(tally).passed_incomplete + more.passed_incomplete,
        final(tally).failed_incomplete == old(tally).failed_incomplete + more.failed_incomplete,
        final(tally).passed_approximated == old(tally).passed_approximated
            + more.passed_approximated,
{
}

} // verus!
