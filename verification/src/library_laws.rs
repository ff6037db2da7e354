//! Which files of a library a deck reaches, which runs are refused for it, and what the
//! tables of a library hold.
use crate::args::Analysis;
use crate::check_laws::occurs;
use crate::device::is_built_in;
use crate::library::{
    a_deck_reaches_one_list_of_files, asked_models, entry_index, file_reached, files_reached_by,
    first_wins, instances_of, is_entry_named, is_model_file, keep_reached, last_wins,
    library_file, merge_keeping_first, merge_keeping_last, model_files, model_paths, models_of, name_reachable, name_reached,
    paths_distinct, reached_sources, DirectoryEntry, LibraryFile, ModuleSummary,
};
use crate::netlist::{Device, Netlist};
use crate::refusal::{
    all_offences, approximated, approximation_line, has_keyword, has_trigger, is_answer,
    is_keyword, is_word, offences, step_triggers, trigger_line, Refusal, Token,
};
use crate::search::lemma_first_where_holds;
use crate::session::refuse_run;
use crate::text::{join, texts};
use vstd::prelude::*;

verus! {

// ---- which files a deck reaches -------------------------------------------

/// Some module of the file has this name.
pub open spec fn has_module(file: LibraryFile, name: Seq<char>) -> bool {
    exists|m: int| 0 <= m < file.modules@.len() && (#[trigger] file.modules@[m])@ == name
}

/// Some module of the file instantiates one of this name.
pub open spec fn instantiates(file: LibraryFile, name: Seq<char>) -> bool {
    exists|m: int| 0 <= m < file.instantiates@.len() && (#[trigger] file.instantiates@[m])@ == name
}

/// A line of this model is built in, whatever the library holds: a source, an inductor or
/// a coupling.
pub open spec fn needs_no_model(model: Seq<char>) -> bool {
    model == "vsource"@ || model == "inductor"@ || model == "vccs"@ || model == "vcvs"@ || model
        == "cccs"@ || model == "ccvs"@ || model == "mutual"@
}

/// Some line of the deck asks for a model of this name.
pub open spec fn asks_for(net: Netlist, name: Seq<char>) -> bool {
    !needs_no_model(name) && exists|d: int|
        0 <= d < net.devices@.len() && (#[trigger] net.devices@[d]).model@ == name
}

/// The path is on the list.
pub open spec fn is_on(list: Seq<String>, path: Seq<char>) -> bool {
    exists|i: int| 0 <= i < list.len() && (#[trigger] list[i])@ == path
}

proof fn lemma_texts(list: Seq<String>, s: Seq<char>)
    ensures
        texts(list).contains(s) <==> is_on(list, s),
{
    if is_on(list, s) {
        let i = choose|i: int| 0 <= i < list.len() && (#[trigger] list[i])@ == s;
        assert(texts(list)[i] == s);
    }
    if texts(list).contains(s) {
        let i = choose|i: int| 0 <= i < texts(list).len() && texts(list)[i] == s;
        assert(list[i]@ == s);
    }
}

proof fn lemma_file(file: LibraryFile, name: Seq<char>)
    ensures
        file.declares(name) == has_module(file, name),
        file.uses(name) == instantiates(file, name),
{
    lemma_texts(file.modules@, name);
    lemma_texts(file.instantiates@, name);
    if has_module(file, name) {
        let m = choose|m: int| 0 <= m < file.modules@.len() && (#[trigger] file.modules@[m])@ == name;
        assert(file.modules@[m]@ == name);
    }
    if instantiates(file, name) {
        let m = choose|m: int|
            0 <= m < file.instantiates@.len() && (#[trigger] file.instantiates@[m])@ == name;
        assert(file.instantiates@[m]@ == name);
    }
}

proof fn lemma_asked(devices: Seq<Device>, name: Seq<char>)
    ensures
        asked_models(devices).contains(name) <==> !needs_no_model(name) && exists|d: int|
            0 <= d < devices.len() && (#[trigger] devices[d]).model@ == name,
    decreases devices.len(),
{
    assert(is_built_in(name) == needs_no_model(name));
    if devices.len() > 0 {
        let fewer = devices.drop_last();
        lemma_asked(fewer, name);
        let before = asked_models(fewer);
        let all = asked_models(devices);
        assert(is_built_in(devices.last().model@) == needs_no_model(devices.last().model@));
        assert(devices[devices.len() - 1] == devices.last());
        if all.contains(name) {
            let k = choose|k: int| 0 <= k < all.len() && all[k] == name;
            if k < before.len() {
                assert(before[k] == name);
                assert(before.contains(name));
                let d = choose|d: int| 0 <= d < fewer.len() && (#[trigger] fewer[d]).model@ == name;
                assert(devices[d].model@ == name);
            }
        }
        if !needs_no_model(name) && exists|d: int|
            0 <= d < devices.len() && (#[trigger] devices[d]).model@ == name {
            let d = choose|d: int| 0 <= d < devices.len() && (#[trigger] devices[d]).model@ == name;
            if d < fewer.len() {
                assert(fewer[d].model@ == name);
                assert(before.contains(name));
                let k = choose|k: int| 0 <= k < before.len() && before[k] == name;
                assert(all[k] == name);
            } else {
                assert(all.last() == name);
            }
        }
    }
}

/// A deck reaches every file that has a module which one of its lines asks for, and every
/// file that has a module which a reached file instantiates.
pub proof fn reached_files_bring_their_own(
    net: &Netlist,
    files: &Vec<LibraryFile>,
    reached: Vec<String>,
    k: int,
    name: Seq<char>,
)
    requires
        call_ensures(files_reached_by, (net, files), reached),
        paths_distinct(files@),
        0 <= k < files@.len(),
        has_module(files@[k], name),
        asks_for(*net, name) || exists|j: int|
            0 <= j < files@.len() && is_on(reached@, (#[trigger] files@[j]).path@) && instantiates(
                files@[j],
                name,
            ),
    ensures
        is_on(reached@, files@[k].path@),
{
    let roots = models_of(*net);
    lemma_file(files@[k], name);
    lemma_texts(reached@, files@[k].path@);
    lemma_asked(net.devices@, name);
    if asks_for(*net, name) {
        assert(name_reached(files@, roots, name, 0));
    } else {
        let j = choose|j: int|
            0 <= j < files@.len() && is_on(reached@, (#[trigger] files@[j]).path@) && instantiates(
                files@[j],
                name,
            );
        lemma_file(files@[j], name);
        lemma_texts(reached@, files@[j].path@);
        assert(file_reached(files@, roots, files@[j]));
        let by = choose|by: Seq<char>| #[trigger]
            files@[j].declares(by) && name_reachable(files@, roots, by);
        let steps = choose|steps: nat| #[trigger] name_reached(files@, roots, by, steps);
        assert(name_reached(files@, roots, name, (steps + 1) as nat));
    }
    assert(name_reachable(files@, roots, name));
    assert(file_reached(files@, roots, files@[k]));
}

proof fn lemma_in_every_closed_set(
    net: Netlist,
    files: Seq<LibraryFile>,
    closed: spec_fn(Seq<char>) -> bool,
    name: Seq<char>,
    steps: nat,
    k: int,
)
    requires
        is_closed(net, files, closed),
        name_reached(files, models_of(net), name, steps),
        0 <= k < files.len(),
        files[k].declares(name),
    ensures
        closed(files[k].path@),
    decreases steps,
{
    lemma_file(files[k], name);
    lemma_asked(net.devices@, name);
    if steps == 0 {
        assert(asks_for(net, name));
        assert(is_called_for(net, files, closed, name));
    } else {
        let (i, by) = choose|i: int, by: Seq<char>|
            {
                &&& 0 <= i < files.len()
                &&& files[i].uses(name)
                &&& #[trigger] files[i].declares(by)
                &&& name_reached(files, models_of(net), by, (steps - 1) as nat)
            };
        lemma_file(files[i], name);
        lemma_in_every_closed_set(net, files, closed, by, (steps - 1) as nat, i);
        assert(closed(files[i].path@) && instantiates(files[i], name));
        assert(is_called_for(net, files, closed, name));
    }
}

/// The name is asked for by a line of the deck, or instantiated by a file of the set.
pub open spec fn is_called_for(
    net: Netlist,
    files: Seq<LibraryFile>,
    set: spec_fn(Seq<char>) -> bool,
    name: Seq<char>,
) -> bool {
    asks_for(net, name) || exists|j: int|
        0 <= j < files.len() && set((#[trigger] files[j]).path@) && instantiates(files[j], name)
}

/// A set of paths holds every file that has a module which is called for.
pub open spec fn is_closed(
    net: Netlist,
    files: Seq<LibraryFile>,
    set: spec_fn(Seq<char>) -> bool,
) -> bool {
    forall|k: int, name: Seq<char>|
        0 <= k < files.len() && #[trigger] has_module(files[k], name) && is_called_for(
            net,
            files,
            set,
            name,
        ) ==> set(files[k].path@)
}

/// A deck reaches no file that it need not: what it reaches is in every set of files that
/// holds whatever is called for. Each path is listed once.
pub proof fn nothing_else_is_reached(
    net: &Netlist,
    files: &Vec<LibraryFile>,
    reached: Vec<String>,
    set: spec_fn(Seq<char>) -> bool,
)
    requires
        call_ensures(files_reached_by, (net, files), reached),
        is_closed(*net, files@, set),
    ensures
        forall|i: int| 0 <= i < reached@.len() ==> set((#[trigger] reached@[i])@),
        forall|i: int, j: int|
            0 <= i < j < reached@.len() ==> (#[trigger] reached@[i])@ != (#[trigger] reached@[j])@,
{
    let roots = models_of(*net);
    assert forall|i: int| 0 <= i < reached@.len() implies set((#[trigger] reached@[i])@) by {
        let path = reached@[i]@;
        lemma_texts(reached@, path);
        assert(texts(reached@).contains(path));
        assert(crate::library::path_justified(files@, roots, path));
        let k = choose|k: int|
            0 <= k < files@.len() && (#[trigger] files@[k]).path@ == path && file_reached(
                files@,
                roots,
                files@[k],
            );
        let name = choose|name: Seq<char>| #[trigger]
            files@[k].declares(name) && name_reachable(files@, roots, name);
        let steps = choose|steps: nat| #[trigger] name_reached(files@, roots, name, steps);
        lemma_in_every_closed_set(*net, files@, set, name, steps, k);
    }
    assert forall|i: int, j: int| 0 <= i < j < reached@.len() implies (#[trigger] reached@[i])@ != (
    #[trigger] reached@[j])@ by {
        assert(texts(reached@)[i] == reached@[i]@ && texts(reached@)[j] == reached@[j]@);
    }
}

// ---- which runs are refused -----------------------------------------------

/// The token is this reserved word.
pub open spec fn is_reserved(token: Token, word: Seq<char>) -> bool {
    token matches Token::Keyword(k) && k@ == word
}

/// The token is this word, reserved or not.
pub open spec fn reads(token: Token, word: Seq<char>) -> bool {
    (token matches Token::Keyword(k) && k@ == word) || (token matches Token::Ident(k) && k@ == word)
}

/// A transient run would get a source of these tokens wrong: it delays, or it has an event
/// that fires once at the start.
pub open spec fn goes_wrong(tokens: Seq<Token>) -> bool {
    ||| exists|i: int| 0 <= i < tokens.len() && #[trigger] is_reserved(tokens[i], "absdelay"@)
    ||| exists|i: int|
        {
            &&& 0 <= i < tokens.len() - 2
            &&& #[trigger] tokens[i] is At
            &&& tokens[i + 1] is LParen
            &&& reads(tokens[i + 2], "initial_instance"@) || reads(
                tokens[i + 2],
                "initial_model"@,
            )
        }
}

proof fn lemma_offends(path: Seq<char>, tokens: Seq<Token>)
    ensures
        goes_wrong(tokens) <==> offences(path, tokens).len() > 0,
{
    let all = offences(path, tokens);
    assert(all.len() == approximated(tokens).len() + step_triggers(tokens).len());
    if exists|i: int| 0 <= i < tokens.len() && #[trigger] is_reserved(tokens[i], "absdelay"@) {
        let i = choose|i: int| 0 <= i < tokens.len() && #[trigger] is_reserved(tokens[i], "absdelay"@);
        assert(is_keyword(tokens[i], "absdelay"@));
        assert(has_keyword(tokens, "absdelay"@));
    } else if goes_wrong(tokens) {
        let i = choose|i: int|
            {
                &&& 0 <= i < tokens.len() - 2
                &&& #[trigger] tokens[i] is At
                &&& tokens[i + 1] is LParen
                &&& reads(tokens[i + 2], "initial_instance"@) || reads(
                    tokens[i + 2],
                    "initial_model"@,
                )
            };
        assert(tokens[i] is At);
        if reads(tokens[i + 2], "initial_instance"@) {
            assert(is_word(tokens[i + 2], "initial_instance"@));
            assert(has_trigger(tokens, "initial_instance"@));
        } else {
            assert(is_word(tokens[i + 2], "initial_model"@));
            assert(has_trigger(tokens, "initial_model"@));
        }
    }
    if has_keyword(tokens, "absdelay"@) {
        let i = choose|i: int| 0 <= i < tokens.len() && is_keyword(#[trigger] tokens[i], "absdelay"@);
        assert(is_reserved(tokens[i], "absdelay"@));
    }
    if has_trigger(tokens, "initial_instance"@) {
        lemma_trigger(tokens, "initial_instance"@);
    }
    if has_trigger(tokens, "initial_model"@) {
        lemma_trigger(tokens, "initial_model"@);
    }
}

proof fn lemma_trigger(tokens: Seq<Token>, word: Seq<char>)
    requires
        has_trigger(tokens, word),
        word == "initial_instance"@ || word == "initial_model"@,
    ensures
        goes_wrong(tokens),
{
    let i = choose|i: int|
        {
            &&& 0 <= i
            &&& i + 2 < tokens.len()
            &&& #[trigger] tokens[i] is At
            &&& tokens[i + 1] is LParen
            &&& is_word(tokens[i + 2], word)
        };
    assert(tokens[i] is At);
    assert(reads(tokens[i + 2], word));
}

proof fn lemma_all_offences(models: Seq<(String, Vec<Token>)>)
    ensures
        all_offences(models).len() > 0 <==> exists|i: int|
            0 <= i < models.len() && goes_wrong((#[trigger] models[i]).1@),
    decreases models.len(),
{
    if models.len() > 0 {
        let fewer = models.drop_last();
        lemma_all_offences(fewer);
        lemma_offends(models.last().0@, models.last().1@);
        assert(models[models.len() - 1] == models.last());
        if exists|i: int| 0 <= i < fewer.len() && goes_wrong((#[trigger] fewer[i]).1@) {
            let i = choose|i: int| 0 <= i < fewer.len() && goes_wrong((#[trigger] fewer[i]).1@);
            assert(goes_wrong(models[i].1@));
        }
        if exists|i: int| 0 <= i < models.len() && goes_wrong((#[trigger] models[i]).1@) {
            let i = choose|i: int| 0 <= i < models.len() && goes_wrong((#[trigger] models[i]).1@);
            if i < fewer.len() {
                assert(goes_wrong(fewer[i].1@));
            }
        }
    }
}

proof fn lemma_reached_source(
    sources: Seq<(String, Vec<Token>)>,
    reached: Seq<Seq<char>>,
)
    ensures
        (exists|i: int|
            0 <= i < reached_sources(sources, reached).len() && goes_wrong(
                (#[trigger] reached_sources(sources, reached)[i]).1@,
            )) <==> exists|i: int|
            0 <= i < sources.len() && reached.contains((#[trigger] sources[i]).0@) && goes_wrong(
                sources[i].1@,
            ),
    decreases sources.len(),
{
    let kept = reached_sources(sources, reached);
    if sources.len() > 0 {
        let fewer = sources.drop_last();
        lemma_reached_source(fewer, reached);
        let before = reached_sources(fewer, reached);
        assert(sources[sources.len() - 1] == sources.last());
        if exists|i: int| 0 <= i < kept.len() && goes_wrong((#[trigger] kept[i]).1@) {
            let i = choose|i: int| 0 <= i < kept.len() && goes_wrong((#[trigger] kept[i]).1@);
            if i < before.len() {
                assert(goes_wrong(before[i].1@));
                let j = choose|j: int|
                    0 <= j < fewer.len() && reached.contains((#[trigger] fewer[j]).0@)
                        && goes_wrong(fewer[j].1@);
                assert(goes_wrong(sources[j].1@));
            }
        }
        if exists|i: int|
            0 <= i < sources.len() && reached.contains((#[trigger] sources[i]).0@) && goes_wrong(
                sources[i].1@,
            ) {
            let i = choose|i: int|
                0 <= i < sources.len() && reached.contains((#[trigger] sources[i]).0@)
                    && goes_wrong(sources[i].1@);
            if i < fewer.len() {
                assert(reached.contains(fewer[i].0@) && goes_wrong(fewer[i].1@));
                let j = choose|j: int| 0 <= j < before.len() && goes_wrong((#[trigger] before[j]).1@);
                assert(goes_wrong(kept[j].1@));
            } else {
                assert(goes_wrong(kept[before.len() as int].1@));
            }
        }
    }
}

/// A run is refused exactly if it is a transient one and some source that the deck reaches
/// would go wrong in it.
pub proof fn a_run_is_refused_for_what_it_reaches(
    analysis: Analysis,
    net: &Netlist,
    files: &Vec<LibraryFile>,
    sources: Vec<(String, Vec<Token>)>,
    reached: Vec<String>,
    r: Result<(), Refusal>,
)
    requires
        call_ensures(refuse_run, (analysis, net, files, sources), r),
        call_ensures(files_reached_by, (net, files), reached),
    ensures
        r is Err <==> analysis is Transient && exists|i: int|
            0 <= i < sources@.len() && is_on(reached@, (#[trigger] sources@[i]).0@) && goes_wrong(
                sources@[i].1@,
            ),
{
    if analysis is Transient {
        let list = choose|list: Seq<Seq<char>>| #[trigger]
            crate::library::is_reached(*net, files@, list) && is_answer(
                reached_sources(sources@, list),
                r,
            );
        a_deck_reaches_one_list_of_files(*net, files@, list, texts(reached@));
        lemma_all_offences(reached_sources(sources@, list));
        lemma_reached_source(sources@, list);
        assert forall|i: int| 0 <= i < sources@.len() implies (list.contains(
            (#[trigger] sources@[i]).0@,
        ) <==> is_on(reached@, sources@[i].0@)) by {
            lemma_texts(reached@, sources@[i].0@);
        }
    }
}

proof fn lemma_offence_listed(models: Seq<(String, Vec<Token>)>, i: int, line: Seq<char>)
    requires
        0 <= i < models.len(),
        offences(models[i].0@, models[i].1@).contains(line),
    ensures
        all_offences(models).contains(line),
    decreases models.len(),
{
    let before = all_offences(models.drop_last());
    let own = offences(models.last().0@, models.last().1@);
    if i == models.len() - 1 {
        let k = choose|k: int| 0 <= k < own.len() && own[k] == line;
        assert((before + own)[before.len() + k] == line);
    } else {
        lemma_offence_listed(models.drop_last(), i, line);
        let k = choose|k: int| 0 <= k < before.len() && before[k] == line;
        assert((before + own)[k] == line);
    }
}

/// Each of several joined texts stands in the whole.
pub proof fn lemma_joined(items: Seq<Seq<char>>, sep: Seq<char>, line: Seq<char>)
    requires
        items.contains(line),
    ensures
        occurs(line, join(items, sep)),
    decreases items.len(),
{
    let text = join(items, sep);
    let k = choose|k: int| 0 <= k < items.len() && items[k] == line;
    if items.len() == 1 {
        assert(text =~= Seq::empty() + line + Seq::empty());
    } else if k == items.len() - 1 {
        let before = join(items.drop_last(), sep) + sep;
        assert(text =~= before + line + Seq::empty());
    } else {
        assert(items.drop_last()[k] == line);
        lemma_joined(items.drop_last(), sep, line);
        let (before, after) = choose|before: Seq<char>, after: Seq<char>|
            join(items.drop_last(), sep) == #[trigger] (before + line + after);
        let rest = after + (sep + items.last());
        assert(text =~= before + line + rest);
    }
}

/// `@(word` stands somewhere among the tokens.
pub open spec fn fires_once(tokens: Seq<Token>, word: Seq<char>) -> bool {
    exists|i: int|
        {
            &&& 0 <= i < tokens.len() - 2
            &&& #[trigger] tokens[i] is At
            &&& tokens[i + 1] is LParen
            &&& reads(tokens[i + 2], word)
        }
}

proof fn lemma_fires_once(tokens: Seq<Token>, word: Seq<char>)
    ensures
        fires_once(tokens, word) ==> has_trigger(tokens, word),
{
    if fires_once(tokens, word) {
        let i = choose|i: int|
            {
                &&& 0 <= i < tokens.len() - 2
                &&& #[trigger] tokens[i] is At
                &&& tokens[i + 1] is LParen
                &&& reads(tokens[i + 2], word)
            };
        assert(tokens[i] is At);
        assert(is_word(tokens[i + 2], word));
    }
}

/// A refusal names every source that would go wrong, with the operator that delays or the
/// event that fires once.
pub proof fn a_refusal_names_every_offender(
    models: &Vec<(String, Vec<Token>)>,
    e: Refusal,
    i: int,
)
    requires
        call_ensures(crate::refusal::refuse_transient_approximations, (models,), Err(e)),
        0 <= i < models@.len(),
    ensures
        (exists|j: int|
            0 <= j < models@[i].1@.len() && #[trigger] is_reserved(models@[i].1@[j], "absdelay"@))
            ==> occurs(models@[i].0@ + " uses `"@ + "absdelay"@ + "`, which "@, e.what@),
        fires_once(models@[i].1@, "initial_instance"@) ==> occurs(
            models@[i].0@ + " uses `@("@ + "initial_instance"@ + ")`"@,
            e.what@,
        ),
        fires_once(models@[i].1@, "initial_model"@) ==> occurs(
            models@[i].0@ + " uses `@("@ + "initial_model"@ + ")`"@,
            e.what@,
        ),
{
    let path = models@[i].0@;
    let tokens = models@[i].1@;
    let own = offences(path, tokens);
    let a = approximated(tokens);
    let b = step_triggers(tokens);
    if exists|j: int| 0 <= j < tokens.len() && #[trigger] is_reserved(tokens[j], "absdelay"@) {
        let j = choose|j: int| 0 <= j < tokens.len() && #[trigger] is_reserved(tokens[j], "absdelay"@);
        assert(is_keyword(tokens[j], "absdelay"@));
        let line = approximation_line(path, "absdelay"@);
        assert(own[0] == line);
        lemma_offence_listed(models@, i, line);
        lemma_joined(all_offences(models@), "\n"@, line);
        let head = path + " uses `"@ + "absdelay"@ + "`, which "@;
        lemma_head_occurs(head, line.subrange(head.len() as int, line.len() as int), line, e.what@);
    }
    lemma_fires_once(tokens, "initial_instance"@);
    lemma_fires_once(tokens, "initial_model"@);
    if has_trigger(tokens, "initial_instance"@) {
        let line = trigger_line(path, "initial_instance"@);
        assert(b[0] == "initial_instance"@);
        assert(own[a.len() as int] == line);
        lemma_offence_listed(models@, i, line);
        lemma_joined(all_offences(models@), "\n"@, line);
        lemma_trigger_head(path, "initial_instance"@, e.what@);
    }
    if has_trigger(tokens, "initial_model"@) {
        let line = trigger_line(path, "initial_model"@);
        assert(b[b.len() - 1] == "initial_model"@);
        assert(own[a.len() + b.len() - 1] == line);
        lemma_offence_listed(models@, i, line);
        lemma_joined(all_offences(models@), "\n"@, line);
        lemma_trigger_head(path, "initial_model"@, e.what@);
    }
}

proof fn lemma_head_occurs(head: Seq<char>, tail: Seq<char>, line: Seq<char>, text: Seq<char>)
    requires
        line =~= head + tail,
        occurs(line, text),
    ensures
        occurs(head, text),
{
    let (before, after) = choose|before: Seq<char>, after: Seq<char>|
        text == #[trigger] (before + line + after);
    let rest = tail + after;
    assert(text =~= before + head + rest);
}

proof fn lemma_trigger_head(path: Seq<char>, name: Seq<char>, text: Seq<char>)
    requires
        occurs(trigger_line(path, name), text),
    ensures
        occurs(path + " uses `@("@ + name + ")`"@, text),
{
    let line = trigger_line(path, name);
    let head = path + " uses `@("@ + name + ")`"@;
    reveal_strlit(")`");
    assert(line.len() >= head.len() && line.subrange(0, head.len() as int) =~= head) by {
        reveal_strlit(
            ")`, whose body this engine runs at every timepoint                  instead of only when the event fires",
        );
    }
    lemma_head_occurs(head, line.subrange(head.len() as int, line.len() as int), line, text);
}

// ---- tables and files -----------------------------------------------------

/// What a table holds under a name: that of its first entry of the name.
pub open spec fn held<T>(table: Seq<(String, T)>, name: Seq<char>) -> Option<T>
    decreases table.len(),
{
    if table.len() == 0 {
        None
    } else if table[0].0@ == name {
        Some(table[0].1)
    } else {
        held(table.drop_first(), name)
    }
}

proof fn lemma_held<T>(table: Seq<(String, T)>, name: Seq<char>)
    ensures
        ({
            let k = entry_index(table, name);
            &&& 0 <= k <= table.len()
            &&& held(table, name) == if k < table.len() {
                Some(table[k].1)
            } else {
                None
            }
            &&& k < table.len() ==> table[k].0@ == name
            &&& forall|j: int| 0 <= j < k ==> (#[trigger] table[j]).0@ != name
        }),
    decreases table.len(),
{
    let holds = is_entry_named::<T>(name);
    lemma_first_where_holds(table, holds);
    let k = entry_index(table, name);
    if table.len() > 0 {
        assert(holds(table[0]) == (table[0].0@ == name));
        if table[0].0@ != name {
            let rest = table.drop_first();
            lemma_held(rest, name);
            assert(entry_index(table, name) == 1 + entry_index(rest, name));
            if k < table.len() {
                assert(table[k] == rest[k - 1]);
            }
            assert forall|j: int| 0 <= j < k implies (#[trigger] table[j]).0@ != name by {
                if j > 0 {
                    assert(rest[j - 1] == table[j]);
                }
            }
        }
    }
}

proof fn lemma_held_at<T>(table: Seq<(String, T)>, name: Seq<char>, k: int)
    requires
        0 <= k < table.len(),
        table[k].0@ == name,
        forall|j: int| 0 <= j < k ==> (#[trigger] table[j]).0@ != name,
    ensures
        held(table, name) == Some(table[k].1),
        entry_index(table, name) == k,
{
    lemma_held(table, name);
    let c = entry_index(table, name);
    if c < k {
        assert(table[c].0@ != name);
    }
    if k < c {
        assert(table[k].0@ != name);
    }
}

proof fn lemma_held_push<T>(table: Seq<(String, T)>, entry: (String, T), name: Seq<char>)
    ensures
        held(table.push(entry), name) == if held(table, name) is Some {
            held(table, name)
        } else if entry.0@ == name {
            Some(entry.1)
        } else {
            None
        },
{
    let all = table.push(entry);
    lemma_held(table, name);
    let k = entry_index(table, name);
    if k < table.len() {
        assert forall|j: int| 0 <= j < k implies (#[trigger] all[j]).0@ != name by {
            assert(all[j] == table[j]);
        }
        lemma_held_at(all, name, k);
    } else if entry.0@ == name {
        assert forall|j: int| 0 <= j < table.len() implies (#[trigger] all[j]).0@ != name by {
            assert(all[j] == table[j]);
        }
        lemma_held_at(all, name, table.len() as int);
    } else {
        lemma_held(all, name);
        let c = entry_index(all, name);
        if c < all.len() {
            if c < table.len() {
                assert(all[c] == table[c]);
            }
        }
    }
}

/// A table that takes more entries, but none that it has, holds under every name what it
/// held before, and else what the first of the new entries of that name says.
pub proof fn the_first_declaration_is_held<T>(
    table: Seq<(String, T)>,
    more: Seq<(String, T)>,
    name: Seq<char>,
)
    ensures
        held(first_wins(table, more), name) == if held(table, name) is Some {
            held(table, name)
        } else {
            held(more, name)
        },
    decreases more.len(),
{
    if more.len() > 0 {
        let fewer = more.drop_last();
        let last = more.last();
        the_first_declaration_is_held(table, fewer, name);
        let before = first_wins(table, fewer);
        assert(more =~= fewer.push(last));
        lemma_held_push(fewer, last, name);
        lemma_held(before, last.0@);
        lemma_held_push(before, last, name);
    }
}

/// What the last entry of a name says, if there is one.
pub open spec fn last_said<T>(more: Seq<(String, T)>, name: Seq<char>) -> Option<T>
    decreases more.len(),
{
    if more.len() == 0 {
        None
    } else if more.last().0@ == name {
        Some(more.last().1)
    } else {
        last_said(more.drop_last(), name)
    }
}

/// A table that takes more entries, also those that it has, holds under every name what
/// the last of the new entries of that name says, and else what it held before.
pub proof fn the_last_declaration_is_held<T>(
    table: Seq<(String, T)>,
    more: Seq<(String, T)>,
    name: Seq<char>,
)
    ensures
        held(last_wins(table, more), name) == if last_said(more, name) is Some {
            last_said(more, name)
        } else {
            held(table, name)
        },
    decreases more.len(),
{
    if more.len() > 0 {
        let fewer = more.drop_last();
        let last = more.last();
        the_last_declaration_is_held(table, fewer, name);
        let before = last_wins(table, fewer);
        let k = entry_index(before, last.0@);
        lemma_held(before, last.0@);
        if k < before.len() {
            let after = before.update(k, last);
            if last.0@ == name {
                assert forall|j: int| 0 <= j < k implies (#[trigger] after[j]).0@ != name by {
                    assert(after[j] == before[j]);
                }
                lemma_held_at(after, name, k);
            } else {
                lemma_held(before, name);
                lemma_held(after, name);
                let c = entry_index(before, name);
                if c < before.len() {
                    assert forall|j: int| 0 <= j < c implies (#[trigger] after[j]).0@ != name by {
                        if j != k {
                            assert(after[j] == before[j]);
                        }
                    }
                    lemma_held_at(after, name, c);
                } else {
                    let d = entry_index(after, name);
                    if d < after.len() {
                        assert(d != k);
                        assert(after[d] == before[d]);
                    }
                }
            }
        } else {
            lemma_held_push(before, last, name);
        }
    }
}

/// Of the sources of a library those are kept, in order, whose path is reached.
pub proof fn reached_sources_are_kept<T>(
    sources: Vec<(String, T)>,
    reached: &Vec<String>,
    r: Vec<(String, T)>,
)
    requires
        call_ensures(keep_reached::<T>, (sources, reached), r),
    ensures
        r@ == sources@.filter(|s: (String, T)| is_on(reached@, s.0@)),
{
    lemma_kept(sources@, reached@);
}

proof fn lemma_kept<T>(sources: Seq<(String, T)>, reached: Seq<String>)
    ensures
        reached_sources(sources, texts(reached)) == sources.filter(
            |s: (String, T)| is_on(reached, s.0@),
        ),
    decreases sources.len(),
{
    reveal(Seq::filter);
    if sources.len() > 0 {
        lemma_kept(sources.drop_last(), reached);
        lemma_texts(reached, sources.last().0@);
    }
}

/// A directory's model files are those with the extension `va` or `vams`, each once for
/// each time it is listed; it is an error that there is none.
pub proof fn model_files_go_by_extension(
    path: &str,
    entries: &Vec<DirectoryEntry>,
    r: Result<Vec<String>, String>,
    p: Seq<char>,
)
    requires
        call_ensures(model_files, (path, entries), r),
    ensures
        r is Ok <==> exists|i: int| 0 <= i < entries@.len() && is_model(#[trigger] entries@[i]),
        r matches Ok(files) ==> (is_on(files@, p) <==> exists|i: int|
            0 <= i < entries@.len() && is_model(#[trigger] entries@[i]) && entries@[i].path@ == p),
{
    lemma_model_paths(entries@);
    let all = model_paths(entries@);
    if exists|i: int| 0 <= i < entries@.len() && is_model(#[trigger] entries@[i]) {
        let i = choose|i: int| 0 <= i < entries@.len() && is_model(#[trigger] entries@[i]);
        assert(all.contains(entries@[i].path@));
    }
    if let Ok(files) = r {
        lemma_texts(files@, p);
        let sorted = texts(files@);
        all.to_multiset_ensures();
        sorted.to_multiset_ensures();
        assert(sorted.contains(p) <==> sorted.to_multiset().count(p) > 0);
        assert(all.contains(p) <==> all.to_multiset().count(p) > 0);
        assert(sorted.len() == files@.len());
        assert(sorted.contains(sorted[0]));
        assert(all.to_multiset().count(sorted[0]) > 0);
        assert(all.contains(sorted[0]));
    }
}

/// The entry has the extension of a model file.
pub open spec fn is_model(entry: DirectoryEntry) -> bool {
    entry.extension is Some && (entry.extension->0@ == "va"@ || entry.extension->0@ == "vams"@)
}

proof fn lemma_model_paths(entries: Seq<DirectoryEntry>)
    ensures
        forall|p: Seq<char>| #[trigger]
            model_paths(entries).contains(p) <==> exists|i: int|
                0 <= i < entries.len() && is_model(#[trigger] entries[i]) && entries[i].path@ == p,
    decreases entries.len(),
{
    if entries.len() > 0 {
        let fewer = entries.drop_last();
        lemma_model_paths(fewer);
        let before = model_paths(fewer);
        let all = model_paths(entries);
        assert(is_model(entries.last()) == is_model_file(entries.last()));
        assert(entries[entries.len() - 1] == entries.last());
        assert forall|p: Seq<char>| #[trigger] all.contains(p) <==> exists|i: int|
            0 <= i < entries.len() && is_model(#[trigger] entries[i]) && entries[i].path@ == p by {
            if all.contains(p) {
                let k = choose|k: int| 0 <= k < all.len() && all[k] == p;
                if k < before.len() {
                    assert(before[k] == p);
                    assert(before.contains(p));
                    let i = choose|i: int|
                        0 <= i < fewer.len() && is_model(#[trigger] fewer[i]) && fewer[i].path@ == p;
                    assert(is_model(entries[i]));
                }
            }
            if exists|i: int|
                0 <= i < entries.len() && is_model(#[trigger] entries[i]) && entries[i].path@ == p {
                let i = choose|i: int|
                    0 <= i < entries.len() && is_model(#[trigger] entries[i]) && entries[i].path@
                        == p;
                if i < fewer.len() {
                    assert(is_model(fewer[i]) && fewer[i].path@ == p);
                    assert(before.contains(p));
                    let k = choose|k: int| 0 <= k < before.len() && before[k] == p;
                    assert(all[k] == p);
                } else {
                    assert(all.last() == p);
                }
            }
        }
    }
}

/// A file has the modules that its source declares, and instantiates what any of them
/// does.
pub proof fn a_file_holds_its_modules(
    path: String,
    modules: &Vec<ModuleSummary>,
    r: LibraryFile,
    name: Seq<char>,
)
    requires
        call_ensures(library_file, (path, modules), r),
    ensures
        r.path == path,
        has_module(r, name) <==> exists|m: int|
            0 <= m < modules@.len() && (#[trigger] modules@[m]).name@ == name,
        instantiates(r, name) <==> exists|m: int|
            0 <= m < modules@.len() && is_on((#[trigger] modules@[m]).instances@, name),
{
    lemma_texts(r.modules@, name);
    lemma_texts(r.instantiates@, name);
    lemma_instances(modules@, modules@.len() as int, name);
    let names = modules@.map_values(|m: ModuleSummary| m.name@);
    assert(names.len() == modules@.len());
    if exists|m: int| 0 <= m < modules@.len() && (#[trigger] modules@[m]).name@ == name {
        let m = choose|m: int| 0 <= m < modules@.len() && (#[trigger] modules@[m]).name@ == name;
        assert(names[m] == name);
    }
    if names.contains(name) {
        let m = choose|m: int| 0 <= m < names.len() && names[m] == name;
        assert(modules@[m].name@ == name);
    }
    lemma_file(r, name);
}

proof fn lemma_instances(modules: Seq<ModuleSummary>, upto: int, name: Seq<char>)
    requires
        0 <= upto <= modules.len(),
    ensures
        instances_of(modules, upto).contains(name) <==> exists|m: int|
            0 <= m < upto && is_on((#[trigger] modules[m]).instances@, name),
    decreases upto,
{
    if upto > 0 {
        lemma_instances(modules, upto - 1, name);
        let before = instances_of(modules, upto - 1);
        let own = texts(modules[upto - 1].instances@);
        lemma_texts(modules[upto - 1].instances@, name);
        let all = before + own;
        if before.contains(name) {
            let k = choose|k: int| 0 <= k < before.len() && before[k] == name;
            assert(all[k] == name);
        }
        if own.contains(name) {
            let k = choose|k: int| 0 <= k < own.len() && own[k] == name;
            assert(all[before.len() + k] == name);
        }
        if all.contains(name) {
            let k = choose|k: int| 0 <= k < all.len() && all[k] == name;
            if k < before.len() {
                assert(before[k] == name);
            } else {
                assert(own[k - before.len()] == name);
            }
        }
    }
}

/// Merging declarations into a table keeps what it held, and adds under each new name what
/// the first of them says; merging that overrides takes under each name what the last of
/// them says.
pub proof fn merging_keeps_the_first_or_the_last<T>(
    table: &mut Vec<(String, T)>,
    other: &mut Vec<(String, T)>,
    more: Vec<(String, T)>,
    name: Seq<char>,
)
    requires
        call_ensures(merge_keeping_first::<T>, (table, more), ()),
        call_ensures(merge_keeping_last::<T>, (other, more), ()),
    ensures
        held(final(table)@, name) == (if held(old(table)@, name) is Some {
            held(old(table)@, name)
        } else {
            held(more@, name)
        }),
        held(final(other)@, name) == (if last_said(more@, name) is Some {
            last_said(more@, name)
        } else {
            held(old(other)@, name)
        }),
{
    the_first_declaration_is_held(old(table)@, more@, name);
    the_last_declaration_is_held(old(other)@, more@, name);
}

} // verus!
