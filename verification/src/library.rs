//! A model library: which of its files a deck reaches.
use crate::device::{built_in, is_built_in};
use crate::netlist::{Device, Netlist};
use crate::search::{first_where, lemma_first_where};
use crate::text::{
    a_sorting_is_unique, decimal, decimal_text, is_sorting_of, same_text, sorted_texts, texts,
};
use vstd::prelude::*;

verus! {

/// One source file of a compiled model library.
#[derive(Clone, Debug, PartialEq, Eq)]
pub struct LibraryFile {
    pub path: String,
    /// The modules declared in the file.
    pub modules: Vec<String>,
    /// The modules that some module of the file instantiates.
    pub instantiates: Vec<String>,
}

impl LibraryFile {
    /// Whether the file declares a module of this name.
    pub open spec fn declares(self, name: Seq<char>) -> bool {
        texts(self.modules@).contains(name)
    }

    /// Whether some module of the file instantiates a module of this name.
    pub open spec fn uses(self, name: Seq<char>) -> bool {
        texts(self.instantiates@).contains(name)
    }
}

/// The names that lines ask for, in order. A line that is always built in asks for none.
pub open spec fn asked_models(devices: Seq<Device>) -> Seq<Seq<char>>
    decreases devices.len(),
{
    if devices.len() == 0 {
        Seq::empty()
    } else if is_built_in(devices.last().model@) {
        asked_models(devices.drop_last())
    } else {
        asked_models(devices.drop_last()).push(devices.last().model@)
    }
}

/// The names that the devices of a deck ask for.
pub open spec fn models_of(net: Netlist) -> Seq<Seq<char>> {
    asked_models(net.devices@)
}

/// A name is reached in so many steps: a device asks for it, or some file that
/// declares a name reached in one step less instantiates it.
pub open spec fn name_reached(
    files: Seq<LibraryFile>,
    roots: Seq<Seq<char>>,
    name: Seq<char>,
    steps: nat,
) -> bool
    decreases steps,
{
    if steps == 0 {
        roots.contains(name)
    } else {
        exists|i: int, by: Seq<char>|
            {
                &&& 0 <= i < files.len()
                &&& files[i].uses(name)
                &&& #[trigger] files[i].declares(by)
                &&& name_reached(files, roots, by, (steps - 1) as nat)
            }
    }
}

/// A name is reached in some number of steps.
pub open spec fn name_reachable(files: Seq<LibraryFile>, roots: Seq<Seq<char>>, name: Seq<char>) -> bool {
    exists|steps: nat| #[trigger] name_reached(files, roots, name, steps)
}

/// A deck reaches a file that declares a reachable name.
pub open spec fn file_reached(files: Seq<LibraryFile>, roots: Seq<Seq<char>>, file: LibraryFile) -> bool {
    exists|name: Seq<char>| #[trigger]
        file.declares(name) && name_reachable(files, roots, name)
}

/// No two files share a path.
pub open spec fn paths_distinct(files: Seq<LibraryFile>) -> bool {
    forall|i: int, j: int|
        0 <= i < j < files.len() ==> (#[trigger] files[i]).path@ != (#[trigger] files[j]).path@
}

// ---- the walk -------------------------------------------------------------

/// The names wanted so far, with those added that are new.
pub open spec fn want_more(wanted: Seq<Seq<char>>, more: Seq<Seq<char>>) -> Seq<Seq<char>>
    decreases more.len(),
{
    if more.len() == 0 {
        wanted
    } else {
        let before = want_more(wanted, more.drop_last());
        if before.contains(more.last()) {
            before
        } else {
            before.push(more.last())
        }
    }
}

/// The names wanted and the paths reached.
#[verifier::ext_equal]
pub struct Walk {
    pub wanted: Seq<Seq<char>>,
    pub reached: Seq<Seq<char>>,
}

/// What the walk knows after a name was looked up in the first `upto` files.
pub open spec fn after_lookup(files: Seq<LibraryFile>, name: Seq<char>, w: Walk, upto: int) -> Walk
    decreases upto,
{
    if upto <= 0 {
        w
    } else {
        let before = after_lookup(files, name, w, upto - 1);
        let f = files[upto - 1];
        if f.declares(name) && !before.reached.contains(f.path@) {
            Walk {
                wanted: want_more(before.wanted, texts(f.instantiates@)),
                reached: before.reached.push(f.path@),
            }
        } else {
            before
        }
    }
}

/// The paths that the walk has reached when every wanted name from the `i`-th on is
/// looked up, if that takes no more than `steps` lookups.
pub open spec fn walked(files: Seq<LibraryFile>, w: Walk, i: int, steps: nat) -> Option<
    Seq<Seq<char>>,
>
    decreases steps,
{
    if i >= w.wanted.len() {
        Some(w.reached)
    } else if steps == 0 {
        None
    } else {
        walked(
            files,
            after_lookup(files, w.wanted[i], w, files.len() as int),
            i + 1,
            (steps - 1) as nat,
        )
    }
}

/// These are the paths that the walk reaches from the models of a deck.
pub open spec fn is_reached(net: Netlist, files: Seq<LibraryFile>, reached: Seq<Seq<char>>) -> bool {
    exists|steps: nat|
        #[trigger] walked(
            files,
            (Walk { wanted: models_of(net), reached: Seq::empty() }),
            0,
            steps,
        ) == Some(reached)
}

proof fn lemma_walk_ends_once(files: Seq<LibraryFile>, w: Walk, i: int, a: nat, b: nat)
    requires
        walked(files, w, i, a) is Some,
        walked(files, w, i, b) is Some,
    ensures
        walked(files, w, i, a) == walked(files, w, i, b),
    decreases a,
{
    if i < w.wanted.len() {
        lemma_walk_ends_once(
            files,
            after_lookup(files, w.wanted[i], w, files.len() as int),
            i + 1,
            (a - 1) as nat,
            (b - 1) as nat,
        );
    }
}

/// A deck reaches one set of files of a library, in one order.
pub proof fn a_deck_reaches_one_list_of_files(
    net: Netlist,
    files: Seq<LibraryFile>,
    a: Seq<Seq<char>>,
    b: Seq<Seq<char>>,
)
    requires
        is_reached(net, files, a),
        is_reached(net, files, b),
    ensures
        a == b,
{
    let start = Walk { wanted: models_of(net), reached: Seq::empty() };
    let x = choose|steps: nat| #[trigger] walked(files, start, 0, steps) == Some(a);
    let y = choose|steps: nat| #[trigger] walked(files, start, 0, steps) == Some(b);
    lemma_walk_ends_once(files, start, 0, x, y);
}

fn holds_text(items: &Vec<String>, s: &str) -> (r: bool)
    ensures
        r == texts(items@).contains(s@),
{
    let mut i: usize = 0;
    while i < items.len()
        invariant
            i <= items@.len(),
            forall|j: int| 0 <= j < i ==> texts(items@)[j] != s@,
        decreases items@.len() - i,
    {
        if same_text(items[i].as_str(), s) {
            assert(texts(items@)[i as int] == s@);
            return true;
        }
        i += 1;
    }
    false
}

fn want(wanted: &mut Vec<String>, more: &Vec<String>)
    ensures
        texts(final(wanted)@) == want_more(texts(old(wanted)@), texts(more@)),
{
    let ghost start = texts(wanted@);
    let mut i: usize = 0;
    assert(texts(more@).subrange(0, 0) =~= Seq::empty());
    while i < more.len()
        invariant
            i <= more@.len(),
            texts(wanted@) == want_more(start, texts(more@).subrange(0, i as int)),
        decreases more@.len() - i,
    {
        proof {
            let upto = texts(more@).subrange(0, i + 1);
            assert(upto.drop_last() =~= texts(more@).subrange(0, i as int));
            assert(upto.last() == more@[i as int]@);
        }
        if !holds_text(wanted, more[i].as_str()) {
            let ghost before = wanted@;
            wanted.push(more[i].clone());
            assert(texts(wanted@) =~= texts(before).push(more@[i as int]@));
        }
        i += 1;
    }
    assert(texts(more@).subrange(0, i as int) =~= texts(more@));
}

/// What is wanted and reached is reachable, each path once; the devices' own models
/// are wanted.
spec fn walk_sound(files: Seq<LibraryFile>, roots: Seq<Seq<char>>, w: Walk) -> bool {
    &&& forall|n: int| 0 <= n < w.wanted.len() ==> name_reachable(files, roots, #[trigger] w.wanted[n])
    &&& forall|p: int|
        0 <= p < w.reached.len() ==> path_justified(files, roots, #[trigger] w.reached[p])
    &&& w.reached.no_duplicates()
    &&& roots.len() <= w.wanted.len()
    &&& forall|n: int| 0 <= n < roots.len() ==> w.wanted[n] == #[trigger] roots[n]
}

/// The path is that of a reached file.
pub open spec fn path_justified(files: Seq<LibraryFile>, roots: Seq<Seq<char>>, path: Seq<char>) -> bool {
    exists|k: int|
        0 <= k < files.len() && (#[trigger] files[k]).path@ == path && file_reached(
            files,
            roots,
            files[k],
        )
}

/// Whatever a reached file instantiates is wanted.
spec fn walk_closed(files: Seq<LibraryFile>, w: Walk) -> bool {
    forall|k: int, name: Seq<char>|
        0 <= k < files.len() && w.reached.contains((#[trigger] files[k]).path@) && #[trigger]
            files[k].uses(name) ==> w.wanted.contains(name)
}

/// Every file among the first `upto` that declares the name is reached.
spec fn looked_up(files: Seq<LibraryFile>, w: Walk, name: Seq<char>, upto: int) -> bool {
    forall|k: int|
        0 <= k < upto && (#[trigger] files[k]).declares(name) ==> w.reached.contains(files[k].path@)
}

/// The second walk knows all that the first one knows.
spec fn walk_extends(a: Walk, b: Walk) -> bool {
    &&& a.wanted.len() <= b.wanted.len()
    &&& forall|n: int| 0 <= n < a.wanted.len() ==> b.wanted[n] == #[trigger] a.wanted[n]
    &&& forall|p: Seq<char>| #[trigger] a.reached.contains(p) ==> b.reached.contains(p)
    &&& a.reached.len() <= b.reached.len()
    &&& a.reached.len() == b.reached.len() ==> a.wanted == b.wanted
}

proof fn lemma_want_more(wanted: Seq<Seq<char>>, more: Seq<Seq<char>>)
    ensures
        ({
            let now = want_more(wanted, more);
            &&& wanted.len() <= now.len()
            &&& forall|n: int| 0 <= n < wanted.len() ==> now[n] == #[trigger] wanted[n]
            &&& forall|s: Seq<char>| #[trigger] more.contains(s) ==> now.contains(s)
            &&& forall|n: int| wanted.len() <= n < now.len() ==> more.contains(#[trigger] now[n])
        }),
    decreases more.len(),
{
    if more.len() > 0 {
        let rest = more.drop_last();
        lemma_want_more(wanted, rest);
        let before = want_more(wanted, rest);
        let now = want_more(wanted, more);
        assert forall|s: Seq<char>| #[trigger] more.contains(s) implies now.contains(s) by {
            let j = choose|j: int| 0 <= j < more.len() && more[j] == s;
            if j < rest.len() {
                assert(rest[j] == s);
                assert(rest.contains(s));
                let k = choose|k: int| 0 <= k < before.len() && before[k] == s;
                assert(now[k] == s);
            } else if !before.contains(s) {
                assert(now[now.len() - 1] == s);
            }
        }
        assert forall|n: int| wanted.len() <= n < now.len() implies more.contains(
            #[trigger] now[n],
        ) by {
            if n < before.len() {
                assert(rest.contains(before[n]));
                let j = choose|j: int| 0 <= j < rest.len() && rest[j] == before[n];
                assert(more[j] == now[n]);
            } else {
                assert(more[more.len() - 1] == now[n]);
            }
        }
    }
}

proof fn lemma_lookup(
    files: Seq<LibraryFile>,
    roots: Seq<Seq<char>>,
    name: Seq<char>,
    w: Walk,
    upto: int,
)
    requires
        0 <= upto <= files.len(),
        name_reachable(files, roots, name),
        walk_sound(files, roots, w),
    ensures
        walk_sound(files, roots, after_lookup(files, name, w, upto)),
        walk_extends(w, after_lookup(files, name, w, upto)),
        looked_up(files, after_lookup(files, name, w, upto), name, upto),
        paths_distinct(files) && walk_closed(files, w) ==> walk_closed(
            files,
            after_lookup(files, name, w, upto),
        ),
    decreases upto,
{
    if upto > 0 {
        lemma_lookup(files, roots, name, w, upto - 1);
        let before = after_lookup(files, name, w, upto - 1);
        let now = after_lookup(files, name, w, upto);
        let f = files[upto - 1];
        if f.declares(name) && !before.reached.contains(f.path@) {
            let more = texts(f.instantiates@);
            lemma_want_more(before.wanted, more);
            assert(file_reached(files, roots, f));
            assert(path_justified(files, roots, f.path@));
            assert forall|n: int| 0 <= n < now.wanted.len() implies name_reachable(
                files,
                roots,
                #[trigger] now.wanted[n],
            ) by {
                if n >= before.wanted.len() {
                    let steps = choose|steps: nat| name_reached(files, roots, name, steps);
                    assert(f.uses(now.wanted[n]));
                    assert(files[upto - 1].declares(name));
                    assert(name_reached(files, roots, now.wanted[n], steps + 1));
                } else {
                    assert(now.wanted[n] == before.wanted[n]);
                }
            }
            assert(now.reached[before.reached.len() as int] == f.path@);
            assert forall|p: Seq<char>| #[trigger] before.reached.contains(p) implies
                now.reached.contains(p) by {
                let j = choose|j: int| 0 <= j < before.reached.len() && before.reached[j] == p;
                assert(now.reached[j] == p);
            }
            assert forall|k: int|
                0 <= k < upto && (#[trigger] files[k]).declares(name) implies now.reached.contains(
                files[k].path@,
            ) by {
                if k < upto - 1 {
                    assert(before.reached.contains(files[k].path@));
                }
            }
            if paths_distinct(files) && walk_closed(files, w) {
                assert forall|k: int, used: Seq<char>|
                    0 <= k < files.len() && now.reached.contains((#[trigger] files[k]).path@)
                        && #[trigger] files[k].uses(used) implies now.wanted.contains(used) by {
                    if before.reached.contains(files[k].path@) {
                        assert(before.wanted.contains(used));
                        let j = choose|j: int|
                            0 <= j < before.wanted.len() && before.wanted[j] == used;
                        assert(now.wanted[j] == used);
                    } else {
                        let j = choose|j: int|
                            0 <= j < now.reached.len() && now.reached[j] == files[k].path@;
                        if j < before.reached.len() {
                            assert(before.reached[j] == files[k].path@);
                        }
                        assert(files[k].path@ == files[upto - 1].path@);
                        assert(k == upto - 1);
                        assert(more.contains(used));
                    }
                }
            }
        }
    }
}

/// Where every wanted name is looked up, every reachable name is wanted.
proof fn lemma_all_wanted(
    files: Seq<LibraryFile>,
    roots: Seq<Seq<char>>,
    w: Walk,
    name: Seq<char>,
    steps: nat,
)
    requires
        walk_sound(files, roots, w),
        walk_closed(files, w),
        forall|n: int|
            0 <= n < w.wanted.len() ==> looked_up(
                files,
                w,
                #[trigger] w.wanted[n],
                files.len() as int,
            ),
        name_reached(files, roots, name, steps),
    ensures
        w.wanted.contains(name),
    decreases steps,
{
    if steps == 0 {
        let n = choose|n: int| 0 <= n < roots.len() && roots[n] == name;
        assert(w.wanted[n] == name);
    } else {
        let (i, by) = choose|i: int, by: Seq<char>|
            {
                &&& 0 <= i < files.len()
                &&& files[i].uses(name)
                &&& #[trigger] files[i].declares(by)
                &&& name_reached(files, roots, by, (steps - 1) as nat)
            };
        lemma_all_wanted(files, roots, w, by, (steps - 1) as nat);
        let n = choose|n: int| 0 <= n < w.wanted.len() && w.wanted[n] == by;
        assert(looked_up(files, w, w.wanted[n], files.len() as int));
        assert(w.reached.contains(files[i].path@));
    }
}

/// There are no more paths than files.
proof fn lemma_reached_bound(files: Seq<LibraryFile>, roots: Seq<Seq<char>>, w: Walk)
    requires
        walk_sound(files, roots, w),
    ensures
        w.reached.len() <= files.len(),
{
    let paths = files.map_values(|f: LibraryFile| f.path@);
    assert forall|p: Seq<char>| w.reached.to_set().contains(p) implies paths.to_set().contains(
        p,
    ) by {
        let j = choose|j: int| 0 <= j < w.reached.len() && w.reached[j] == p;
        assert(path_justified(files, roots, w.reached[j]));
        let k = choose|k: int|
            0 <= k < files.len() && (#[trigger] files[k]).path@ == p && file_reached(
                files,
                roots,
                files[k],
            );
        assert(paths[k] == p);
    }
    assert(w.reached.to_set().subset_of(paths.to_set()));
    w.reached.unique_seq_to_set();
    paths.lemma_cardinality_of_set();
    vstd::set_lib::lemma_len_subset(w.reached.to_set(), paths.to_set());
}

/// The library files that a deck reaches: those that declare a model which some
/// device places, and those that declare a module which a reached file instantiates.
/// Each path stands once, in the order in which the walk comes upon it.
pub fn files_reached_by(net: &Netlist, files: &Vec<LibraryFile>) -> (r: Vec<String>)
    ensures
        is_reached(*net, files@, texts(r@)),
        texts(r@).no_duplicates(),
        forall|p: Seq<char>| #[trigger]
            texts(r@).contains(p) ==> path_justified(files@, models_of(*net), p),
        paths_distinct(files@) ==> forall|k: int|
            0 <= k < files@.len() ==> (texts(r@).contains((#[trigger] files@[k]).path@)
                <==> file_reached(files@, models_of(*net), files@[k])),
{
    let ghost roots = models_of(*net);
    let mut wanted: Vec<String> = Vec::new();
    let mut d: usize = 0;
    assert(net.devices@.take(0) =~= Seq::empty());
    assert(texts(wanted@) =~= Seq::empty());
    while d < net.devices.len()
        invariant
            d <= net.devices@.len(),
            roots == models_of(*net),
            texts(wanted@) == asked_models(net.devices@.take(d as int)),
        decreases net.devices@.len() - d,
    {
        let ghost before = wanted@;
        assert(net.devices@.take(d + 1).drop_last() =~= net.devices@.take(d as int));
        if !built_in(net.devices[d].model.as_str()) {
            wanted.push(net.devices[d].model.clone());
            assert(texts(wanted@) =~= texts(before).push(net.devices@[d as int].model@));
        }
        d += 1;
    }
    assert(net.devices@.take(d as int) =~= net.devices@);
    let mut reached: Vec<String> = Vec::new();
    assert(texts(reached@) =~= Seq::empty());
    let ghost start = Walk { wanted: roots, reached: Seq::empty() };
    let ghost mut steps: nat = 0;
    let mut i: usize = 0;
    proof {
        assert forall|n: int| 0 <= n < roots.len() implies name_reachable(
            files@,
            roots,
            #[trigger] roots[n],
        ) by {
            assert(name_reached(files@, roots, roots[n], 0));
        }
    }
    while i < wanted.len()
        invariant
            roots == models_of(*net),
            start == (Walk { wanted: roots, reached: Seq::empty() }),
            i <= wanted@.len(),
            walk_sound(
                files@,
                roots,
                Walk { wanted: texts(wanted@), reached: texts(reached@) },
            ),
            paths_distinct(files@) ==> walk_closed(
                files@,
                Walk { wanted: texts(wanted@), reached: texts(reached@) },
            ),
            forall|n: int|
                0 <= n < i ==> looked_up(
                    files@,
                    Walk { wanted: texts(wanted@), reached: texts(reached@) },
                    #[trigger] texts(wanted@)[n],
                    files@.len() as int,
                ),
            forall|more: nat|
                #[trigger] walked(files@, start, 0, steps + more) == walked(
                    files@,
                    Walk { wanted: texts(wanted@), reached: texts(reached@) },
                    i as int,
                    more,
                ),
        decreases files@.len() - reached@.len(), wanted@.len() - i,
    {
        let name = wanted[i].clone();
        let ghost w = Walk { wanted: texts(wanted@), reached: texts(reached@) };
        let mut k: usize = 0;
        while k < files.len()
            invariant
                k <= files@.len(),
                (Walk { wanted: texts(wanted@), reached: texts(reached@) }) == after_lookup(
                    files@,
                    name@,
                    w,
                    k as int,
                ),
            decreases files@.len() - k,
        {
            if holds_text(&files[k].modules, name.as_str()) && !holds_text(
                &reached,
                files[k].path.as_str(),
            ) {
                let ghost before = reached@;
                reached.push(files[k].path.clone());
                assert(texts(reached@) =~= texts(before).push(files@[k as int].path@));
                want(&mut wanted, &files[k].instantiates);
            }
            k += 1;
        }
        let ghost now = Walk { wanted: texts(wanted@), reached: texts(reached@) };
        proof {
            assert(w.wanted[i as int] == name@);
            lemma_lookup(files@, roots, name@, w, files@.len() as int);
            lemma_reached_bound(files@, roots, w);
            lemma_reached_bound(files@, roots, now);
            assert forall|n: int| 0 <= n < i + 1 implies looked_up(
                files@,
                now,
                #[trigger] now.wanted[n],
                files@.len() as int,
            ) by {
                assert(now.wanted[n] == w.wanted[n]);
                if n < i {
                    assert(looked_up(files@, w, w.wanted[n], files@.len() as int));
                }
            }
            assert forall|more: nat|
                #[trigger] walked(files@, start, 0, (steps + 1) + more) == walked(
                    files@,
                    now,
                    i + 1,
                    more,
                ) by {
                assert((steps + 1) + more == steps + (more + 1));
                assert(walked(files@, start, 0, steps + (more + 1)) == walked(
                    files@,
                    w,
                    i as int,
                    more + 1,
                ));
            }
            steps = steps + 1;
        }
        i += 1;
    }
    proof {
        let w = Walk { wanted: texts(wanted@), reached: texts(reached@) };
        assert(walked(files@, start, 0, steps + 0) == walked(files@, w, i as int, 0));
        assert forall|p: Seq<char>| #[trigger] texts(reached@).contains(p) implies path_justified(
            files@,
            roots,
            p,
        ) by {
            let j = choose|j: int| 0 <= j < w.reached.len() && w.reached[j] == p;
            assert(path_justified(files@, roots, w.reached[j]));
        }
        if paths_distinct(files@) {
            assert forall|k: int| 0 <= k < files@.len() implies (texts(reached@).contains(
                (#[trigger] files@[k]).path@,
            ) <==> file_reached(files@, roots, files@[k])) by {
                let path = files@[k].path@;
                if texts(reached@).contains(path) {
                    assert(path_justified(files@, roots, path));
                    let j = choose|j: int|
                        0 <= j < files@.len() && (#[trigger] files@[j]).path@ == path
                            && file_reached(files@, roots, files@[j]);
                    assert(j == k);
                }
                if file_reached(files@, roots, files@[k]) {
                    let name = choose|name: Seq<char>| #[trigger]
                        files@[k].declares(name) && name_reachable(files@, roots, name);
                    let steps = choose|steps: nat| name_reached(files@, roots, name, steps);
                    lemma_all_wanted(files@, roots, w, name, steps);
                    let n = choose|n: int| 0 <= n < w.wanted.len() && w.wanted[n] == name;
                    assert(looked_up(files@, w, w.wanted[n], files@.len() as int));
                }
            }
        }
    }
    reached
}

// ---- reading a library ----------------------------------------------------

/// A module as its source states it.
#[derive(Clone, Debug, PartialEq, Eq)]
pub struct ModuleSummary {
    pub name: String,
    /// The modules it instantiates, in order.
    pub instances: Vec<String>,
}

/// The modules that the first `upto` modules instantiate.
pub open spec fn instances_of(modules: Seq<ModuleSummary>, upto: int) -> Seq<Seq<char>>
    decreases upto,
{
    if upto <= 0 {
        Seq::empty()
    } else {
        instances_of(modules, upto - 1) + texts(modules[upto - 1].instances@)
    }
}

/// What a source file declares and instantiates.
pub fn library_file(path: String, modules: &Vec<ModuleSummary>) -> (r: LibraryFile)
    ensures
        r.path == path,
        texts(r.modules@) == modules@.map_values(|m: ModuleSummary| m.name@),
        texts(r.instantiates@) == instances_of(modules@, modules@.len() as int),
{
    let mut names: Vec<String> = Vec::new();
    let mut instances: Vec<String> = Vec::new();
    let ghost goal = modules@.map_values(|m: ModuleSummary| m.name@);
    let mut i: usize = 0;
    assert(texts(instances@) =~= Seq::empty());
    while i < modules.len()
        invariant
            i <= modules@.len(),
            goal == modules@.map_values(|m: ModuleSummary| m.name@),
            texts(names@) =~= goal.subrange(0, i as int),
            texts(instances@) == instances_of(modules@, i as int),
        decreases modules@.len() - i,
    {
        let m = &modules[i];
        let ghost before = texts(names@);
        names.push(m.name.clone());
        assert(texts(names@) =~= before.push(m.name@));
        let ghost start = texts(instances@);
        let mut k: usize = 0;
        while k < m.instances.len()
            invariant
                k <= m.instances@.len(),
                texts(instances@) =~= start + texts(m.instances@).subrange(0, k as int),
            decreases m.instances@.len() - k,
        {
            let ghost before = texts(instances@);
            instances.push(m.instances[k].clone());
            assert(texts(instances@) =~= before.push(m.instances@[k as int]@));
            k += 1;
        }
        assert(texts(m.instances@).subrange(0, k as int) =~= texts(m.instances@));
        i += 1;
    }
    assert(texts(names@) =~= goal);
    LibraryFile { path, modules: names, instantiates: instances }
}

/// A file of a directory.
#[derive(Clone, Debug, PartialEq, Eq)]
pub struct DirectoryEntry {
    pub path: String,
    pub extension: Option<String>,
}

/// Whether the entry is a model file.
pub open spec fn is_model_file(entry: DirectoryEntry) -> bool {
    entry.extension matches Some(e) && (e@ == "va"@ || e@ == "vams"@)
}

/// The paths of the model files, in the order in which they are listed.
pub open spec fn model_paths(entries: Seq<DirectoryEntry>) -> Seq<Seq<char>>
    decreases entries.len(),
{
    if entries.len() == 0 {
        Seq::empty()
    } else if is_model_file(entries.last()) {
        model_paths(entries.drop_last()).push(entries.last().path@)
    } else {
        model_paths(entries.drop_last())
    }
}

/// The model files of a directory, sorted by path, so that a library is the same in
/// whatever order its directory is listed. It is an error that there is none.
pub fn model_files(path: &str, entries: &Vec<DirectoryEntry>) -> (r: Result<Vec<String>, String>)
    ensures
        match r {
            Ok(files) => {
                &&& is_sorting_of(texts(files@), model_paths(entries@))
                &&& files@.len() > 0
            },
            Err(message) => {
                &&& model_paths(entries@).len() == 0
                &&& message@ == "no `.va`/`.vams` model files found in "@ + path@
            },
        },
{
    let mut files: Vec<String> = Vec::new();
    let mut i: usize = 0;
    assert(entries@.subrange(0, 0) =~= Seq::empty());
    assert(texts(files@) =~= Seq::empty());
    while i < entries.len()
        invariant
            i <= entries@.len(),
            texts(files@) == model_paths(entries@.subrange(0, i as int)),
        decreases entries@.len() - i,
    {
        proof {
            let upto = entries@.subrange(0, i + 1);
            assert(upto.drop_last() =~= entries@.subrange(0, i as int));
            assert(upto.last() == entries@[i as int]);
        }
        let model = match &entries[i].extension {
            Some(e) => crate::check::is_model_extension(e.as_str()),
            None => false,
        };
        if model {
            let ghost before = texts(files@);
            files.push(entries[i].path.clone());
            assert(texts(files@) =~= before.push(entries@[i as int].path@));
        }
        i += 1;
    }
    assert(entries@.subrange(0, i as int) =~= entries@);
    assert(texts(files@).len() == files@.len());
    if files.len() == 0 {
        let mut message = "no `.va`/`.vams` model files found in ".to_owned();
        message.append(path);
        return Err(message);
    }
    let sorted = sorted_texts(&files);
    proof {
        lemma_same_multiset_len(texts(sorted@), texts(files@));
        assert(texts(sorted@).len() == sorted@.len());
    }
    Ok(sorted)
}

proof fn lemma_same_multiset_len(a: Seq<Seq<char>>, b: Seq<Seq<char>>)
    requires
        a.to_multiset() == b.to_multiset(),
    ensures
        a.len() == b.len(),
{
    a.to_multiset_ensures();
    b.to_multiset_ensures();
}

/// Two listings of the same model files, in whatever orders, give the same library: their
/// sorted paths are the same.
pub proof fn the_listing_order_does_not_matter(
    a: Seq<DirectoryEntry>,
    b: Seq<DirectoryEntry>,
    first: Seq<Seq<char>>,
    second: Seq<Seq<char>>,
)
    requires
        model_paths(a).to_multiset() == model_paths(b).to_multiset(),
        is_sorting_of(first, model_paths(a)),
        is_sorting_of(second, model_paths(b)),
    ensures
        first == second,
{
    a_sorting_is_unique(model_paths(a), first, second);
}

// ---- tables of declarations -----------------------------------------------

/// Being an entry of this name.
pub open spec fn is_entry_named<T>(name: Seq<char>) -> spec_fn((String, T)) -> bool {
    |e: (String, T)| e.0@ == name
}

/// The place of the first entry of this name.
pub open spec fn entry_index<T>(table: Seq<(String, T)>, name: Seq<char>) -> int {
    first_where(table, is_entry_named(name))
}

/// A table with more entries: of two of one name the earlier one stays.
pub open spec fn first_wins<T>(table: Seq<(String, T)>, more: Seq<(String, T)>) -> Seq<(String, T)>
    decreases more.len(),
{
    if more.len() == 0 {
        table
    } else {
        let before = first_wins(table, more.drop_last());
        if entry_index(before, more.last().0@) < before.len() {
            before
        } else {
            before.push(more.last())
        }
    }
}

/// A table with more entries: of two of one name the later one stays.
pub open spec fn last_wins<T>(table: Seq<(String, T)>, more: Seq<(String, T)>) -> Seq<(String, T)>
    decreases more.len(),
{
    if more.len() == 0 {
        table
    } else {
        let before = last_wins(table, more.drop_last());
        let k = entry_index(before, more.last().0@);
        if k < before.len() {
            before.update(k, more.last())
        } else {
            before.push(more.last())
        }
    }
}

fn find_entry<T>(table: &Vec<(String, T)>, name: &str) -> (r: usize)
    ensures
        r == entry_index(table@, name@),
        r <= table@.len(),
{
    let mut k: usize = 0;
    while k < table.len() && !same_text(table[k].0.as_str(), name)
        invariant
            k <= table@.len(),
            forall|j: int| 0 <= j < k ==> (#[trigger] table@[j]).0@ != name@,
        decreases table@.len() - k,
    {
        k += 1;
    }
    proof {
        lemma_first_where(table@, is_entry_named(name@), k as int);
    }
    k
}

/// Adds declarations to a table. A later file does not override an earlier one.
pub fn merge_keeping_first<T>(table: &mut Vec<(String, T)>, more: Vec<(String, T)>)
    ensures
        final(table)@ == first_wins(old(table)@, more@),
{
    let ghost start = table@;
    let ghost all = more@;
    assert(all.subrange(0, 0) =~= Seq::empty());
    for entry in it: more
        invariant
            it.seq() == all,
            table@ == first_wins(start, all.subrange(0, it.index() as int)),
    {
        proof {
            let upto = all.subrange(0, it.index() + 1);
            assert(upto.drop_last() =~= all.subrange(0, it.index() as int));
            assert(upto.last() == entry);
        }
        let k = find_entry(table, entry.0.as_str());
        if k == table.len() {
            table.push(entry);
        }
    }
    assert(all.subrange(0, all.len() as int) =~= all);
}

/// Adds declarations to a table. A later file overrides an earlier one.
pub fn merge_keeping_last<T>(table: &mut Vec<(String, T)>, more: Vec<(String, T)>)
    ensures
        final(table)@ == last_wins(old(table)@, more@),
{
    let ghost start = table@;
    let ghost all = more@;
    assert(all.subrange(0, 0) =~= Seq::empty());
    for entry in it: more
        invariant
            it.seq() == all,
            table@ == last_wins(start, all.subrange(0, it.index() as int)),
    {
        proof {
            let upto = all.subrange(0, it.index() + 1);
            assert(upto.drop_last() =~= all.subrange(0, it.index() as int));
            assert(upto.last() == entry);
        }
        let k = find_entry(table, entry.0.as_str());
        if k == table.len() {
            table.push(entry);
        } else {
            table.set(k, entry);
        }
    }
    assert(all.subrange(0, all.len() as int) =~= all);
}

/// The line about a compiled library.
pub fn compiled_line(modules: usize, path: &str) -> (r: String)
    ensures
        r@ == "[va-cli] compiled "@ + decimal(modules as nat) + " Verilog-A module(s) from "@ + path@,
{
    let mut r = "[va-cli] compiled ".to_owned();
    r.append(decimal_text(modules as u64).as_str());
    r.append(" Verilog-A module(s) from ");
    r.append(path);
    r
}

// ---- gathering a library --------------------------------------------------

/// How far the source of a model file is.
#[derive(Clone, Copy, Debug, PartialEq, Eq, Structural)]
pub enum Stage {
    Reading,
    Preprocessing,
    Lexing,
    Parsing,
}

/// What is being done with a file.
pub open spec fn stage_text(stage: Stage, path: Seq<char>) -> Seq<char> {
    match stage {
        Stage::Reading => "reading model "@ + path,
        Stage::Preprocessing => "preprocessing "@ + path,
        Stage::Lexing => "lexing "@ + path,
        Stage::Parsing => "parsing "@ + path,
    }
}

/// What was being done with a file when it failed.
pub fn stage_context(stage: Stage, path: &str) -> (r: String)
    ensures
        r@ == stage_text(stage, path@),
{
    let mut r = match stage {
        Stage::Reading => "reading model ".to_owned(),
        Stage::Preprocessing => "preprocessing ".to_owned(),
        Stage::Lexing => "lexing ".to_owned(),
        Stage::Parsing => "parsing ".to_owned(),
    };
    r.append(path);
    r
}

/// The files of a library and the tables of declarations that they brought in.
pub struct GatheredLibrary<D, N> {
    pub files: Vec<LibraryFile>,
    pub disciplines: Vec<(String, D)>,
    pub natures: Vec<(String, N)>,
}

impl<D, N> GatheredLibrary<D, N> {
    /// A library without files.
    pub fn new() -> (r: GatheredLibrary<D, N>)
        ensures
            r.files@ == Seq::<LibraryFile>::empty(),
            r.disciplines@ == Seq::<(String, D)>::empty(),
            r.natures@ == Seq::<(String, N)>::empty(),
    {
        GatheredLibrary { files: Vec::new(), disciplines: Vec::new(), natures: Vec::new() }
    }

    /// Takes a parsed file. What it declares does not override what an earlier file
    /// declared under the same name.
    pub fn take(
        &mut self,
        path: String,
        modules: &Vec<ModuleSummary>,
        disciplines: Vec<(String, D)>,
        natures: Vec<(String, N)>,
    )
        ensures
            final(self).disciplines@ == first_wins(old(self).disciplines@, disciplines@),
            final(self).natures@ == first_wins(old(self).natures@, natures@),
            final(self).files@.len() == old(self).files@.len() + 1,
            final(self).files@.drop_last() == old(self).files@,
            final(self).files@.last().path == path,
            texts(final(self).files@.last().modules@) == modules@.map_values(
                |m: ModuleSummary| m.name@,
            ),
            texts(final(self).files@.last().instantiates@) == instances_of(
                modules@,
                modules@.len() as int,
            ),
    {
        let ghost before = self.files@;
        merge_keeping_first(&mut self.disciplines, disciplines);
        merge_keeping_first(&mut self.natures, natures);
        self.files.push(library_file(path, modules));
        assert(self.files@.drop_last() =~= before);
    }
}

/// Of two declarations of one name the earlier one stays, whatever comes later.
pub proof fn an_earlier_declaration_stays<T>(
    table: Seq<(String, T)>,
    more: Seq<(String, T)>,
    k: int,
)
    requires
        0 <= k < table.len(),
    ensures
        first_wins(table, more).len() >= table.len(),
        first_wins(table, more)[k] == table[k],
    decreases more.len(),
{
    if more.len() > 0 {
        an_earlier_declaration_stays(table, more.drop_last(), k);
    }
}

/// The sources whose path is among the reached ones, in order.
pub open spec fn reached_sources<T>(sources: Seq<(String, T)>, reached: Seq<Seq<char>>) -> Seq<
    (String, T),
>
    decreases sources.len(),
{
    if sources.len() == 0 {
        Seq::empty()
    } else if reached.contains(sources.last().0@) {
        reached_sources(sources.drop_last(), reached).push(sources.last())
    } else {
        reached_sources(sources.drop_last(), reached)
    }
}

/// Keeps the sources that a deck reaches.
pub fn keep_reached<T>(sources: Vec<(String, T)>, reached: &Vec<String>) -> (r: Vec<(String, T)>)
    ensures
        r@ == reached_sources(sources@, texts(reached@)),
{
    let mut r: Vec<(String, T)> = Vec::new();
    let ghost all = sources@;
    assert(all.subrange(0, 0) =~= Seq::empty());
    for source in it: sources
        invariant
            it.seq() == all,
            r@ == reached_sources(all.subrange(0, it.index() as int), texts(reached@)),
    {
        proof {
            let upto = all.subrange(0, it.index() + 1);
            assert(upto.drop_last() =~= all.subrange(0, it.index() as int));
            assert(upto.last() == source);
        }
        if holds_text(reached, source.0.as_str()) {
            r.push(source);
        }
    }
    assert(all.subrange(0, all.len() as int) =~= all);
    r
}

proof fn lemma_reached_sources_concat<T>(
    a: Seq<(String, T)>,
    b: Seq<(String, T)>,
    reached: Seq<Seq<char>>,
)
    ensures
        reached_sources(a + b, reached) == reached_sources(a, reached) + reached_sources(b, reached),
    decreases b.len(),
{
    if b.len() == 0 {
        assert(a + b =~= a);
        assert(reached_sources(a, reached) + reached_sources(b, reached) =~= reached_sources(
            a,
            reached,
        ));
    } else {
        assert((a + b).drop_last() =~= a + b.drop_last());
        lemma_reached_sources_concat(a, b.drop_last(), reached);
        assert(reached_sources(a + b, reached) =~= reached_sources(a, reached) + reached_sources(
            b,
            reached,
        ));
    }
}

/// A source that the deck does not reach has no say, wherever it stands in the library.
pub proof fn an_unreached_source_has_no_say<T>(
    before: Seq<(String, T)>,
    source: (String, T),
    after: Seq<(String, T)>,
    reached: Seq<Seq<char>>,
)
    requires
        !reached.contains(source.0@),
    ensures
        reached_sources(before.push(source) + after, reached) == reached_sources(
            before + after,
            reached,
        ),
{
    assert(before.push(source).drop_last() =~= before);
    lemma_reached_sources_concat(before.push(source), after, reached);
    lemma_reached_sources_concat(before, after, reached);
}

} // verus!
