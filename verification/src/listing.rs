//! The lines of a listing, and the clauses and warnings that stand in them.
use crate::netlist::Module;
use crate::text::{join, join_texts, texts};
use vstd::prelude::*;

verus! {

// ---- lines ----------------------------------------------------------------

/// A line of output.
#[derive(Clone, Debug, PartialEq, Eq)]
pub enum Line {
    /// To the listing.
    Listing(String),
    /// To the diagnostics.
    Warning(String),
}

/// What a [`Line`] says.
pub enum LineView {
    Listing(Seq<char>),
    Warning(Seq<char>),
}

impl View for Line {
    type V = LineView;

    open spec fn view(&self) -> LineView {
        match self {
            Line::Listing(s) => LineView::Listing(s@),
            Line::Warning(s) => LineView::Warning(s@),
        }
    }
}

/// What a sequence of lines says.
pub open spec fn said(items: Seq<Line>) -> Seq<LineView> {
    items.map_values(|l: Line| l@)
}

/// The texts as lines of the listing.
pub open spec fn listing(items: Seq<Seq<char>>) -> Seq<LineView> {
    items.map_values(|s: Seq<char>| LineView::Listing(s))
}

/// Adds a line to the listing.
pub fn say(out: &mut Vec<Line>, s: String)
    ensures
        said(final(out)@) == said(old(out)@).push(LineView::Listing(s@)),
{
    let ghost before = said(out@);
    out.push(Line::Listing(s));
    assert(said(out@) =~= before.push(LineView::Listing(s@)));
}

/// Adds a line to the diagnostics.
pub fn warn(out: &mut Vec<Line>, s: String)
    ensures
        said(final(out)@) == said(old(out)@).push(LineView::Warning(s@)),
{
    let ghost before = said(out@);
    out.push(Line::Warning(s));
    assert(said(out@) =~= before.push(LineView::Warning(s@)));
}

/// Adds lines to the listing.
pub fn say_all(out: &mut Vec<Line>, items: &Vec<String>)
    ensures
        said(final(out)@) == said(old(out)@) + listing(texts(items@)),
{
    let ghost start = said(out@);
    let ghost goal = listing(texts(items@));
    let mut i: usize = 0;
    assert(said(out@) =~= start + goal.subrange(0, 0));
    while i < items.len()
        invariant
            i <= items@.len(),
            goal == listing(texts(items@)),
            said(out@) == start + goal.subrange(0, i as int),
        decreases items@.len() - i,
    {
        say(out, items[i].clone());
        assert(goal[i as int] == LineView::Listing(items@[i as int]@));
        i += 1;
        assert(said(out@) =~= start + goal.subrange(0, i as int));
    }
    assert(said(out@) =~= start + goal);
}

// ---- clauses --------------------------------------------------------------

/// The clause about directives that could not be resolved; nothing where there are none.
pub open spec fn skipped_text(skipped: Seq<Seq<char>>) -> Seq<char> {
    if skipped.len() == 0 {
        Seq::empty()
    } else {
        " [after skipping unresolved `include: "@ + join(skipped, ", "@) + "]"@
    }
}

/// The clause about directives that could not be resolved, for the end of a status line.
pub fn skipped_clause(skipped: &Vec<String>) -> (r: String)
    ensures
        r@ == skipped_text(texts(skipped@)),
{
    if skipped.len() == 0 {
        return String::new();
    }
    let mut r = " [after skipping unresolved `include: ".to_owned();
    r.append(join_texts(skipped, ", ").as_str());
    r.append("]");
    r
}

/// The clause about a module that no deck line can place.
pub open spec fn unplaceable_text(ports: nat, skipped: nat) -> Seq<char> {
    if ports > 0 || skipped > 0 {
        Seq::empty()
    } else {
        " — declares no ports, so no `.net` deck line can place it; this is a self-contained circuit, not a component. Write it as a deck instead."@
    }
}

/// The clause about a module without ports, for the end of its status line. There is
/// none where something was skipped: the ports may have been declared there.
pub fn unplaceable_clause(ports: usize, skipped: &Vec<String>) -> (r: String)
    ensures
        r@ == unplaceable_text(ports as nat, skipped@.len()),
{
    if ports > 0 || skipped.len() > 0 {
        String::new()
    } else {
        " — declares no ports, so no `.net` deck line can place it; this is a self-contained circuit, not a component. Write it as a deck instead.".to_owned()
    }
}

// ---- warnings about modules -----------------------------------------------

/// The warnings about a module that scales a flow by `$mfactor` itself.
pub open spec fn mfactor_texts(name: Seq<char>, path: Seq<char>) -> Seq<LineView> {
    seq![
        LineView::Warning("[va-cli] warning: "@ + path + ": module `"@ + name + "` multiplies a flow contribution by `$mfactor`, which the simulator already applies (LRM 6.3.6) - an instance with `m=N` would be scaled by N twice."@),
        LineView::Warning("[va-cli]   Drop the explicit factor: `I(a,b) <+ V(a,b)/r;` already behaves as N devices in parallel. `$mfactor` is for reading the multiplicity in a *condition* (the LRM's `parares` example), not for scaling the output."@),
        LineView::Warning("[va-cli]   Harmless at the default `m=1`, which is how a deck that never writes `m=` runs this model."@),
    ]
}

/// Warns about a module that scales a flow by `$mfactor` itself, which is then
/// applied twice.
pub fn warn_mfactor_double_scaling(out: &mut Vec<Line>, name: &str, path: &str)
    ensures
        said(final(out)@) == said(old(out)@) + mfactor_texts(name@, path@),
{
    let ghost start = said(out@);
    let mut first = "[va-cli] warning: ".to_owned();
    first.append(path);
    first.append(": module `");
    first.append(name);
    first.append("` multiplies a flow contribution by `$mfactor`, which the simulator already applies (LRM 6.3.6) - an instance with `m=N` would be scaled by N twice.");
    warn(out, first);
    warn(out, "[va-cli]   Drop the explicit factor: `I(a,b) <+ V(a,b)/r;` already behaves as N devices in parallel. `$mfactor` is for reading the multiplicity in a *condition* (the LRM's `parares` example), not for scaling the output.".to_owned());
    warn(out, "[va-cli]   Harmless at the default `m=1`, which is how a deck that never writes `m=` runs this model.".to_owned());
    assert(said(out@) =~= start + mfactor_texts(name@, path@));
}

/// The warnings about a module that no deck line can place.
pub open spec fn unplaceable_texts(name: Seq<char>, path: Seq<char>) -> Seq<LineView> {
    seq![
        LineView::Warning("[va-cli] warning: "@ + path + ": module `"@ + name + "` declares no ports, so no deck line can place it — it was compiled and then ignored."@),
        LineView::Warning("[va-cli]   In this simulator the circuit is the `.net` deck; a `.va` file supplies components the deck places, and every device line connects at least one node (`X<name> <node>... <model> [param=value]`)."@),
        LineView::Warning("[va-cli]   To simulate `"@ + name + "`, keep its component modules in `.va` files and rewrite its instance lines as deck lines: `vsrc #(.dc(1)) V1(n, gnd);` becomes `X1 n gnd vsrc dc=1`. See `circuits/divider.net`."@),
    ]
}

/// Warns about a module that declares no ports, so that no deck line can place it.
pub fn warn_unplaceable_module(out: &mut Vec<Line>, name: &str, path: &str)
    ensures
        said(final(out)@) == said(old(out)@) + unplaceable_texts(name@, path@),
{
    let ghost start = said(out@);
    let mut first = "[va-cli] warning: ".to_owned();
    first.append(path);
    first.append(": module `");
    first.append(name);
    first.append("` declares no ports, so no deck line can place it — it was compiled and then ignored.");
    warn(out, first);
    warn(out, "[va-cli]   In this simulator the circuit is the `.net` deck; a `.va` file supplies components the deck places, and every device line connects at least one node (`X<name> <node>... <model> [param=value]`).".to_owned());
    let mut last = "[va-cli]   To simulate `".to_owned();
    last.append(name);
    last.append("`, keep its component modules in `.va` files and rewrite its instance lines as deck lines: `vsrc #(.dc(1)) V1(n, gnd);` becomes `X1 n gnd vsrc dc=1`. See `circuits/divider.net`.");
    warn(out, last);
    assert(said(out@) =~= start + unplaceable_texts(name@, path@));
}

// ---- warnings about a compiled library ------------------------------------

/// The warnings about the first `upto` modules that no deck line can place.
pub open spec fn all_unplaceable(modules: Seq<Module>, path: Seq<char>, upto: int) -> Seq<LineView>
    decreases upto,
{
    if upto <= 0 {
        Seq::empty()
    } else if modules[upto - 1].ports@.len() == 0 {
        all_unplaceable(modules, path, upto - 1) + unplaceable_texts(modules[upto - 1].name@, path)
    } else {
        all_unplaceable(modules, path, upto - 1)
    }
}

/// The warnings about the first `upto` modules that scale a flow by `$mfactor` themselves.
pub open spec fn all_mfactor(modules: Seq<Module>, path: Seq<char>, upto: int) -> Seq<LineView>
    decreases upto,
{
    if upto <= 0 {
        Seq::empty()
    } else if modules[upto - 1].scales_by_mfactor {
        all_mfactor(modules, path, upto - 1) + mfactor_texts(modules[upto - 1].name@, path)
    } else {
        all_mfactor(modules, path, upto - 1)
    }
}

/// The warnings about the modules of a compiled library: first those that no deck line
/// can place, then those that scale a flow by `$mfactor` themselves.
pub fn library_warnings(modules: &Vec<Module>, path: &str) -> (r: Vec<Line>)
    ensures
        said(r@) == all_unplaceable(modules@, path@, modules@.len() as int) + all_mfactor(
            modules@,
            path@,
            modules@.len() as int,
        ),
{
    let mut out: Vec<Line> = Vec::new();
    let mut i: usize = 0;
    assert(said(out@) =~= Seq::empty());
    while i < modules.len()
        invariant
            i <= modules@.len(),
            said(out@) == all_unplaceable(modules@, path@, i as int),
        decreases modules@.len() - i,
    {
        if modules[i].ports.len() == 0 {
            warn_unplaceable_module(&mut out, modules[i].name.as_str(), path);
        }
        i += 1;
    }
    let ghost first = said(out@);
    let mut i: usize = 0;
    assert(said(out@) =~= first + all_mfactor(modules@, path@, 0));
    while i < modules.len()
        invariant
            i <= modules@.len(),
            said(out@) == first + all_mfactor(modules@, path@, i as int),
        decreases modules@.len() - i,
    {
        if modules[i].scales_by_mfactor {
            warn_mfactor_double_scaling(&mut out, modules[i].name.as_str(), path);
        }
        i += 1;
        assert(said(out@) =~= first + all_mfactor(modules@, path@, i as int));
    }
    out
}

} // verus!
